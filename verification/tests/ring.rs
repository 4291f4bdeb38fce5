use toutates::ring::{is_power_of_two, PaddedAtomic, RingBufferIndex, HALF_RANGE};

fn index(i: usize) -> RingBufferIndex {
    // 4 batches of 8 slots
    RingBufferIndex {
        index: i,
        ring_mask: 31,
        batch_mask: 7,
        batch_size: 8,
    }
}

#[test]
fn powers_of_two() {
    for n in [1usize, 2, 4, 1024, 1 << 31] {
        assert!(is_power_of_two(n));
    }
    for n in [0usize, 3, 6, 1023, usize::MAX] {
        assert!(!is_power_of_two(n));
    }
}

#[test]
fn positions_lead_to_batches_and_slots() {
    assert_eq!(index(0).as_batch_id(), 0);
    assert_eq!(index(13).as_batch_id(), 1);
    assert_eq!(index(13).as_batch_slot_id(), 5);
    assert_eq!(index(13).as_absolute_index(), 13);
    assert_eq!(index(13).as_absolute_batch_lower_bound(), 8);
    assert_eq!(index(13).as_absolute_batch_higher_bound(), 16);
    // the next lap
    assert_eq!(index(32 + 13).as_batch_id(), 1);
    assert_eq!(index(32 + 13).as_batch_slot_id(), 5);
}

#[test]
fn positions_wrap_at_the_width_of_the_counter() {
    let last = index(usize::MAX);
    assert_eq!(last.as_batch_id(), 3);
    assert_eq!(last.as_batch_slot_id(), 7);
    assert_eq!(last.as_absolute_batch_higher_bound(), 0);
    assert_eq!(last.wrapping_add(3), 2);
    assert_eq!(index(2).wrapping_sub(&last), 3);
    assert!(last.wrapping_sub(&index(2)) > HALF_RANGE);
}

#[test]
fn counters_change_only_from_the_value_expected() {
    let mut counter = PaddedAtomic::new(5, 4, 8);
    assert_eq!(counter.load().as_absolute_index(), 5);
    assert_eq!(counter.compare_exchange_weak(4, 9), Err(5));
    assert_eq!(counter.compare_exchange_weak(5, 9), Ok(5));
    assert_eq!(counter.load().as_absolute_index(), 9);
    assert_eq!(counter.load().as_batch_id(), 1);
    assert_eq!(counter.fetch_add(8), 9);
    assert_eq!(counter.load().as_absolute_index(), 17);
}
