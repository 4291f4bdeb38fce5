use toutates::executor::{ExecutorAction, ExecutorPhase};
use toutates::ring::RingBufferIndex;
use toutates::shapes::{ShapeOverrides, TensorInfo};
use toutates::supertensor::{
    split_batch, BatchUse, BatchWrite, SuperTensorBuffer, SuperTensorMetricsSnapshot,
    WriteReservation, BATCH_DEADLINE_NANOS,
};

fn buffer(capacity: usize, batch_size: usize) -> SuperTensorBuffer {
    SuperTensorBuffer::new(capacity, batch_size, &Vec::new()).unwrap()
}

fn write(batch_id: usize, batch_slot: usize, end: usize, data_start: usize, data_end: usize) -> BatchWrite {
    BatchWrite { batch_id, batch_slot, end, data_start, data_end }
}

fn info(name: &str, shape: &[i64]) -> TensorInfo {
    TensorInfo {
        name: String::from(name),
        data_type: 11,
        datatype: String::from("FP32"),
        shape: shape.to_vec(),
    }
}

fn snapshot(b: &SuperTensorBuffer) -> (usize, usize, usize, usize) {
    let SuperTensorMetricsSnapshot { tail_index, in_use_index, head_index, executors_in_use } =
        b.metrics_snapshot();
    (tail_index, in_use_index, head_index, executors_in_use)
}

fn claim(b: &mut SuperTensorBuffer) -> ExecutorPhase {
    let (phase, action) = b.execute_on_batch(ExecutorPhase::Claim, 0);
    assert!(matches!(action, ExecutorAction::WaitForWriter { .. }));
    phase
}

/// From a claimed batch with clients to a cleared one.
fn run(b: &mut SuperTensorBuffer, phase: ExecutorPhase) -> (usize, usize) {
    let mut phase = phase;
    loop {
        let (next, action) = b.execute_on_batch(phase, 50);
        phase = next;
        if let ExecutorAction::Finish { batch_items, moved } = action {
            assert_eq!(phase, ExecutorPhase::Done(batch_items));
            return (batch_items, moved);
        }
    }
}

#[test]
fn memory_keeps_the_batch_and_takes_the_other_dimensions() {
    let mut overrides = ShapeOverrides::new();
    overrides.insert(String::from("x"), vec![9, 8, 7, 6]);
    let inputs = vec![info("x", &[-1, -1, 3]), info("y", &[-1, 5])];
    let b = SuperTensorBuffer::new_with_overrides(4, 8, &inputs, &overrides).unwrap();
    assert_eq!(b.input_shapes, vec![vec![-1, 8, 7], vec![-1, 5]]);
    assert_eq!(b.trackers.len(), 4);
    assert_eq!(snapshot(&b), (0, 0, 0, 0));
    let plain = SuperTensorBuffer::new(4, 8, &inputs).unwrap();
    assert_eq!(plain.input_shapes, vec![vec![-1, -1, 3], vec![-1, 5]]);
}

#[test]
fn requests_are_cut_at_batch_boundaries() {
    let at = |index: usize| RingBufferIndex { index, ring_mask: 15, batch_mask: 3, batch_size: 4 };
    assert_eq!(split_batch(at(0), 4), vec![write(0, 0, 4, 0, 4)]);
    assert_eq!(
        split_batch(at(6), 7),
        vec![write(1, 2, 4, 0, 2), write(2, 0, 4, 2, 6), write(3, 0, 1, 6, 7)]
    );
    // round the end of the ring, and of the counter
    assert_eq!(split_batch(at(15), 2), vec![write(3, 3, 4, 0, 1), write(0, 0, 1, 1, 2)]);
    assert_eq!(
        split_batch(at(usize::MAX), 2),
        vec![write(3, 3, 4, 0, 1), write(0, 0, 1, 1, 2)]
    );
    assert_eq!(split_batch(at(5), 0), vec![write(1, 1, 1, 0, 0)]);
}

#[test]
fn a_full_ring_takes_no_request() {
    let mut b = buffer(2, 4);
    assert_eq!(b.infer(3).unwrap(), vec![write(0, 0, 3, 0, 3)]);
    assert_eq!(b.infer(5).unwrap(), vec![write(0, 3, 4, 0, 1), write(1, 0, 4, 1, 5)]);
    assert!(b.infer(1).is_none());
    assert_eq!(snapshot(&b), (0, 0, 8, 0));
}

#[test]
fn the_executor_is_woken_at_the_first_and_the_last_slot() {
    let mut b = buffer(2, 4);
    b.infer(4).unwrap();
    let reservation = |start: usize, end: usize| WriteReservation { batch_id: 0, start, end };
    assert_eq!(b.insert_tensors_at(&write(0, 1, 3, 1, 3), 7), (reservation(1, 3), false));
    assert_eq!(b.trackers[0].dirty, BatchUse::Clean);
    assert_eq!(b.insert_tensors_at(&write(0, 0, 1, 0, 1), 9), (reservation(0, 1), true));
    assert_eq!(b.trackers[0].dirty, BatchUse::InUse);
    assert_eq!(b.trackers[0].state.deadline, Some(9 + BATCH_DEADLINE_NANOS));
    assert_eq!(b.trackers[0].state.execution_trace.queue_start, Some(9));
    assert_eq!(b.insert_tensors_at(&write(0, 3, 4, 3, 4), 11), (reservation(3, 4), true));
    assert_eq!(b.trackers[0].written_slots, 4);
    assert_eq!(BATCH_DEADLINE_NANOS, 2_000_000);
}

#[test]
fn a_batch_waits_for_clients_until_its_deadline() {
    let mut b = buffer(2, 4);
    let phase = claim(&mut b);
    let writes = b.infer(1).unwrap();
    b.insert_tensors_at(&writes[0], 100);
    let (phase, action) = b.execute_on_batch(phase, 101);
    assert_eq!(
        action,
        ExecutorAction::WaitForClients { batch_id: 0, deadline: 100 + BATCH_DEADLINE_NANOS }
    );
    let (phase, action) = b.execute_on_batch(phase, 2_000_200);
    assert_eq!(action, ExecutorAction::Proceed);
    // sealed: the next client starts a batch of its own
    assert_eq!(snapshot(&b), (0, 4, 4, 0));
    assert_eq!(b.infer(1).unwrap(), vec![write(1, 0, 1, 0, 1)]);
    let (phase, action) = b.execute_on_batch(phase, 2_000_300);
    assert_eq!(action, ExecutorAction::RunModel { batch_id: 0, batch_items: 1 });
    assert_eq!(b.trackers[0].state.execution_trace.exec_start, Some(2_000_300));
    assert_eq!(snapshot(&b), (0, 4, 5, 1));
    let (phase, action) = b.execute_on_batch(phase, 2_000_400);
    assert_eq!(action, ExecutorAction::Finish { batch_items: 1, moved: 1 });
    assert_eq!(phase, ExecutorPhase::Done(1));
    assert_eq!(snapshot(&b), (4, 4, 5, 0));
    assert_eq!(b.trackers[0].dirty, BatchUse::Clean);
}

#[test]
fn a_full_batch_does_not_wait() {
    let mut b = buffer(2, 4);
    let phase = claim(&mut b);
    let writes = b.infer(4).unwrap();
    b.insert_tensors_at(&writes[0], 100);
    let (_, action) = b.execute_on_batch(phase, 101);
    assert_eq!(action, ExecutorAction::Proceed);
}

#[test]
fn the_executor_waits_for_writes_under_way() {
    let mut b = buffer(2, 4);
    let phase = claim(&mut b);
    let first = b.infer(1).unwrap();
    let second = b.infer(2).unwrap();
    b.insert_tensors_at(&first[0], 0);
    let (phase, _) = b.execute_on_batch(phase, 1);
    let (phase, _) = b.execute_on_batch(phase, 2);
    assert!(matches!(phase, ExecutorPhase::Drain(_, 1)));
    let (phase, action) = b.execute_on_batch(phase, 3);
    assert_eq!(action, ExecutorAction::Spin);
    b.insert_tensors_at(&second[0], 4);
    let (_, action) = b.execute_on_batch(phase, 5);
    assert_eq!(action, ExecutorAction::RunModel { batch_id: 0, batch_items: 3 });
}

#[test]
fn executors_wait_while_every_batch_is_out() {
    let mut b = buffer(2, 2);
    claim(&mut b);
    claim(&mut b);
    let (phase, action) = b.execute_on_batch(ExecutorPhase::Claim, 0);
    assert_eq!(phase, ExecutorPhase::Claim);
    assert_eq!(action, ExecutorAction::WaitForRoom);
    let done = ExecutorPhase::Done(3);
    assert_eq!(b.execute_on_batch(done, 0), (done, ExecutorAction::Proceed));
}

#[test]
fn batches_are_given_back_oldest_first() {
    let mut b = buffer(4, 2);
    let phases: Vec<ExecutorPhase> = (0..3).map(|_| claim(&mut b)).collect();
    for _ in 0..3 {
        for w in b.infer(2).unwrap() {
            b.insert_tensors_at(&w, 0);
        }
    }
    assert!(b.infer(1).is_some());
    // the second and the third are done first: nothing moves
    assert_eq!(run(&mut b, phases[1]), (2, 0));
    assert_eq!(run(&mut b, phases[2]), (2, 0));
    assert_eq!(snapshot(&b).0, 0);
    // the oldest frees all three
    assert_eq!(run(&mut b, phases[0]), (2, 3));
    assert_eq!(snapshot(&b), (6, 6, 7, 0));
}

#[test]
fn the_ring_goes_round_many_times() {
    let mut b = buffer(2, 2);
    let mut served = 0;
    for round in 0..20u64 {
        let phase = claim(&mut b);
        for w in b.infer(2).unwrap() {
            assert_eq!(w.batch_id, (round % 2) as usize);
            b.insert_tensors_at(&w, round);
        }
        served += run(&mut b, phase).0;
    }
    assert_eq!(served, 40);
    let (tail, in_use, head, executors) = snapshot(&b);
    assert_eq!((in_use, head, executors), (40, 40, 0));
    assert!(head - tail <= 4);
}

#[test]
fn a_warm_up_takes_a_whole_batch() {
    let mut b = buffer(4, 2);
    let index = b.begin_warmup();
    assert_eq!(index.as_batch_id(), 0);
    assert_eq!(snapshot(&b), (0, 2, 2, 1));
    assert_eq!(b.trackers[0].dirty, BatchUse::InUse);
    assert_eq!(b.finish_warmup(&index), 0);
    assert_eq!(snapshot(&b), (0, 2, 2, 0));
    let index = b.begin_warmup();
    assert_eq!(b.finish_warmup(&index), 1);
    assert_eq!(snapshot(&b), (2, 4, 4, 0));
}
