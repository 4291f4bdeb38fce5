//! Why the ring works: what clients and executors can rely on, step by step.
//!
//! The counters of a ring wrap and its batches are reused, so the state alone
//! does not say which lap a batch is on. [`RingModel`] does: it numbers batches
//! without end and says of each one in use how far it has come. [`inv`] ties a
//! state to its model. The proof functions below show that every step keeps
//! the two together, for every request that fits into the free slots, and that
//! each step finds what it relies on.
use crate::executor;
use crate::executor::{ExecutorAction, ExecutorPhase};
use crate::ring;
use crate::ring::RingBufferIndex;
use crate::supertensor;
use crate::supertensor::{BatchState, BatchUse, BatchWrite, DataTracker, RingView, SuperTensorBuffer, WriteReservation};
use vstd::arithmetic::div_mod::*;
use vstd::arithmetic::mul::*;
use vstd::arithmetic::power2::*;
use vstd::prelude::*;

verus! {

/// How far one lap of a batch has come.
pub enum Stage {
    /// Clients may still be given slots of it.
    Open,
    /// It takes no more clients; writes may be under way.
    Sealed,
    /// Its session is running.
    Running,
    /// It is cleared and waits to be given back.
    Finished,
}

/// A ring with counters that do not wrap and batches that are not reused.
pub struct RingModel {
    /// Slots handed to clients so far, those left empty in sealed batches included.
    pub head: int,
    /// Batches handed to executors so far.
    pub claimed: int,
    /// Batches given back so far.
    pub released: int,
    pub stage: spec_fn(int) -> Stage,
    /// Slots of a batch that are handed out and not written yet.
    pub pending: spec_fn(int) -> int,
    /// Slots of a batch that stay empty.
    pub gap: spec_fn(int) -> int,
    /// Whether the first slot of a batch has been written.
    pub opened: spec_fn(int) -> bool,
}

/// Slots of batch `k` that lie below the head.
pub open spec fn reserved(head: int, k: int, batch_size: int) -> int {
    let n = head - k * batch_size;
    if n < 0 {
        0
    } else if n > batch_size {
        batch_size
    } else {
        n
    }
}

impl RingModel {
    /// Batch `k` is on the ring.
    pub open spec fn on_ring(self, capacity: int, k: int) -> bool {
        self.released <= k < self.released + capacity
    }
}

/// What holds of batch `k` while it is on the ring.
pub open spec fn batch_inv(v: RingView, m: RingModel, k: int) -> bool {
    let tracker = v.trackers[k % v.capacity];
    let pending = (m.pending)(k);
    let gap = (m.gap)(k);
    let trace = tracker.state.execution_trace;
    &&& pending >= 0
    &&& gap >= 0
    &&& (m.opened)(k) ==> m.head > k * v.batch_size
    &&& match (m.stage)(k) {
        Stage::Open => {
            &&& gap == 0
            &&& tracker.written_slots + pending == reserved(m.head, k, v.batch_size)
            &&& tracker.dirty != BatchUse::Finished
            &&& tracker.state.deadline is Some ==> (m.opened)(k)
            &&& trace.queue_start is Some ==> (m.opened)(k)
            &&& trace.exec_start is None
            &&& trace.exec_end is None
            &&& !tracker.state.answered
        },
        Stage::Sealed => {
            &&& k < m.claimed
            &&& m.head >= (k + 1) * v.batch_size
            &&& tracker.written_slots + pending + gap == v.batch_size
            &&& tracker.dirty != BatchUse::Finished
            &&& tracker.state.deadline is Some ==> (m.opened)(k)
            &&& trace.queue_start is Some ==> (m.opened)(k)
            &&& trace.exec_start is None
            &&& trace.exec_end is None
            &&& !tracker.state.answered
        },
        Stage::Running => {
            &&& k < m.claimed
            &&& m.head >= (k + 1) * v.batch_size
            &&& pending == 0
            &&& tracker.written_slots + gap == v.batch_size
            &&& tracker.dirty != BatchUse::Finished
            &&& trace.exec_end is None
            &&& !tracker.state.answered
        },
        Stage::Finished => {
            &&& k < m.claimed
            &&& m.head >= (k + 1) * v.batch_size
            &&& pending == 0
            &&& tracker == (DataTracker {
                dirty: BatchUse::Finished,
                written_slots: 0,
                state: BatchState::fresh(),
            })
        },
    }
}

/// The state `v` of a ring is the one that the model `m` tells of.
pub open spec fn inv(v: RingView, m: RingModel) -> bool {
    &&& is_pow2(v.capacity)
    &&& is_pow2(v.batch_size)
    &&& v.ring_size() < ring::HALF_RANGE
    &&& v.trackers.len() == v.capacity
    &&& v.head == ring::wrap(m.head)
    &&& v.executor_head == ring::wrap(m.claimed * v.batch_size)
    &&& v.tail == ring::wrap(m.released * v.batch_size)
    &&& 0 <= m.released <= m.claimed <= m.released + v.capacity
    &&& m.released * v.batch_size <= m.head <= (m.released + v.capacity) * v.batch_size
    &&& forall|k: int| #[trigger] m.on_ring(v.capacity, k) ==> batch_inv(v, m, k)
}

/// The index that an executor holds for batch `k`.
pub open spec fn index_of(v: RingView, k: int) -> usize {
    ring::wrap(k * v.batch_size)
}

/// A batch number leads to its place on the ring.
proof fn lemma_batch_place(v: RingView, k: int)
    requires
        k >= 0,
        is_pow2(v.capacity),
        is_pow2(v.batch_size),
        v.ring_size() <= usize::MAX,
    ensures
        v.capacity > 0,
        v.batch_size > 0,
        v.ring_size() >= v.batch_size,
        v.batch_id(index_of(v, k)) == k % v.capacity,
        0 <= k % v.capacity < v.capacity,
        v.lower_bound(index_of(v, k)) == index_of(v, k),
        ring::wrap(index_of(v, k) + v.batch_size) == ring::wrap((k + 1) * v.batch_size),
{
    let bs = v.batch_size;
    let cap = v.capacity;
    ring::lemma_pow2_product(cap, bs);
    ring::lemma_wrap_keeps_place(k * bs, v.ring_size(), bs);
    lemma_mul_nonnegative(k, bs);
    lemma_mod_multiples_basic(k, bs);
    lemma_mod_breakdown(k * bs, bs, cap);
    lemma_div_by_multiple(k, bs);
    lemma_mul_is_commutative(cap, bs);
    assert((k * bs) % (bs * cap) == bs * (k % cap));
    lemma_mul_is_commutative(bs, k % cap);
    lemma_div_by_multiple(k % cap, bs);
    lemma_mod_bound(k, cap);
    ring::lemma_wrap_add(k * bs, bs as usize);
    ring::lemma_wrapping_ops(index_of(v, k), bs as usize);
    assert((k + 1) * bs == k * bs + bs) by (nonlinear_arith);
}

/// Batches on the ring together have places of their own.
proof fn lemma_batches_apart(capacity: int, j: int, k: int)
    requires
        capacity > 0,
        -capacity < j - k < capacity,
        j != k,
    ensures
        j % capacity != k % capacity,
{
    if j % capacity == k % capacity {
        if j > k {
            lemma_mod_equivalence(j, k, capacity);
            lemma_small_mod((j - k) as nat, capacity as nat);
        } else {
            lemma_mod_equivalence(k, j, capacity);
            lemma_small_mod((k - j) as nat, capacity as nat);
        }
    }
}

/// Later batches start no earlier than earlier ones end.
proof fn lemma_batch_order(j: int, k: int, batch_size: int)
    requires
        j < k,
        batch_size > 0,
    ensures
        (j + 1) * batch_size <= k * batch_size,
        (j + 1) * batch_size == j * batch_size + batch_size,
        (k + 1) * batch_size == k * batch_size + batch_size,
{
    lemma_mul_inequality(j + 1, k, batch_size);
    assert((j + 1) * batch_size == j * batch_size + batch_size) by (nonlinear_arith);
    assert((k + 1) * batch_size == k * batch_size + batch_size) by (nonlinear_arith);
}

/// The distance between head and tail, and what it means for a batch.
proof fn lemma_bounds(v: RingView, m: RingModel)
    requires
        inv(v, m),
    ensures
        v.capacity > 0,
        v.batch_size > 0,
        v.ring_size() >= v.batch_size,
        0 <= m.head - m.released * v.batch_size <= v.ring_size(),
        (m.released + v.capacity) * v.batch_size == m.released * v.batch_size + v.ring_size(),
        0 <= m.claimed * v.batch_size - m.released * v.batch_size <= v.ring_size(),
{
    ring::lemma_pow2_product(v.capacity, v.batch_size);
    assert((m.released + v.capacity) * v.batch_size == m.released * v.batch_size + v.capacity * v.batch_size)
        by (nonlinear_arith);
    lemma_mul_inequality(m.released, m.claimed, v.batch_size);
    lemma_mul_inequality(m.claimed, m.released + v.capacity, v.batch_size);
}

/// The model of a ring on which nothing has happened.
pub open spec fn new_model() -> RingModel {
    RingModel {
        head: 0,
        claimed: 0,
        released: 0,
        stage: |k: int| Stage::Open,
        pending: |k: int| 0int,
        gap: |k: int| 0int,
        opened: |k: int| false,
    }
}

/// A new ring starts out well.
pub proof fn new_ring_is_modelled(v: RingView)
    requires
        is_pow2(v.capacity),
        is_pow2(v.batch_size),
        v.ring_size() < ring::HALF_RANGE,
        v.head == 0,
        v.executor_head == 0,
        v.tail == 0,
        v.trackers == Seq::new(v.capacity as nat, |i: int| DataTracker::unused()),
    ensures
        inv(v, new_model()),
{
    let m = new_model();
    ring::lemma_pow2_product(v.capacity, v.batch_size);
    ring::lemma_wrap_small(0);
    assert forall|k: int| #[trigger] m.on_ring(v.capacity, k) implies batch_inv(v, m, k) by {
        lemma_small_mod(k as nat, v.capacity as nat);
        lemma_mul_nonnegative(k, v.batch_size);
    }
}

/// A client is turned away exactly while no slot between tail and head is free.
pub proof fn ring_is_full_when_no_slot_is_free(v: RingView, m: RingModel)
    requires
        inv(v, m),
    ensures
        v.blocked(v.head) <==> m.head == (m.released + v.capacity) * v.batch_size,
{
    lemma_bounds(v, m);
    ring::lemma_wrap_sub(m.head, m.released * v.batch_size);
    ring::lemma_wrapping_ops(v.head, v.tail);
}

/// An executor is turned away exactly while every batch of the ring is handed
/// out.
pub proof fn claim_is_blocked_when_every_batch_is_out(v: RingView, m: RingModel)
    requires
        inv(v, m),
    ensures
        v.blocked(v.executor_head) <==> m.claimed == m.released + v.capacity,
{
    lemma_bounds(v, m);
    let bs = v.batch_size;
    ring::lemma_wrap_sub(m.claimed * bs, m.released * bs);
    ring::lemma_wrapping_ops(v.executor_head, v.tail);
    if m.claimed < m.released + v.capacity {
        lemma_batch_order(m.claimed, m.released + v.capacity, bs);
    }
}

impl RingModel {
    /// `n` more slots are handed to a client.
    pub open spec fn after_infer(self, n: int, batch_size: int) -> RingModel {
        RingModel {
            head: self.head + n,
            pending: |k: int|
                (self.pending)(k) + reserved(self.head + n, k, batch_size) - reserved(self.head, k, batch_size),
            ..self
        }
    }

    /// A client has written `n` of its slots of batch `k`, the first one of
    /// the batch among them or not.
    pub open spec fn after_insert(self, b: int, n: int, first: bool) -> RingModel {
        RingModel {
            pending: |k: int|
                if k == b {
                    (self.pending)(k) - n
                } else {
                    (self.pending)(k)
                },
            opened: |k: int| (self.opened)(k) || (k == b && first),
            ..self
        }
    }

    /// An executor has claimed the next batch.
    pub open spec fn after_claim(self) -> RingModel {
        RingModel { claimed: self.claimed + 1, ..self }
    }

    /// Batch `b` is at another stage.
    pub open spec fn at_stage(self, b: int, stage: Stage) -> RingModel {
        RingModel {
            stage: |k: int|
                if k == b {
                    stage
                } else {
                    (self.stage)(k)
                },
            ..self
        }
    }

    /// Batch `b` is closed to clients.
    pub open spec fn after_seal(self, b: int, batch_size: int) -> RingModel {
        let empty = batch_size - reserved(self.head, b, batch_size);
        RingModel {
            head: self.head + empty,
            gap: |k: int|
                if k == b {
                    empty
                } else {
                    (self.gap)(k)
                },
            ..self.at_stage(b, Stage::Sealed)
        }
    }

    /// The oldest batch is given back, and its place waits for the batch one
    /// lap later.
    pub open spec fn after_tail_step(self, capacity: int) -> RingModel {
        let next = self.released + capacity;
        RingModel {
            released: self.released + 1,
            pending: |k: int|
                if k == next {
                    0
                } else {
                    (self.pending)(k)
                },
            gap: |k: int|
                if k == next {
                    0
                } else {
                    (self.gap)(k)
                },
            opened: |k: int| k != next && (self.opened)(k),
            ..self.at_stage(next, Stage::Open)
        }
    }

    /// `steps` batches are given back.
    pub open spec fn after_tail_steps(self, capacity: int, steps: nat) -> RingModel
        decreases steps,
    {
        if steps == 0 {
            self
        } else {
            self.after_tail_steps(capacity, (steps - 1) as nat).after_tail_step(capacity)
        }
    }

    /// The batch at the head is set aside whole for a warm-up run.
    pub open spec fn after_warmup_start(self, batch_size: int) -> RingModel {
        let b = self.claimed;
        RingModel {
            head: self.head + batch_size,
            claimed: self.claimed + 1,
            gap: |k: int|
                if k == b {
                    batch_size
                } else {
                    (self.gap)(k)
                },
            ..self.at_stage(b, Stage::Sealed)
        }
    }
}

/// Handing out slots to a request that fits keeps the ring in order.
pub proof fn infer_keeps_the_ring(v: RingView, m: RingModel, n: int)
    requires
        inv(v, m),
        0 <= n <= usize::MAX,
        m.head + n <= (m.released + v.capacity) * v.batch_size,
    ensures
        inv(v.after_infer(n), m.after_infer(n, v.batch_size)),
{
    let v2 = v.after_infer(n);
    let m2 = m.after_infer(n, v.batch_size);
    lemma_bounds(v, m);
    ring::lemma_wrap_add(m.head, n as usize);
    ring::lemma_wrapping_ops(v.head, n as usize);
    assert forall|k: int| #[trigger] m2.on_ring(v2.capacity, k) implies batch_inv(v2, m2, k) by {
        assert(m.on_ring(v.capacity, k));
        assert((k + 1) * v.batch_size == k * v.batch_size + v.batch_size) by (nonlinear_arith);
    }
}

/// The stretches of a request that fits fall into successive batches on the
/// ring, each onto exactly the slots that the request took of its batch. Where
/// one takes the first slot, the batch has not been opened.
pub proof fn request_falls_into_successive_batches(v: RingView, m: RingModel, n: int, j: int)
    requires
        inv(v, m),
        0 < n <= usize::MAX,
        m.head + n <= (m.released + v.capacity) * v.batch_size,
        0 <= j < supertensor::batch_writes(v.head as int, n, v.ring_size(), v.batch_size).len(),
    ensures
        ({
            let write = supertensor::batch_writes(v.head as int, n, v.ring_size(), v.batch_size)[j];
            let b = m.head / v.batch_size + j;
            &&& m.on_ring(v.capacity, b)
            &&& write.batch_id == b % v.capacity
            &&& write.batch_slot == reserved(m.head, b, v.batch_size)
            &&& write.end == reserved(m.head + n, b, v.batch_size)
            &&& write.data_start < write.data_end
            &&& write.data_end - write.data_start == write.end - write.batch_slot
            &&& write.data_end - write.data_start <= (m.after_infer(n, v.batch_size).pending)(b)
            &&& write.batch_slot == 0 ==> !(m.opened)(b)
        }),
{
    let bs = v.batch_size;
    let pos = v.head as int;
    lemma_bounds(v, m);
    ring::lemma_pow2_product(v.capacity, bs);
    ring::lemma_sizes_divide(v.ring_size(), bs);
    supertensor::writes_cover_the_request(pos, n, v.ring_size(), bs);
    supertensor::lemma_stretch(pos, n, j, v.ring_size(), bs);
    let slot = ring::slot_of(pos, bs);
    ring::lemma_wrap_keeps_place(m.head, v.ring_size(), bs);
    lemma_fundamental_div_mod(m.head, bs);
    lemma_mod_bound(m.head, bs);
    lemma_mul_is_commutative(bs, m.head / bs);
    let b = m.head / bs + j;
    assert(b * bs == m.head - slot + j * bs) by (nonlinear_arith)
        requires
            b == m.head / bs + j,
            (m.head / bs) * bs == m.head - slot,
    ;
    assert((b + 1) * bs == b * bs + bs) by (nonlinear_arith);
    if j > 0 {
        lemma_mul_inequality(1, j, bs);
    }
    assert(0 * bs == 0);
    // the batch lies between tail and the last slot that is free
    if b < m.released {
        lemma_mul_inequality(b + 1, m.released, bs);
    }
    if b >= m.released + v.capacity {
        lemma_mul_inequality(m.released + v.capacity, b, bs);
    }
    assert(m.on_ring(v.capacity, b));
    assert(batch_inv(v, m, b));
    let write = supertensor::batch_writes(pos, n, v.ring_size(), bs)[j];
    let last = j == supertensor::write_count(pos, n, bs) - 1;
    // the start of the batch, as a counter and as a position
    let x = pos - slot + j * bs;
    supertensor::lemma_batch_start(pos, j, v.ring_size(), bs);
    lemma_batch_place(v, b);
    assert(ring::batch_of(x, v.ring_size(), bs) == ring::batch_of(b * bs, v.ring_size(), bs)) by {
        let w = ring::wrap_size();
        lemma_fundamental_div_mod(m.head, w);
        assert(x == b * bs + w * (-(m.head / w))) by (nonlinear_arith)
            requires
                x == pos - slot + j * bs,
                b * bs == m.head - slot + j * bs,
                m.head == w * (m.head / w) + m.head % w,
                pos == m.head % w,
        ;
        lemma_mul_is_commutative(w, -(m.head / w));
        lemma_mod_multiples_vanish(-(m.head / w), b * bs, w);
        ring::lemma_wrap_keeps_place(x, v.ring_size(), bs);
        ring::lemma_wrap_keeps_place(b * bs, v.ring_size(), bs);
    }
    ring::lemma_wrap_keeps_place(b * bs, v.ring_size(), bs);
}

/// Two positions between the tail and the last free slot never share a slot:
/// no client writes where another one does.
pub proof fn handed_out_slots_are_apart(v: RingView, m: RingModel, x: int, y: int)
    requires
        inv(v, m),
        m.released * v.batch_size <= x < y < (m.released + v.capacity) * v.batch_size,
    ensures
        ring::batch_of(x, v.ring_size(), v.batch_size) != ring::batch_of(y, v.ring_size(), v.batch_size)
            || ring::slot_of(x, v.batch_size) != ring::slot_of(y, v.batch_size),
{
    lemma_bounds(v, m);
    ring::lemma_pow2_product(v.capacity, v.batch_size);
    ring::lemma_places_distinct(x, y, v.ring_size(), v.batch_size);
}

/// What an in-flight write to batch `b` relies on, and that recording it keeps
/// the ring in order.
pub proof fn insert_keeps_the_ring(v: RingView, m: RingModel, b: int, write: BatchWrite, now: u64)
    requires
        inv(v, m),
        m.on_ring(v.capacity, b),
        write.batch_id == b % v.capacity,
        write.data_start < write.data_end,
        write.data_end - write.data_start <= (m.pending)(b),
        write.batch_slot == 0 ==> !(m.opened)(b) && now + supertensor::BATCH_DEADLINE_NANOS <= u64::MAX,
    ensures
        write.batch_slot == 0 ==> v.trackers[write.batch_id as int].state.deadline is None
            && v.trackers[write.batch_id as int].state.execution_trace.queue_start is None,
        inv(
            v.after_insert(write, now as int),
            m.after_insert(b, write.data_end - write.data_start, write.batch_slot == 0),
        ),
{
    let n = write.data_end - write.data_start;
    let v2 = v.after_insert(write, now as int);
    let m2 = m.after_insert(b, n, write.batch_slot == 0);
    lemma_bounds(v, m);
    lemma_mod_bound(b, v.capacity);
    assert(batch_inv(v, m, b));
    let before = v.trackers[b % v.capacity];
    assert(before.written_slots + n <= v.batch_size);
    ring::lemma_wrap_small((before.written_slots + n) as usize);
    assert(m.head > b * v.batch_size) by {
        assert((b + 1) * v.batch_size == b * v.batch_size + v.batch_size) by (nonlinear_arith);
    }
    assert forall|k: int| #[trigger] m2.on_ring(v2.capacity, k) implies batch_inv(v2, m2, k) by {
        assert(m.on_ring(v.capacity, k));
        lemma_mod_bound(k, v.capacity);
        if k != b {
            lemma_batches_apart(v.capacity, k, b);
            assert(v2.trackers[k % v.capacity] == v.trackers[k % v.capacity]);
        }
    }
}

/// Handing a batch to an executor keeps the ring in order; the executor holds
/// the index of a batch on the ring.
pub proof fn claim_keeps_the_ring(v: RingView, m: RingModel)
    requires
        inv(v, m),
        !v.blocked(v.executor_head),
    ensures
        v.executor_head == index_of(v, m.claimed),
        m.on_ring(v.capacity, m.claimed),
        inv(v.after_claim(), m.after_claim()),
{
    let v2 = v.after_claim();
    let m2 = m.after_claim();
    claim_is_blocked_when_every_batch_is_out(v, m);
    lemma_bounds(v, m);
    lemma_batch_place(v, m.claimed);
    assert forall|k: int| #[trigger] m2.on_ring(v2.capacity, k) implies batch_inv(v2, m2, k) by {
        assert(m.on_ring(v.capacity, k));
    }
}

/// The executor of a batch that the head has reached finds the slots that are
/// still to be handed out.
pub proof fn open_slots_are_what_is_left(v: RingView, m: RingModel, b: int)
    requires
        inv(v, m),
        m.on_ring(v.capacity, b),
        m.head >= b * v.batch_size,
    ensures
        ring::wrap(v.head - v.lower_bound(index_of(v, b))) < ring::HALF_RANGE,
        v.open_slots(index_of(v, b)) == v.batch_size - reserved(m.head, b, v.batch_size),
{
    lemma_bounds(v, m);
    lemma_batch_place(v, b);
    let bs = v.batch_size;
    let x = b * bs;
    assert((b + 1) * bs == b * bs + bs) by (nonlinear_arith);
    lemma_mul_inequality(m.released, b, bs);
    lemma_mul_inequality(b + 1, m.released + v.capacity, bs);
    ring::lemma_wrap_sub(m.head, x);
    ring::lemma_wrapping_ops(v.head, index_of(v, b));
    let up = ring::wrap(x + bs);
    ring::lemma_wrap_of_wrapped(index_of(v, b) + bs, v.head as int);
    ring::lemma_wrapping_ops(up, v.head);
    if x + bs >= m.head {
        ring::lemma_wrap_sub(x + bs, m.head);
    } else {
        ring::lemma_wrap_sub_behind(x + bs, m.head);
    }
}

/// Closing a claimed batch that the head has reached keeps the ring in order.
/// The slots left empty and those handed out make up the batch.
pub proof fn seal_keeps_the_ring(v: RingView, m: RingModel, b: int)
    requires
        inv(v, m),
        m.released <= b < m.claimed,
        (m.stage)(b) is Open,
        m.head >= b * v.batch_size,
    ensures
        ring::wrap(v.head - v.lower_bound(index_of(v, b))) < ring::HALF_RANGE,
        v.open_slots(index_of(v, b)) + reserved(m.head, b, v.batch_size) == v.batch_size,
        inv(v.after_seal(index_of(v, b)), m.after_seal(b, v.batch_size)),
{
    let bs = v.batch_size;
    let v2 = v.after_seal(index_of(v, b));
    let m2 = m.after_seal(b, bs);
    assert(m.on_ring(v.capacity, b));
    open_slots_are_what_is_left(v, m, b);
    lemma_bounds(v, m);
    let empty = bs - reserved(m.head, b, bs);
    assert((b + 1) * bs == b * bs + bs) by (nonlinear_arith);
    ring::lemma_wrap_add(m.head, empty as usize);
    ring::lemma_wrapping_ops(v.head, empty as usize);
    lemma_mul_inequality(b + 1, m.released + v.capacity, bs);
    assert forall|k: int| #[trigger] m2.on_ring(v2.capacity, k) implies batch_inv(v2, m2, k) by {
        assert(m.on_ring(v.capacity, k));
        if k < b {
            lemma_batch_order(k, b, bs);
        } else if k > b {
            lemma_batch_order(b, k, bs);
        }
    }
}

/// An executor that waits for the writes of its sealed batch never sees more
/// of them than slots were handed out, and sees all of them exactly when none
/// is under way.
pub proof fn drain_waits_for_every_write(v: RingView, m: RingModel, b: int)
    requires
        inv(v, m),
        m.on_ring(v.capacity, b),
        (m.stage)(b) is Sealed,
    ensures
        0 <= (m.gap)(b) <= v.batch_size,
        v.tracker(index_of(v, b)).written_slots <= v.batch_size - (m.gap)(b),
        v.tracker(index_of(v, b)).written_slots == v.batch_size - (m.gap)(b) <==> (m.pending)(b) == 0,
        v.tracker(index_of(v, b)).state.execution_trace.exec_start is None,
{
    lemma_bounds(v, m);
    lemma_batch_place(v, b);
}

/// Starting a batch whose writes are all there keeps the ring in order.
pub proof fn start_keeps_the_ring(v: RingView, m: RingModel, b: int, now: u64)
    requires
        inv(v, m),
        m.on_ring(v.capacity, b),
        (m.stage)(b) is Sealed,
        (m.pending)(b) == 0,
    ensures
        inv(v.after_start(index_of(v, b), now), m.at_stage(b, Stage::Running)),
{
    let v2 = v.after_start(index_of(v, b), now);
    let m2 = m.at_stage(b, Stage::Running);
    lemma_bounds(v, m);
    lemma_batch_place(v, b);
    assert forall|k: int| #[trigger] m2.on_ring(v2.capacity, k) implies batch_inv(v2, m2, k) by {
        assert(m.on_ring(v.capacity, k));
        lemma_mod_bound(k, v.capacity);
        if k != b {
            lemma_batches_apart(v.capacity, k, b);
        }
    }
}

/// A running batch has not been answered yet.
pub proof fn running_batch_is_unanswered(v: RingView, m: RingModel, b: int)
    requires
        inv(v, m),
        m.on_ring(v.capacity, b),
        (m.stage)(b) is Running,
    ensures
        v.tracker(index_of(v, b)).state.execution_trace.exec_end is None,
        !v.tracker(index_of(v, b)).state.answered,
{
    lemma_bounds(v, m);
    lemma_batch_place(v, b);
}

/// Clearing a batch that no client writes to any more keeps the ring in order.
pub proof fn reset_keeps_the_ring(v: RingView, m: RingModel, b: int)
    requires
        inv(v, m),
        m.on_ring(v.capacity, b),
        (m.stage)(b) is Sealed || (m.stage)(b) is Running,
        (m.pending)(b) == 0,
    ensures
        inv(v.after_reset(index_of(v, b)), m.at_stage(b, Stage::Finished)),
{
    let v2 = v.after_reset(index_of(v, b));
    let m2 = m.at_stage(b, Stage::Finished);
    lemma_bounds(v, m);
    lemma_batch_place(v, b);
    assert forall|k: int| #[trigger] m2.on_ring(v2.capacity, k) implies batch_inv(v2, m2, k) by {
        assert(m.on_ring(v.capacity, k));
        lemma_mod_bound(k, v.capacity);
        if k != b {
            lemma_batches_apart(v.capacity, k, b);
        }
    }
}

/// Answering a running batch and clearing it keeps the ring in order.
pub proof fn finish_keeps_the_ring(v: RingView, m: RingModel, b: int, now: u64)
    requires
        inv(v, m),
        m.on_ring(v.capacity, b),
        (m.stage)(b) is Running,
    ensures
        inv(v.after_answer(index_of(v, b), now).after_reset(index_of(v, b)), m.at_stage(b, Stage::Finished)),
{
    lemma_bounds(v, m);
    lemma_batch_place(v, b);
    assert(batch_inv(v, m, b));
    reset_keeps_the_ring(v, m, b);
    assert(v.after_answer(index_of(v, b), now).after_reset(index_of(v, b)) =~= v.after_reset(index_of(v, b)));
}

/// The tail moves only over a batch that was claimed and cleared, and stays
/// behind the head; moving it keeps the ring in order.
pub proof fn tail_step_keeps_the_ring(v: RingView, m: RingModel)
    requires
        inv(v, m),
        v.tail_can_move(),
    ensures
        (m.stage)(m.released) is Finished,
        m.released < m.claimed,
        (m.released + 1) * v.batch_size < m.head,
        inv(v.after_tail_step(), m.after_tail_step(v.capacity)),
{
    let bs = v.batch_size;
    let t = m.released;
    let v2 = v.after_tail_step();
    let m2 = m.after_tail_step(v.capacity);
    lemma_bounds(v, m);
    lemma_batch_place(v, t);
    assert(m.on_ring(v.capacity, t));
    assert((t + 1) * bs == t * bs + bs) by (nonlinear_arith);
    let up = ring::wrap(t * bs + bs);
    ring::lemma_wrap_of_wrapped(v.tail + bs, v.head as int);
    ring::lemma_wrapping_ops(up, v.head);
    if t * bs + bs >= m.head {
        ring::lemma_wrap_sub(t * bs + bs, m.head);
        assert(false);
    }
    assert((m2.released + v.capacity) * bs == (m.released + v.capacity) * bs + bs) by (nonlinear_arith)
        requires
            m2.released == m.released + 1,
    ;
    assert forall|k: int| #[trigger] m2.on_ring(v2.capacity, k) implies batch_inv(v2, m2, k) by {
        lemma_mod_bound(k, v.capacity);
        if k == t + v.capacity {
            lemma_mod_add_multiples_vanish(t, v.capacity);
            assert(k % v.capacity == t % v.capacity);
        } else {
            assert(m.on_ring(v.capacity, k));
            lemma_batches_apart(v.capacity, k, t);
        }
    }
}

/// Moving the tail any number of steps keeps the ring in order.
pub proof fn tail_steps_keep_the_ring(v: RingView, m: RingModel, steps: nat)
    requires
        inv(v, m),
        forall|j: nat| j < steps ==> (#[trigger] v.after_tail_steps(j)).tail_can_move(),
    ensures
        inv(v.after_tail_steps(steps), m.after_tail_steps(v.capacity, steps)),
    decreases steps,
{
    if steps > 0 {
        let before = (steps - 1) as nat;
        tail_steps_keep_the_ring(v, m, before);
        assert(v.after_tail_steps(before).tail_can_move());
        lemma_tail_steps_keep_sizes(v, before);
        tail_step_keeps_the_ring(v.after_tail_steps(before), m.after_tail_steps(v.capacity, before));
    }
}

proof fn lemma_tail_steps_keep_sizes(v: RingView, steps: nat)
    ensures
        v.after_tail_steps(steps).capacity == v.capacity,
        v.after_tail_steps(steps).batch_size == v.batch_size,
    decreases steps,
{
    if steps > 0 {
        lemma_tail_steps_keep_sizes(v, (steps - 1) as nat);
    }
}

/// The number of executors at work says nothing about the slots.
pub proof fn release_keeps_the_ring(v: RingView, m: RingModel)
    requires
        inv(v, m),
    ensures
        inv(v.after_release(), m),
{
    let v2 = v.after_release();
    assert forall|k: int| #[trigger] m.on_ring(v2.capacity, k) implies batch_inv(v2, m, k) by {
        assert(batch_inv(v, m, k));
    }
}

/// Setting the batch at the head aside for a warm-up run keeps the ring in
/// order, where no client is ahead of the executors and a batch is free. The
/// batch can be cleared at once.
pub proof fn warmup_keeps_the_ring(v: RingView, m: RingModel)
    requires
        inv(v, m),
        m.head == m.claimed * v.batch_size,
        m.claimed < m.released + v.capacity,
    ensures
        v.head == index_of(v, m.claimed),
        m.after_warmup_start(v.batch_size).on_ring(v.capacity, m.claimed),
        (m.after_warmup_start(v.batch_size).stage)(m.claimed) is Sealed,
        (m.after_warmup_start(v.batch_size).pending)(m.claimed) == 0,
        inv(v.after_warmup_start(), m.after_warmup_start(v.batch_size)),
{
    let bs = v.batch_size;
    let b = m.claimed;
    let v2 = v.after_warmup_start();
    let m2 = m.after_warmup_start(bs);
    lemma_bounds(v, m);
    lemma_batch_place(v, b);
    assert(m.on_ring(v.capacity, b));
    assert(batch_inv(v, m, b));
    lemma_batch_order(b, b + 1, bs);
    lemma_mul_inequality(b + 1, m.released + v.capacity, bs);
    assert forall|k: int| #[trigger] m2.on_ring(v2.capacity, k) implies batch_inv(v2, m2, k) by {
        assert(m.on_ring(v.capacity, k));
        lemma_mod_bound(k, v.capacity);
        if k < b {
            lemma_batch_order(k, b, bs);
            lemma_batches_apart(v.capacity, k, b);
        } else if k > b {
            lemma_batch_order(b, k, bs);
            lemma_batches_apart(v.capacity, k, b);
        }
    }
}

/// What the phase of the executor that holds batch `b` says about the batch.
/// An executor is woken only after a client has taken a slot.
pub open spec fn phase_fits(buffer: SuperTensorBuffer, m: RingModel, b: int, phase: ExecutorPhase) -> bool {
    let holds = |index: RingBufferIndex|
        {
            &&& buffer.on_ring(index)
            &&& index.index == index_of(buffer@, b)
            &&& m.released <= b < m.claimed
        };
    match phase {
        ExecutorPhase::Claim => true,
        ExecutorPhase::Linger(index) => holds(index) && (m.stage)(b) is Open,
        ExecutorPhase::Seal(index) => holds(index) && (m.stage)(b) is Open && m.head > b * buffer.batch_size,
        ExecutorPhase::Drain(index, remaining) => holds(index) && (m.stage)(b) is Sealed && remaining == (m.gap)(b),
        ExecutorPhase::Run(index, batch_items) => holds(index) && (m.stage)(b) is Running,
        ExecutorPhase::Done(batch_items) => true,
    }
}

/// On a ring in order, an executor can always take its next step.
pub proof fn executor_can_take_its_next_step(buffer: SuperTensorBuffer, m: RingModel, b: int, phase: ExecutorPhase)
    requires
        buffer.wf(),
        inv(buffer@, m),
        phase_fits(buffer, m, b, phase),
    ensures
        buffer.executor_ready(phase),
{
    let v = buffer@;
    match phase {
        ExecutorPhase::Seal(index) => {
            assert(m.on_ring(v.capacity, b));
            open_slots_are_what_is_left(v, m, b);
        },
        ExecutorPhase::Drain(index, remaining) => {
            assert(m.on_ring(v.capacity, b));
            drain_waits_for_every_write(v, m, b);
        },
        ExecutorPhase::Run(index, batch_items) => {
            assert(m.on_ring(v.capacity, b));
            running_batch_is_unanswered(v, m, b);
        },
        _ => {},
    }
}

/// An executor holds a batch in the phase.
pub open spec fn holds_batch(phase: ExecutorPhase) -> bool {
    !(phase is Claim) && !(phase is Done)
}

/// What a step of others may not touch of batch `b`.
pub open spec fn leaves_batch(m: RingModel, m2: RingModel, b: int) -> bool {
    &&& m2.released <= b
    &&& m.claimed <= m2.claimed
    &&& m.head <= m2.head
    &&& (m2.stage)(b) == (m.stage)(b)
    &&& (m2.gap)(b) == (m.gap)(b)
}

proof fn lemma_phase_stays(
    buffer: SuperTensorBuffer,
    after: SuperTensorBuffer,
    m: RingModel,
    m2: RingModel,
    b: int,
    phase: ExecutorPhase,
)
    requires
        phase_fits(buffer, m, b, phase),
        after.same_ring(buffer),
        holds_batch(phase) ==> leaves_batch(m, m2, b),
    ensures
        phase_fits(after, m2, b, phase),
{
}

/// Moving the tail stops before a batch that is not cleared.
proof fn lemma_tail_steps_stop(v: RingView, m: RingModel, steps: nat, b: int)
    requires
        inv(v, m),
        forall|j: nat| j < steps ==> (#[trigger] v.after_tail_steps(j)).tail_can_move(),
        m.released <= b < m.claimed,
        !((m.stage)(b) is Finished),
    ensures
        leaves_batch(m, m.after_tail_steps(v.capacity, steps), b),
        m.after_tail_steps(v.capacity, steps).claimed == m.claimed,
        m.after_tail_steps(v.capacity, steps).head == m.head,
    decreases steps,
{
    if steps > 0 {
        let before = (steps - 1) as nat;
        lemma_tail_steps_stop(v, m, before, b);
        tail_steps_keep_the_ring(v, m, before);
        lemma_tail_steps_keep_sizes(v, before);
        tail_step_keeps_the_ring(v.after_tail_steps(before), m.after_tail_steps(v.capacity, before));
    }
}

/// The batch that an executor holds after its step.
pub open spec fn batch_after_step(m: RingModel, b: int, phase: ExecutorPhase) -> int {
    if phase is Claim {
        m.claimed
    } else {
        b
    }
}

/// The model after a step of the executor that holds batch `b`.
pub open spec fn model_after_step(
    v: RingView,
    m: RingModel,
    b: int,
    phase: ExecutorPhase,
    action: ExecutorAction,
) -> RingModel {
    match phase {
        ExecutorPhase::Claim => if v.blocked(v.executor_head) {
            m
        } else {
            m.after_claim()
        },
        ExecutorPhase::Seal(_) => m.after_seal(b, v.batch_size),
        ExecutorPhase::Drain(_, _) => if action is RunModel {
            m.at_stage(b, Stage::Running)
        } else {
            m
        },
        ExecutorPhase::Run(_, _) => match action {
            ExecutorAction::Finish { batch_items, moved } => m.at_stage(b, Stage::Finished).after_tail_steps(
                v.capacity,
                moved as nat,
            ),
            _ => m,
        },
        _ => m,
    }
}

/// A step of an executor keeps the ring in order, and leads to a phase that fits
/// what it then holds. It is woken from `Linger` by the writer of the first slot.
pub proof fn executor_step_leads_on(
    buffer: SuperTensorBuffer,
    after: SuperTensorBuffer,
    m: RingModel,
    b: int,
    phase: ExecutorPhase,
    now: u64,
    r: (ExecutorPhase, ExecutorAction),
)
    requires
        buffer.wf(),
        inv(buffer@, m),
        phase_fits(buffer, m, b, phase),
        phase is Linger ==> (m.opened)(b),
        after.same_ring(buffer),
        buffer.steps_to(after, phase, now, r),
    ensures
        inv(after@, model_after_step(buffer@, m, b, phase, r.1)),
        phase_fits(after, model_after_step(buffer@, m, b, phase, r.1), batch_after_step(m, b, phase), r.0),
{
    let v = buffer@;
    match phase {
        ExecutorPhase::Claim => {
            if !v.blocked(v.executor_head) {
                claim_keeps_the_ring(v, m);
                assert(m.on_ring(v.capacity, m.claimed));
                assert(batch_inv(v, m, m.claimed));
            }
        },
        ExecutorPhase::Linger(index) => {
            assert(m.on_ring(v.capacity, b));
            assert(batch_inv(v, m, b));
        },
        ExecutorPhase::Seal(index) => {
            seal_keeps_the_ring(v, m, b);
        },
        ExecutorPhase::Drain(index, remaining) => {
            assert(m.on_ring(v.capacity, b));
            drain_waits_for_every_write(v, m, b);
            if r.1 is RunModel {
                start_keeps_the_ring(v, m, b, now);
            }
        },
        ExecutorPhase::Run(index, batch_items) => {
            assert(m.on_ring(v.capacity, b));
            finish_keeps_the_ring(v, m, b, now);
            let cleared = v.after_answer(index.index, now).after_reset(index.index);
            let m2 = m.at_stage(b, Stage::Finished);
            let moved = r.1->Finish_moved as nat;
            tail_steps_keep_the_ring(cleared, m2, moved);
            lemma_tail_steps_keep_sizes(cleared, moved);
            release_keeps_the_ring(cleared.after_tail_steps(moved), m2.after_tail_steps(v.capacity, moved));
        },
        _ => {},
    }
}

/// The step of one executor leaves the phase of another as it fits.
pub proof fn phases_survive_other_executors(
    buffer: SuperTensorBuffer,
    after: SuperTensorBuffer,
    m: RingModel,
    b: int,
    phase: ExecutorPhase,
    c: int,
    other: ExecutorPhase,
    now: u64,
    r: (ExecutorPhase, ExecutorAction),
)
    requires
        buffer.wf(),
        inv(buffer@, m),
        phase_fits(buffer, m, b, phase),
        phase_fits(buffer, m, c, other),
        holds_batch(phase) && holds_batch(other) ==> b != c,
        after.same_ring(buffer),
        buffer.steps_to(after, other, now, r),
    ensures
        phase_fits(after, model_after_step(buffer@, m, c, other, r.1), b, phase),
        holds_batch(phase) && holds_batch(r.0) ==> b != batch_after_step(m, c, other),
{
    let v = buffer@;
    let m2 = model_after_step(v, m, c, other, r.1);
    lemma_bounds(v, m);
    if holds_batch(phase) {
        if let ExecutorPhase::Run(index, batch_items) = other {
            assert(m.on_ring(v.capacity, c));
            finish_keeps_the_ring(v, m, c, now);
            let cleared = v.after_answer(index.index, now).after_reset(index.index);
            lemma_tail_steps_stop(
                cleared,
                m.at_stage(c, Stage::Finished),
                r.1->Finish_moved as nat,
                b,
            );
        }
        assert(leaves_batch(m, m2, b));
    }
    lemma_phase_stays(buffer, after, m, m2, b, phase);
}

/// Handing out slots leaves the phase of an executor as it fits.
pub proof fn phases_survive_requests(
    buffer: SuperTensorBuffer,
    after: SuperTensorBuffer,
    m: RingModel,
    b: int,
    phase: ExecutorPhase,
    n: int,
)
    requires
        phase_fits(buffer, m, b, phase),
        after.same_ring(buffer),
        n >= 0,
    ensures
        phase_fits(after, m.after_infer(n, buffer@.batch_size), b, phase),
{
    lemma_phase_stays(buffer, after, m, m.after_infer(n, buffer@.batch_size), b, phase);
}

/// A write leaves the phase of an executor as it fits.
pub proof fn phases_survive_writes(
    buffer: SuperTensorBuffer,
    after: SuperTensorBuffer,
    m: RingModel,
    b: int,
    phase: ExecutorPhase,
    c: int,
    n: int,
    first: bool,
)
    requires
        phase_fits(buffer, m, b, phase),
        after.same_ring(buffer),
    ensures
        phase_fits(after, m.after_insert(c, n, first), b, phase),
{
    lemma_phase_stays(buffer, after, m, m.after_insert(c, n, first), b, phase);
}

/// The start of a warm-up run leaves the phase of an executor as it fits.
pub proof fn phases_survive_warmups(
    buffer: SuperTensorBuffer,
    after: SuperTensorBuffer,
    m: RingModel,
    b: int,
    phase: ExecutorPhase,
)
    requires
        buffer@.batch_size >= 0,
        phase_fits(buffer, m, b, phase),
        after.same_ring(buffer),
    ensures
        phase_fits(after, m.after_warmup_start(buffer@.batch_size), b, phase),
        holds_batch(phase) ==> b != m.claimed,
{
    lemma_phase_stays(buffer, after, m, m.after_warmup_start(buffer@.batch_size), b, phase);
}

/// The end of a warm-up run on batch `c` keeps the ring in order, and leaves the
/// phase of an executor as it fits.
pub proof fn phases_survive_ends_of_warmups(
    buffer: SuperTensorBuffer,
    after: SuperTensorBuffer,
    m: RingModel,
    b: int,
    phase: ExecutorPhase,
    c: int,
    moved: nat,
)
    requires
        inv(buffer@, m),
        phase_fits(buffer, m, b, phase),
        holds_batch(phase) ==> b != c,
        m.on_ring(buffer@.capacity, c),
        (m.stage)(c) is Sealed,
        (m.pending)(c) == 0,
        executor::is_tail_distance(buffer@.after_reset(index_of(buffer@, c)), moved),
        after.same_ring(buffer),
        after@ == buffer@.after_reset(index_of(buffer@, c)).after_tail_steps(moved).after_release(),
    ensures
        inv(after@, m.at_stage(c, Stage::Finished).after_tail_steps(buffer@.capacity, moved)),
        phase_fits(after, m.at_stage(c, Stage::Finished).after_tail_steps(buffer@.capacity, moved), b, phase),
{
    let v = buffer@;
    let cleared = v.after_reset(index_of(v, c));
    let m2 = m.at_stage(c, Stage::Finished);
    reset_keeps_the_ring(v, m, c);
    tail_steps_keep_the_ring(cleared, m2, moved);
    lemma_tail_steps_keep_sizes(cleared, moved);
    release_keeps_the_ring(cleared.after_tail_steps(moved), m2.after_tail_steps(v.capacity, moved));
    if holds_batch(phase) {
        lemma_tail_steps_stop(cleared, m2, moved, b);
    }
    lemma_phase_stays(buffer, after, m, m2.after_tail_steps(v.capacity, moved), b, phase);
}

/// The oldest batch can be given back exactly when it is cleared and the head is
/// past its end, whatever the other executors do.
pub proof fn cleared_batches_can_be_given_back(v: RingView, m: RingModel)
    requires
        inv(v, m),
    ensures
        v.tail_can_move() <==> (m.stage)(m.released) is Finished && m.head > (m.released + 1) * v.batch_size,
{
    let bs = v.batch_size;
    let t = m.released;
    lemma_bounds(v, m);
    lemma_batch_place(v, t);
    assert(m.on_ring(v.capacity, t));
    assert(batch_inv(v, m, t));
    assert((t + 1) * bs == t * bs + bs) by (nonlinear_arith);
    let up = ring::wrap(t * bs + bs);
    ring::lemma_wrap_of_wrapped(v.tail + bs, v.head as int);
    ring::lemma_wrapping_ops(up, v.head);
    if t * bs + bs >= m.head {
        ring::lemma_wrap_sub(t * bs + bs, m.head);
    } else {
        ring::lemma_wrap_sub_behind(t * bs + bs, m.head);
    }
}

proof fn lemma_tail_steps_count(v: RingView, m: RingModel, steps: nat, b: int)
    requires
        inv(v, m),
        forall|j: nat| j < steps ==> (#[trigger] v.after_tail_steps(j)).tail_can_move(),
    ensures
        m.after_tail_steps(v.capacity, steps).released == m.released + steps,
        m.after_tail_steps(v.capacity, steps).head == m.head,
        m.after_tail_steps(v.capacity, steps).claimed == m.claimed,
        m.released <= b < m.claimed ==> (m.after_tail_steps(v.capacity, steps).stage)(b) == (m.stage)(b),
        m.released <= b < m.released + steps ==> (m.stage)(b) is Finished && b < m.claimed,
    decreases steps,
{
    if steps > 0 {
        let before = (steps - 1) as nat;
        lemma_tail_steps_count(v, m, before, b);
        tail_steps_keep_the_ring(v, m, before);
        lemma_tail_steps_keep_sizes(v, before);
        let v2 = v.after_tail_steps(before);
        let m2 = m.after_tail_steps(v.capacity, before);
        assert(v2.tail_can_move());
        tail_step_keeps_the_ring(v2, m2);
        lemma_tail_steps_count(v, m, before, m2.released);
    }
}

/// Giving batches back goes as far as it can, oldest first, and no further: what
/// is given back was cleared, the tail stands behind it, and the oldest batch
/// that is left is not cleared, or the head is not past its end.
pub proof fn every_cleared_batch_is_given_back(v: RingView, m: RingModel, steps: nat, b: int)
    requires
        inv(v, m),
        executor::is_tail_distance(v, steps),
    ensures
        ({
            let left = m.released + steps;
            &&& v.after_tail_steps(steps).tail == ring::wrap(left * v.batch_size)
            &&& v.after_tail_steps(steps).head == v.head
            &&& v.after_tail_steps(steps).executor_head == v.executor_head
            &&& left <= m.claimed
            &&& m.released <= b < left ==> (m.stage)(b) is Finished && m.head > (b + 1) * v.batch_size
            &&& left < m.claimed && (m.stage)(left) is Finished ==> m.head <= (left + 1) * v.batch_size
        }),
{
    let left = m.released + steps;
    tail_steps_keep_the_ring(v, m, steps);
    lemma_tail_steps_keep_sizes(v, steps);
    lemma_tail_steps_count(v, m, steps, b);
    lemma_tail_steps_count(v, m, steps, left);
    let v2 = v.after_tail_steps(steps);
    let m2 = m.after_tail_steps(v.capacity, steps);
    cleared_batches_can_be_given_back(v2, m2);
    lemma_tail_steps_leave(v, steps);
    if m.released <= b < left {
        lemma_tail_step_at(v, m, (b - m.released) as nat, steps);
    }
}

proof fn lemma_tail_steps_leave(v: RingView, steps: nat)
    ensures
        v.after_tail_steps(steps).head == v.head,
        v.after_tail_steps(steps).executor_head == v.executor_head,
    decreases steps,
{
    if steps > 0 {
        lemma_tail_steps_leave(v, (steps - 1) as nat);
    }
}

proof fn lemma_tail_step_at(v: RingView, m: RingModel, j: nat, steps: nat)
    requires
        inv(v, m),
        forall|i: nat| i < steps ==> (#[trigger] v.after_tail_steps(i)).tail_can_move(),
        j < steps,
    ensures
        m.head > (m.released + j + 1) * v.batch_size,
{
    tail_steps_keep_the_ring(v, m, j);
    lemma_tail_steps_keep_sizes(v, j);
    lemma_tail_steps_count(v, m, j, m.released);
    assert(v.after_tail_steps(j).tail_can_move());
    cleared_batches_can_be_given_back(v.after_tail_steps(j), m.after_tail_steps(v.capacity, j));
}

/// Making room moves the tail over every cleared batch that the head is past,
/// oldest first, up to the first that is not cleared or that the head is not past,
/// however many executors are at work, and moves nothing else.
pub proof fn tail_moves_as_far_as_it_can(buffer: &mut SuperTensorBuffer, m: RingModel, steps: usize, b: int)
    requires
        inv(old(buffer)@, m),
        call_ensures(SuperTensorBuffer::move_tail_to_next_non_dirty_buffer, (buffer,), steps),
    ensures
        ({
            let v = old(buffer)@;
            let left = m.released + steps;
            &&& final(buffer)@.tail == ring::wrap(left * v.batch_size)
            &&& final(buffer)@.head == v.head
            &&& final(buffer)@.executor_head == v.executor_head
            &&& final(buffer)@.executors_in_use == v.executors_in_use
            &&& (m.stage)(m.released) is Finished && m.head > (m.released + 1) * v.batch_size ==> steps >= 1
            &&& left <= m.claimed
            &&& left < m.claimed && (m.stage)(left) is Finished ==> m.head <= (left + 1) * v.batch_size
            &&& m.released <= b < left ==> {
                &&& (m.stage)(b) is Finished
                &&& m.head > (b + 1) * v.batch_size
                &&& final(buffer)@.trackers[b % v.capacity] == DataTracker::unused()
            }
            &&& left <= b < m.released + v.capacity ==> final(buffer)@.trackers[b % v.capacity]
                == v.trackers[b % v.capacity]
        }),
{
    let v = old(buffer)@;
    assert(executor::is_tail_distance(v, steps as nat));
    every_cleared_batch_is_given_back(v, m, steps as nat, b);
    lemma_tail_steps_in_use(v, steps as nat);
    cleared_batches_can_be_given_back(v, m);
    assert(steps == 0 ==> v.after_tail_steps(steps as nat) == v);
    if m.on_ring(v.capacity, b) {
        given_back_batches_are_clean(v, m, steps as nat, b);
    }
}

/// Once an executor is done, room is made at once. Its batch and all cleared ones
/// before it go back, as far as the head is past them, while others still run:
/// the tail moves over at least its own batch where that is the oldest, and stops
/// only at a batch that is not cleared or that the head is not past.
pub proof fn finished_executors_make_room(
    buffer: &mut SuperTensorBuffer,
    m: RingModel,
    b: int,
    index: RingBufferIndex,
    items: usize,
    now: u64,
    r: (ExecutorPhase, ExecutorAction),
)
    requires
        old(buffer).wf(),
        inv(old(buffer)@, m),
        phase_fits(*old(buffer), m, b, ExecutorPhase::Run(index, items)),
        call_ensures(SuperTensorBuffer::execute_on_batch, (buffer, ExecutorPhase::Run(index, items), now), r),
    ensures
        r.0 == ExecutorPhase::Done(items),
        r.1 matches ExecutorAction::Finish { batch_items, moved } && {
            let left = m.released + moved;
            &&& batch_items == items
            &&& final(buffer)@.tail == ring::wrap(left * old(buffer)@.batch_size)
            &&& left < m.claimed && (left == b || (m.stage)(left) is Finished) ==> m.head <= (left + 1)
                * old(buffer)@.batch_size
            &&& b == m.released && m.head > (b + 1) * old(buffer)@.batch_size ==> moved >= 1
            &&& moved > 0 ==> (m.released == b || (m.stage)(m.released) is Finished)
        },
        final(buffer)@.head == old(buffer)@.head,
        final(buffer)@.executor_head == old(buffer)@.executor_head,
        final(buffer)@.executors_in_use == ring::wrap(old(buffer)@.executors_in_use - 1),
{
    let v = old(buffer)@;
    assert(m.on_ring(v.capacity, b));
    finish_keeps_the_ring(v, m, b, now);
    let cleared = v.after_answer(index.index, now).after_reset(index.index);
    let m2 = m.at_stage(b, Stage::Finished);
    let moved = r.1->Finish_moved as nat;
    every_cleared_batch_is_given_back(cleared, m2, moved, m.released);
    lemma_tail_steps_in_use(cleared, moved);
}

proof fn lemma_tail_steps_in_use(v: RingView, steps: nat)
    ensures
        v.after_tail_steps(steps).executors_in_use == v.executors_in_use,
    decreases steps,
{
    if steps > 0 {
        lemma_tail_steps_in_use(v, (steps - 1) as nat);
    }
}

/// An executor takes the next batch whenever one is left, and waits for its first
/// writer.
pub proof fn free_batches_are_claimed(
    buffer: &mut SuperTensorBuffer,
    m: RingModel,
    now: u64,
    r: (ExecutorPhase, ExecutorAction),
)
    requires
        old(buffer).wf(),
        inv(old(buffer)@, m),
        call_ensures(SuperTensorBuffer::execute_on_batch, (buffer, ExecutorPhase::Claim, now), r),
    ensures
        m.claimed < m.released + old(buffer)@.capacity ==> {
            &&& r.0 matches ExecutorPhase::Linger(index) && old(buffer).on_ring(index) && index.index == ring::wrap(
                m.claimed * old(buffer)@.batch_size,
            )
            &&& r.1 matches ExecutorAction::WaitForWriter { batch_id } && batch_id == m.claimed % old(buffer)@.capacity
            &&& final(buffer)@.executor_head == ring::wrap((m.claimed + 1) * old(buffer)@.batch_size)
            &&& final(buffer)@ == (RingView { executor_head: final(buffer)@.executor_head, ..old(buffer)@ })
        },
        m.claimed == m.released + old(buffer)@.capacity ==> {
            &&& r == (ExecutorPhase::Claim, ExecutorAction::WaitForRoom)
            &&& final(buffer)@ == old(buffer)@
        },
{
    let v = old(buffer)@;
    claim_is_blocked_when_every_batch_is_out(v, m);
    lemma_bounds(v, m);
    lemma_batch_place(v, m.claimed);
}

/// An executor gives clients their chance: while a slot of its batch is still to
/// be handed out, it waits until the deadline of the batch, and it goes on at
/// once only where all of them are.
pub proof fn executors_wait_for_clients(
    buffer: &mut SuperTensorBuffer,
    m: RingModel,
    b: int,
    index: RingBufferIndex,
    deadline: u64,
    now: u64,
    r: (ExecutorPhase, ExecutorAction),
)
    requires
        old(buffer).wf(),
        inv(old(buffer)@, m),
        phase_fits(*old(buffer), m, b, ExecutorPhase::Linger(index)),
        (m.opened)(b),
        old(buffer)@.trackers[b % old(buffer)@.capacity].state.deadline == Some(deadline),
        call_ensures(SuperTensorBuffer::execute_on_batch, (buffer, ExecutorPhase::Linger(index), now), r),
    ensures
        r.0 == ExecutorPhase::Seal(index),
        m.head < (b + 1) * old(buffer)@.batch_size ==> (r.1 matches ExecutorAction::WaitForClients {
            batch_id,
            deadline: until,
        } && batch_id == b % old(buffer)@.capacity && until == deadline),
        m.head >= (b + 1) * old(buffer)@.batch_size ==> r.1 == ExecutorAction::Proceed,
        final(buffer)@ == old(buffer)@,
{
    let v = old(buffer)@;
    assert(m.on_ring(v.capacity, b));
    assert(batch_inv(v, m, b));
    lemma_bounds(v, m);
    lemma_batch_place(v, b);
    open_slots_are_what_is_left(v, m, b);
    assert((b + 1) * v.batch_size == b * v.batch_size + v.batch_size) by (nonlinear_arith);
}

/// Sealing closes a batch to clients: the slots that are not handed out stay
/// empty, the head goes on to the next batch, and nothing else changes.
pub proof fn sealed_batches_take_no_more_clients(
    buffer: &mut SuperTensorBuffer,
    m: RingModel,
    b: int,
    index: RingBufferIndex,
    now: u64,
    r: (ExecutorPhase, ExecutorAction),
)
    requires
        old(buffer).wf(),
        inv(old(buffer)@, m),
        phase_fits(*old(buffer), m, b, ExecutorPhase::Seal(index)),
        call_ensures(SuperTensorBuffer::execute_on_batch, (buffer, ExecutorPhase::Seal(index), now), r),
    ensures
        r.1 == ExecutorAction::Proceed,
        r.0 matches ExecutorPhase::Drain(same, remaining) && same == index && remaining == (if m.head < (b + 1)
            * old(buffer)@.batch_size {
            (b + 1) * old(buffer)@.batch_size - m.head
        } else {
            0
        }),
        final(buffer)@.head == ring::wrap(
            if m.head < (b + 1) * old(buffer)@.batch_size {
                (b + 1) * old(buffer)@.batch_size
            } else {
                m.head
            },
        ),
        final(buffer)@ == (RingView { head: final(buffer)@.head, ..old(buffer)@ }),
{
    let v = old(buffer)@;
    assert(m.on_ring(v.capacity, b));
    lemma_bounds(v, m);
    open_slots_are_what_is_left(v, m, b);
    seal_keeps_the_ring(v, m, b);
    assert((b + 1) * v.batch_size == b * v.batch_size + v.batch_size) by (nonlinear_arith);
}

/// A sealed batch is run as soon as every write to it is done, with all the items
/// that were written, and not before.
pub proof fn written_batches_are_run(
    buffer: &mut SuperTensorBuffer,
    m: RingModel,
    b: int,
    index: RingBufferIndex,
    remaining: usize,
    now: u64,
    r: (ExecutorPhase, ExecutorAction),
)
    requires
        old(buffer).wf(),
        inv(old(buffer)@, m),
        phase_fits(*old(buffer), m, b, ExecutorPhase::Drain(index, remaining)),
        call_ensures(SuperTensorBuffer::execute_on_batch, (buffer, ExecutorPhase::Drain(index, remaining), now), r),
    ensures
        (m.pending)(b) == 0 ==> {
            &&& r.0 matches ExecutorPhase::Run(same, items) && same == index && items == old(buffer)@.batch_size - remaining
            &&& r.1 matches ExecutorAction::RunModel { batch_id, batch_items } && batch_id == b % old(buffer)@.capacity
                && batch_items == old(buffer)@.batch_size - remaining
            &&& final(buffer)@.trackers[b % old(buffer)@.capacity].state.execution_trace.exec_start == Some(now)
            &&& final(buffer)@.executors_in_use == ring::wrap(old(buffer)@.executors_in_use + 1)
        },
        (m.pending)(b) > 0 ==> {
            &&& r == (ExecutorPhase::Drain(index, remaining), ExecutorAction::Spin)
            &&& final(buffer)@ == old(buffer)@
        },
        final(buffer)@.head == old(buffer)@.head,
        final(buffer)@.tail == old(buffer)@.tail,
        final(buffer)@.executor_head == old(buffer)@.executor_head,
{
    let v = old(buffer)@;
    assert(m.on_ring(v.capacity, b));
    assert(batch_inv(v, m, b));
    lemma_bounds(v, m);
    lemma_batch_place(v, b);
    drain_waits_for_every_write(v, m, b);
}

/// A request is let in whenever a slot is free, and takes the slots from the head
/// on, one for each of its items. It is turned away only where none is free.
pub proof fn requests_take_the_next_slots(
    buffer: &mut SuperTensorBuffer,
    m: RingModel,
    n: usize,
    r: Option<Vec<BatchWrite>>,
)
    requires
        inv(old(buffer)@, m),
        call_ensures(SuperTensorBuffer::infer, (buffer, n), r),
    ensures
        m.head < (m.released + old(buffer)@.capacity) * old(buffer)@.batch_size ==> {
            &&& r is Some
            &&& final(buffer)@.head == ring::wrap(m.head + n)
            &&& final(buffer)@ == (RingView { head: final(buffer)@.head, ..old(buffer)@ })
        },
        m.head == (m.released + old(buffer)@.capacity) * old(buffer)@.batch_size ==> {
            &&& r is None
            &&& final(buffer)@ == old(buffer)@
        },
{
    let v = old(buffer)@;
    ring_is_full_when_no_slot_is_free(v, m);
    ring::lemma_wrap_add(m.head, n);
    ring::lemma_wrapping_ops(v.head, n);
}

/// The stretches that a request is cut into cover it from its first item to its
/// last, one behind the other, and item `i` goes to the slot `i` places behind the
/// head: to slot `s` of batch number `b` where that is the slot.
pub proof fn every_item_has_its_slot(
    buffer: &mut SuperTensorBuffer,
    m: RingModel,
    n: usize,
    r: Option<Vec<BatchWrite>>,
    k: int,
    i: int,
    b: int,
    s: int,
)
    requires
        inv(old(buffer)@, m),
        call_ensures(SuperTensorBuffer::infer, (buffer, n), r),
        r is Some,
        0 <= s < old(buffer)@.batch_size,
        b >= 0,
        m.head + i == b * old(buffer)@.batch_size + s,
    ensures
        ({
            let writes = r->0@;
            &&& writes.len() > 0
            &&& writes[0].data_start == 0
            &&& writes.last().data_end == n
            &&& 0 <= k < writes.len() - 1 ==> writes[k].data_end == writes[k + 1].data_start
            &&& 0 <= k < writes.len() ==> {
                &&& writes[k].end <= old(buffer)@.batch_size
                &&& writes[k].end - writes[k].batch_slot == writes[k].data_end - writes[k].data_start
            }
            &&& 0 <= k < writes.len() && writes[k].data_start <= i < writes[k].data_end ==> {
                &&& writes[k].batch_id == b % old(buffer)@.capacity
                &&& writes[k].batch_slot + (i - writes[k].data_start) == s
            }
        }),
{
    let v = old(buffer)@;
    let rs = v.ring_size();
    let bs = v.batch_size;
    let writes = supertensor::batch_writes(v.head as int, n as int, rs, bs);
    lemma_bounds(v, m);
    ring_is_full_when_no_slot_is_free(v, m);
    ring::lemma_pow2_product(v.capacity, bs);
    supertensor::writes_cover_the_request(v.head as int, n as int, rs, bs);
    assert(r->0@ == writes);
    if 0 <= k < writes.len() - 1 {
        let next = k + 1;
        assert(writes[k].data_end == writes[next].data_start);
    }
    if 0 <= k < writes.len() && writes[k].data_start <= i < writes[k].data_end {
        supertensor::items_land_on_their_slots(v.head as int, n as int, k, i, rs, bs);
        ring::lemma_wrap_of_wrapped(m.head + i, 0);
        ring::lemma_wrap_add(m.head, i as usize);
        ring::lemma_wrapping_ops(v.head, i as usize);
        ring::lemma_wrap_keeps_place(v.head + i, rs, bs);
        ring::lemma_wrap_keeps_place(m.head + i, rs, bs);
        ring::positions_go_through_the_ring(v.capacity, bs, b, s, 0);
    }
}

/// A write is counted to its batch and to no other. The first slot of a batch
/// starts its clock: from then on it is in use, and clients may join it for two
/// milliseconds. The client waits for just the slots that it wrote, and the
/// executor is woken by the first slot and by the last.
pub proof fn writes_are_counted_to_their_batch(
    buffer: &mut SuperTensorBuffer,
    write: &BatchWrite,
    now: u64,
    r: (WriteReservation, bool),
    k: int,
)
    requires
        write.batch_id < old(buffer)@.trackers.len(),
        write.data_start <= write.data_end,
        write.batch_slot + (write.data_end - write.data_start) <= usize::MAX,
        old(buffer)@.trackers[write.batch_id as int].written_slots + (write.data_end - write.data_start) <= usize::MAX,
        now + 2_000_000 <= u64::MAX,
        0 <= k < old(buffer)@.trackers.len(),
        call_ensures(SuperTensorBuffer::insert_tensors_at, (buffer, write, now), r),
    ensures
        ({
            let v = old(buffer)@;
            let after = final(buffer)@;
            let before = v.trackers[k];
            let n = write.data_end - write.data_start;
            &&& after == (RingView { trackers: after.trackers, ..v })
            &&& after.trackers.len() == v.trackers.len()
            &&& k != write.batch_id ==> after.trackers[k] == before
            &&& k == write.batch_id ==> {
                &&& after.trackers[k].written_slots == before.written_slots + n
                &&& write.batch_slot == 0 ==> {
                    &&& after.trackers[k].dirty == BatchUse::InUse
                    &&& after.trackers[k].state.deadline == Some((now + 2_000_000) as u64)
                    &&& after.trackers[k].state.execution_trace.queue_start == Some(now)
                    &&& after.trackers[k].state.execution_trace.exec_start == before.state.execution_trace.exec_start
                    &&& after.trackers[k].state.execution_trace.exec_end == before.state.execution_trace.exec_end
                    &&& after.trackers[k].state.answered == before.state.answered
                }
                &&& write.batch_slot != 0 ==> after.trackers[k].dirty == before.dirty && after.trackers[k].state
                    == before.state
            }
            &&& r.0.batch_id == write.batch_id
            &&& r.0.start == write.batch_slot
            &&& r.0.end == write.batch_slot + n
            &&& r.1 <==> write.batch_slot == 0 || write.batch_slot + n == old(buffer).batch_size
        }),
{
    let v = old(buffer)@;
    let n = write.data_end - write.data_start;
    ring::lemma_wrap_small((v.trackers[write.batch_id as int].written_slots + n) as usize);
}

/// A warm-up run sets one whole batch aside at the head, for clients and
/// executors alike: the batch that the next client would have written to. Only that
/// one is marked.
pub proof fn warmups_take_one_batch(buffer: &mut SuperTensorBuffer, m: RingModel, r: RingBufferIndex, k: int)
    requires
        inv(old(buffer)@, m),
        m.head == m.claimed * old(buffer)@.batch_size,
        0 <= k < old(buffer)@.capacity,
        call_ensures(SuperTensorBuffer::begin_warmup, (buffer,), r),
    ensures
        ({
            let v = old(buffer)@;
            let after = final(buffer)@;
            &&& r.index == index_of(v, m.claimed)
            &&& after.head == ring::wrap((m.claimed + 1) * v.batch_size)
            &&& after.executor_head == ring::wrap((m.claimed + 1) * v.batch_size)
            &&& after.executors_in_use == ring::wrap(v.executors_in_use + 1)
            &&& after.tail == v.tail
            &&& after.trackers.len() == v.trackers.len()
            &&& k == m.claimed % v.capacity ==> after.trackers[k] == (DataTracker {
                dirty: BatchUse::InUse,
                ..v.trackers[k]
            })
            &&& k != m.claimed % v.capacity ==> after.trackers[k] == v.trackers[k]
        }),
{
    lemma_bounds(old(buffer)@, m);
    lemma_batch_place(old(buffer)@, m.claimed);
}

/// The batch of a warm-up run is cleared behind it and given back, with every
/// cleared batch behind it that the head is past.
pub proof fn warmups_give_their_batch_back(
    buffer: &mut SuperTensorBuffer,
    m: RingModel,
    index: &RingBufferIndex,
    b: int,
    moved: usize,
)
    requires
        inv(old(buffer)@, m),
        m.released <= b < m.claimed,
        index.index == index_of(old(buffer)@, b),
        (m.stage)(b) is Sealed,
        (m.pending)(b) == 0,
        call_ensures(SuperTensorBuffer::finish_warmup, (buffer, index), moved),
    ensures
        ({
            let v = old(buffer)@;
            let left = m.released + moved;
            &&& final(buffer)@.tail == ring::wrap(left * v.batch_size)
            &&& final(buffer)@.head == v.head
            &&& final(buffer)@.executor_head == v.executor_head
            &&& final(buffer)@.executors_in_use == ring::wrap(v.executors_in_use - 1)
            &&& b == m.released && m.head > (b + 1) * v.batch_size ==> moved >= 1
            &&& left < m.claimed && (left == b || (m.stage)(left) is Finished) ==> m.head <= (left + 1)
                * v.batch_size
            &&& final(buffer)@.trackers[b % v.capacity].written_slots == 0
            &&& final(buffer)@.trackers[b % v.capacity].state == BatchState::fresh()
            &&& final(buffer)@.trackers[b % v.capacity].dirty == (if b < left {
                BatchUse::Clean
            } else {
                BatchUse::Finished
            })
        }),
{
    let v = old(buffer)@;
    assert(m.on_ring(v.capacity, b));
    reset_keeps_the_ring(v, m, b);
    let cleared = v.after_reset(index.index);
    let m2 = m.at_stage(b, Stage::Finished);
    every_cleared_batch_is_given_back(cleared, m2, moved as nat, m.released);
    lemma_tail_steps_in_use(cleared, moved as nat);
    given_back_batches_are_clean(cleared, m2, moved as nat, b);
    assert(m2.on_ring(v.capacity, b));
    assert(batch_inv(cleared, m2, b));
}

proof fn lemma_tail_steps_trackers(v: RingView, m: RingModel, steps: nat, b: int)
    requires
        inv(v, m),
        forall|j: nat| j < steps ==> (#[trigger] v.after_tail_steps(j)).tail_can_move(),
        m.on_ring(v.capacity, b),
    ensures
        v.after_tail_steps(steps).trackers.len() == v.capacity,
        v.after_tail_steps(steps).trackers[b % v.capacity] == (if b < m.released + steps {
            DataTracker { dirty: BatchUse::Clean, ..v.trackers[b % v.capacity] }
        } else {
            v.trackers[b % v.capacity]
        }),
    decreases steps,
{
    if steps > 0 {
        let before = (steps - 1) as nat;
        lemma_tail_steps_trackers(v, m, before, b);
        tail_steps_keep_the_ring(v, m, before);
        lemma_tail_steps_keep_sizes(v, before);
        lemma_tail_steps_count(v, m, before, b);
        let v2 = v.after_tail_steps(before);
        let m2 = m.after_tail_steps(v.capacity, before);
        let oldest = m.released + before;
        assert(v2.tail_can_move());
        tail_step_keeps_the_ring(v2, m2);
        lemma_bounds(v2, m2);
        lemma_batch_place(v2, oldest);
        lemma_mod_bound(b, v.capacity);
        lemma_tail_steps_count(v, m, steps, oldest);
        if b != oldest {
            lemma_batches_apart(v.capacity, b, oldest);
        }
    }
}

/// A batch that is given back is clean, with nothing of its last lap left, and the
/// batches that stay are as they were.
pub proof fn given_back_batches_are_clean(v: RingView, m: RingModel, steps: nat, b: int)
    requires
        inv(v, m),
        executor::is_tail_distance(v, steps),
        m.on_ring(v.capacity, b),
    ensures
        b < m.released + steps ==> v.after_tail_steps(steps).trackers[b % v.capacity] == DataTracker::unused(),
        b >= m.released + steps ==> v.after_tail_steps(steps).trackers[b % v.capacity] == v.trackers[b % v.capacity],
{
    lemma_tail_steps_trackers(v, m, steps, b);
    lemma_tail_steps_count(v, m, steps, b);
    assert(batch_inv(v, m, b));
}

/// An executor does not wait for clients of a batch that has no deadline.
pub proof fn batches_without_deadline_are_not_waited_for(
    buffer: &mut SuperTensorBuffer,
    m: RingModel,
    b: int,
    index: RingBufferIndex,
    now: u64,
    r: (ExecutorPhase, ExecutorAction),
)
    requires
        old(buffer).wf(),
        inv(old(buffer)@, m),
        phase_fits(*old(buffer), m, b, ExecutorPhase::Linger(index)),
        old(buffer)@.trackers[b % old(buffer)@.capacity].state.deadline is None,
        call_ensures(SuperTensorBuffer::execute_on_batch, (buffer, ExecutorPhase::Linger(index), now), r),
    ensures
        r == (ExecutorPhase::Seal(index), ExecutorAction::Proceed),
        final(buffer)@ == old(buffer)@,
{
    lemma_bounds(old(buffer)@, m);
    lemma_batch_place(old(buffer)@, b);
}

/// An executor that is done stays done, and changes nothing.
pub proof fn done_executors_change_nothing(
    buffer: &mut SuperTensorBuffer,
    items: usize,
    now: u64,
    r: (ExecutorPhase, ExecutorAction),
)
    requires
        call_ensures(SuperTensorBuffer::execute_on_batch, (buffer, ExecutorPhase::Done(items), now), r),
    ensures
        r == (ExecutorPhase::Done(items), ExecutorAction::Proceed),
        final(buffer)@ == old(buffer)@,
{
}

/// Handing a batch out moves only the counter of the executors, by one batch, and the
/// executor gets the batch that is next.
pub proof fn claims_take_the_next_batch(buffer: &mut SuperTensorBuffer, m: RingModel, r: Option<RingBufferIndex>)
    requires
        inv(old(buffer)@, m),
        call_ensures(SuperTensorBuffer::claim_batch, (buffer,), r),
    ensures
        r is Some <==> m.claimed < m.released + old(buffer)@.capacity,
        r is None ==> final(buffer)@ == old(buffer)@,
        r matches Some(index) ==> {
            &&& index.index == ring::wrap(m.claimed * old(buffer)@.batch_size)
            &&& old(buffer).on_ring(index)
            &&& final(buffer)@ == (RingView {
                executor_head: ring::wrap((m.claimed + 1) * old(buffer)@.batch_size),
                ..old(buffer)@
            })
        },
{
    claim_is_blocked_when_every_batch_is_out(old(buffer)@, m);
    lemma_bounds(old(buffer)@, m);
    lemma_batch_place(old(buffer)@, m.claimed);
}

/// The slots of a batch that are still to be handed out are those from the head to its
/// end, and its executor waits for them until its deadline.
pub proof fn open_slots_are_counted(
    buffer: &SuperTensorBuffer,
    m: RingModel,
    b: int,
    index: &RingBufferIndex,
    slots: usize,
    deadline: Option<u64>,
)
    requires
        inv(buffer@, m),
        m.on_ring(buffer@.capacity, b),
        m.head >= b * buffer@.batch_size,
        index.index == index_of(buffer@, b),
        call_ensures(SuperTensorBuffer::open_slots, (buffer, index), slots),
        call_ensures(SuperTensorBuffer::wait_deadline, (buffer, index), deadline),
    ensures
        m.head < (b + 1) * buffer@.batch_size ==> {
            &&& slots == (b + 1) * buffer@.batch_size - m.head
            &&& deadline == buffer@.trackers[b % buffer@.capacity].state.deadline
        },
        m.head >= (b + 1) * buffer@.batch_size ==> slots == 0 && deadline is None,
{
    let v = buffer@;
    lemma_bounds(v, m);
    lemma_batch_place(v, b);
    open_slots_are_what_is_left(v, m, b);
    assert((b + 1) * v.batch_size == b * v.batch_size + v.batch_size) by (nonlinear_arith);
}

/// Closing a batch takes the head to its end, if it is not past it, leaves the slots
/// in between empty, and changes nothing else.
pub proof fn closing_skips_the_rest(
    buffer: &mut SuperTensorBuffer,
    m: RingModel,
    b: int,
    index: &RingBufferIndex,
    remaining: usize,
)
    requires
        inv(old(buffer)@, m),
        m.on_ring(old(buffer)@.capacity, b),
        m.head >= b * old(buffer)@.batch_size,
        index.index == index_of(old(buffer)@, b),
        call_ensures(SuperTensorBuffer::seal_current_batch, (buffer, index), remaining),
    ensures
        ({
            let v = old(buffer)@;
            let end = (b + 1) * v.batch_size;
            &&& m.head < end ==> remaining == end - m.head && final(buffer)@.head == ring::wrap(end)
            &&& m.head >= end ==> remaining == 0 && final(buffer)@.head == v.head
            &&& final(buffer)@ == (RingView { head: final(buffer)@.head, ..v })
        }),
{
    let v = old(buffer)@;
    lemma_bounds(v, m);
    lemma_batch_place(v, b);
    open_slots_are_what_is_left(v, m, b);
    assert((b + 1) * v.batch_size == b * v.batch_size + v.batch_size) by (nonlinear_arith);
    let n = v.open_slots(index.index);
    ring::lemma_wrap_add(m.head, n as usize);
    ring::lemma_wrapping_ops(v.head, n as usize);
    ring::lemma_wrap_small(v.head);
}

/// A batch is written once as many slots are as were handed out of it.
pub proof fn written_slots_are_compared(
    buffer: &SuperTensorBuffer,
    m: RingModel,
    b: int,
    index: &RingBufferIndex,
    remaining: usize,
    r: bool,
)
    requires
        inv(buffer@, m),
        m.on_ring(buffer@.capacity, b),
        (m.stage)(b) is Sealed,
        remaining == (m.gap)(b),
        index.index == index_of(buffer@, b),
        call_ensures(SuperTensorBuffer::batch_written, (buffer, index, remaining), r),
    ensures
        r <==> (m.pending)(b) == 0,
        r <==> buffer@.trackers[b % buffer@.capacity].written_slots + remaining == buffer@.batch_size,
{
    lemma_bounds(buffer@, m);
    lemma_batch_place(buffer@, b);
    assert(batch_inv(buffer@, m, b));
}

/// Starting a batch notes the time, counts the executor, and says how many items were
/// written; what was gathered of the batch and the other batches stay.
pub proof fn starts_are_noted(
    buffer: &mut SuperTensorBuffer,
    m: RingModel,
    b: int,
    index: &RingBufferIndex,
    now: u64,
    items: usize,
    k: int,
)
    requires
        inv(old(buffer)@, m),
        m.on_ring(old(buffer)@.capacity, b),
        index.index == index_of(old(buffer)@, b),
        0 <= k < old(buffer)@.capacity,
        call_ensures(SuperTensorBuffer::start_batch, (buffer, index, now), items),
    ensures
        ({
            let v = old(buffer)@;
            let after = final(buffer)@;
            let before = v.trackers[b % v.capacity];
            &&& items == before.written_slots
            &&& after == (RingView {
                executors_in_use: ring::wrap(v.executors_in_use + 1),
                trackers: after.trackers,
                ..v
            })
            &&& after.trackers.len() == v.trackers.len()
            &&& k != b % v.capacity ==> after.trackers[k] == v.trackers[k]
            &&& after.trackers[b % v.capacity].state.execution_trace.exec_start == Some(now)
            &&& after.trackers[b % v.capacity].written_slots == before.written_slots
            &&& after.trackers[b % v.capacity].dirty == before.dirty
            &&& after.trackers[b % v.capacity].state.deadline == before.state.deadline
            &&& after.trackers[b % v.capacity].state.answered == before.state.answered
            &&& after.trackers[b % v.capacity].state.execution_trace.queue_start
                == before.state.execution_trace.queue_start
            &&& after.trackers[b % v.capacity].state.execution_trace.exec_end == before.state.execution_trace.exec_end
        }),
{
    lemma_bounds(old(buffer)@, m);
    lemma_batch_place(old(buffer)@, b);
}

/// Outputs that come are noted with their time, once, for their batch alone.
pub proof fn answers_are_noted(
    buffer: &mut SuperTensorBuffer,
    m: RingModel,
    b: int,
    index: &RingBufferIndex,
    now: u64,
    k: int,
)
    requires
        inv(old(buffer)@, m),
        m.on_ring(old(buffer)@.capacity, b),
        index.index == index_of(old(buffer)@, b),
        0 <= k < old(buffer)@.capacity,
        call_ensures(SuperTensorBuffer::answer_batch, (buffer, index, now), ()),
    ensures
        ({
            let v = old(buffer)@;
            let after = final(buffer)@;
            let before = v.trackers[b % v.capacity];
            let tracker = after.trackers[b % v.capacity];
            &&& after == (RingView { trackers: after.trackers, ..v })
            &&& after.trackers.len() == v.trackers.len()
            &&& k != b % v.capacity ==> after.trackers[k] == v.trackers[k]
            &&& tracker.state.answered
            &&& tracker.state.execution_trace.exec_end == Some(now)
            &&& tracker.state.execution_trace.exec_start == before.state.execution_trace.exec_start
            &&& tracker.state.execution_trace.queue_start == before.state.execution_trace.queue_start
            &&& tracker.state.deadline == before.state.deadline
            &&& tracker.written_slots == before.written_slots
            &&& tracker.dirty == before.dirty
        }),
{
    lemma_bounds(old(buffer)@, m);
    lemma_batch_place(old(buffer)@, b);
}

/// Clearing a batch takes away all that was gathered of it, and touches no other.
pub proof fn clearing_leaves_nothing(
    buffer: &mut SuperTensorBuffer,
    m: RingModel,
    b: int,
    index: &RingBufferIndex,
    k: int,
)
    requires
        inv(old(buffer)@, m),
        m.on_ring(old(buffer)@.capacity, b),
        index.index == index_of(old(buffer)@, b),
        0 <= k < old(buffer)@.capacity,
        call_ensures(SuperTensorBuffer::reset_batch, (buffer, index), ()),
    ensures
        ({
            let v = old(buffer)@;
            let after = final(buffer)@;
            let tracker = after.trackers[b % v.capacity];
            &&& after == (RingView { trackers: after.trackers, ..v })
            &&& after.trackers.len() == v.trackers.len()
            &&& k != b % v.capacity ==> after.trackers[k] == v.trackers[k]
            &&& tracker.dirty == BatchUse::Finished
            &&& tracker.written_slots == 0
            &&& tracker.state.deadline is None
            &&& tracker.state.execution_trace.queue_start is None
            &&& tracker.state.execution_trace.exec_start is None
            &&& tracker.state.execution_trace.exec_end is None
            &&& !tracker.state.answered
        }),
{
    lemma_bounds(old(buffer)@, m);
    lemma_batch_place(old(buffer)@, b);
}

/// An executor that lets go is counted off, and nothing else changes.
pub proof fn executors_are_counted_off(buffer: &mut SuperTensorBuffer, n: int)
    requires
        0 < n <= usize::MAX,
        old(buffer)@.executors_in_use == n,
        call_ensures(SuperTensorBuffer::release_executor, (buffer,), ()),
    ensures
        final(buffer)@ == (RingView { executors_in_use: (n - 1) as usize, ..old(buffer)@ }),
{
    ring::lemma_wrap_small((n - 1) as usize);
}

/// A warm-up run moves the counters of clients and executors on by one batch each,
/// wherever they stand.
pub proof fn warmups_move_both_counters(buffer: &mut SuperTensorBuffer, r: RingBufferIndex, x: int, y: int)
    requires
        old(buffer)@.head == ring::wrap(x),
        old(buffer)@.executor_head == ring::wrap(y),
        call_ensures(SuperTensorBuffer::begin_warmup, (buffer,), r),
    ensures
        r.index == old(buffer)@.head,
        final(buffer)@.head == ring::wrap(x + old(buffer)@.batch_size),
        final(buffer)@.executor_head == ring::wrap(y + old(buffer)@.batch_size),
        final(buffer)@.tail == old(buffer)@.tail,
{
    let bs = old(buffer).batch_size;
    ring::lemma_wrap_add(x, bs);
    ring::lemma_wrapping_ops(old(buffer)@.head, bs);
    ring::lemma_wrap_add(y, bs);
    ring::lemma_wrapping_ops(old(buffer)@.executor_head, bs);
}

/// On a ring in order, an executor can take its next step whatever its phase, and a
/// client can write every stretch that it was handed, at the first slot of a batch
/// only once.
pub proof fn steps_can_be_taken(
    buffer: &mut SuperTensorBuffer,
    m: RingModel,
    b: int,
    phase: ExecutorPhase,
    now: u64,
    write: &BatchWrite,
)
    requires
        old(buffer).wf(),
        inv(old(buffer)@, m),
        phase_fits(*old(buffer), m, b, phase),
    ensures
        call_requires(SuperTensorBuffer::execute_on_batch, (buffer, phase, now)),
        m.on_ring(old(buffer)@.capacity, b) && ((m.stage)(b) is Open || (m.stage)(b) is Sealed) && !(m.opened)(b)
            && write.batch_id == b % old(buffer)@.capacity && write.data_start <= write.data_end && write.batch_slot + (
        write.data_end - write.data_start) <= old(buffer)@.batch_size && now + 2_000_000 <= u64::MAX ==> call_requires(
            SuperTensorBuffer::insert_tensors_at,
            (buffer, write, now),
        ),
{
    executor_can_take_its_next_step(*old(buffer), m, b, phase);
    if m.on_ring(old(buffer)@.capacity, b) {
        lemma_bounds(old(buffer)@, m);
        lemma_batch_place(old(buffer)@, b);
        assert(batch_inv(old(buffer)@, m, b));
    }
}

}
