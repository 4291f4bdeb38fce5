//! The super tensor buffer: a ring of batches that clients fill slot by slot
//! and executors run batch by batch.
//!
//! `head` is the next slot to hand to a client, `executor_head` the next batch
//! to hand to an executor, and `tail` the oldest batch still in use. The tensor
//! memory itself, the wake-ups and the clock belong to the caller; every method
//! here is one step on the bookkeeping, to be taken under the caller's lock.
//! Times are nanoseconds on a clock of the caller's choice.
use crate::ring;
use crate::ring::{PaddedAtomic, RingBufferIndex};
use crate::shapes;
use crate::shapes::{ShapeOverrides, TensorInfo};
use vstd::arithmetic::div_mod::*;
use vstd::arithmetic::mul::*;
use vstd::arithmetic::power2::*;
use vstd::prelude::*;

verus! {

/// How long a batch waits for more clients after its first slot is written.
pub const BATCH_DEADLINE_NANOS: u64 = 2_000_000;

/// Where a batch of the ring stands. A batch in use should not be reused.
#[derive(Clone, Copy, Debug, PartialEq, Eq, Structural)]
pub enum BatchUse {
    Clean,
    InUse,
    Finished,
}

/// Hold the timers to track where time is lost.
#[derive(Clone, Copy, Debug, PartialEq, Eq, Structural)]
pub struct ExecutionTrace {
    pub queue_start: Option<u64>,
    pub exec_start: Option<u64>,
    pub exec_end: Option<u64>,
}

/// The time from one point to another, where both are known. A clock that goes
/// back counts as one that stands still.
pub open spec fn elapsed(from: Option<u64>, to: Option<u64>) -> Option<u64> {
    match (from, to) {
        (Some(a), Some(b)) => Some(
            if a <= b {
                (b - a) as u64
            } else {
                0
            },
        ),
        _ => None,
    }
}

fn time_between(from: Option<u64>, to: Option<u64>) -> (r: Option<u64>)
    ensures
        r == elapsed(from, to),
{
    match (from, to) {
        (Some(a), Some(b)) => Some(
            if a <= b {
                b - a
            } else {
                0
            },
        ),
        _ => None,
    }
}

/// How long a request was on its way through a batch.
#[derive(Clone, Copy, Debug, PartialEq, Eq, Structural)]
pub struct BatchTimes {
    /// In the queue.
    pub queued: Option<u64>,
    /// In execution.
    pub executed: Option<u64>,
    /// From the end of the execution on.
    pub processed: Option<u64>,
}

impl ExecutionTrace {
    /// How long each part took, for a request that is answered at the time `now`.
    pub fn times(&self, now: u64) -> (r: BatchTimes)
        ensures
            r.queued == elapsed(self.queue_start, self.exec_start),
            r.executed == elapsed(self.exec_start, self.exec_end),
            r.processed == elapsed(self.exec_end, Some(now)),
    {
        BatchTimes {
            queued: time_between(self.queue_start, self.exec_start),
            executed: time_between(self.exec_start, self.exec_end),
            processed: time_between(self.exec_end, Some(now)),
        }
    }
}

/// What one lap of a batch through the ring has gathered. Each time is set at
/// most once per lap.
#[derive(Clone, Copy, Debug, PartialEq, Eq, Structural)]
pub struct BatchState {
    pub deadline: Option<u64>,
    pub execution_trace: ExecutionTrace,
    /// Whether the outputs have been handed to the waiting clients.
    pub answered: bool,
}

impl BatchState {
    /// The state of a batch that nobody has written to.
    pub open spec fn fresh() -> BatchState {
        BatchState {
            deadline: None,
            execution_trace: ExecutionTrace { queue_start: None, exec_start: None, exec_end: None },
            answered: false,
        }
    }

    pub fn new() -> (r: BatchState)
        ensures
            r == BatchState::fresh(),
    {
        BatchState {
            deadline: None,
            execution_trace: ExecutionTrace { queue_start: None, exec_start: None, exec_end: None },
            answered: false,
        }
    }
}

/// Bookkeeping of one batch of the ring.
#[derive(Clone, Copy, Debug, PartialEq, Eq, Structural)]
pub struct DataTracker {
    pub dirty: BatchUse,
    pub written_slots: usize,
    pub state: BatchState,
}

impl DataTracker {
    /// The tracker of a batch that was never used.
    pub open spec fn unused() -> DataTracker {
        DataTracker { dirty: BatchUse::Clean, written_slots: 0, state: BatchState::fresh() }
    }
}

/// The slots of one batch that a client has written and waits for.
#[derive(Clone, Copy, Debug, PartialEq, Eq, Structural)]
pub struct WriteReservation {
    pub batch_id: usize,
    pub start: usize,
    pub end: usize,
}

#[derive(Clone, Copy, Debug, PartialEq, Eq, Structural)]
pub struct SuperTensorMetricsSnapshot {
    pub tail_index: usize,
    pub in_use_index: usize,
    pub head_index: usize,
    pub executors_in_use: usize,
}

/// One stretch of a client batch: items `data_start..data_end` of the request
/// go to slots `batch_slot..end` of batch `batch_id`.
#[derive(Clone, Copy, Debug, PartialEq, Eq, Structural)]
pub struct BatchWrite {
    pub batch_id: usize,
    pub batch_slot: usize,
    pub end: usize,
    pub data_start: usize,
    pub data_end: usize,
}

/// Number of batches that `n` items reach into when the first goes to position
/// `pos`. Even an empty request takes part in one batch.
pub open spec fn write_count(pos: int, n: int, batch_size: int) -> int {
    let span = ring::slot_of(pos, batch_size) + n;
    if span <= batch_size {
        1
    } else {
        (span + batch_size - 1) / batch_size
    }
}

/// The `k`-th stretch of a request of `n` items placed at position `pos`: what
/// falls into the `k`-th batch from the one that holds `pos`.
pub open spec fn batch_write(pos: int, n: int, k: int, ring_size: int, batch_size: int) -> BatchWrite {
    let slot = ring::slot_of(pos, batch_size);
    let first = if k == 0 {
        slot
    } else {
        0
    };
    let left = slot + n - k * batch_size;
    let last = if left < batch_size {
        left
    } else {
        batch_size
    };
    let data = if k == 0 {
        0
    } else {
        k * batch_size - slot
    };
    BatchWrite {
        batch_id: ring::batch_of(pos - slot + k * batch_size, ring_size, batch_size) as usize,
        batch_slot: first as usize,
        end: last as usize,
        data_start: data as usize,
        data_end: (data + last - first) as usize,
    }
}

/// How a request of `n` items placed at position `pos` is cut up.
pub open spec fn batch_writes(pos: int, n: int, ring_size: int, batch_size: int) -> Seq<BatchWrite> {
    Seq::new(write_count(pos, n, batch_size) as nat, |k: int| batch_write(pos, n, k, ring_size, batch_size))
}

/// The start of the `k`-th batch from the one that holds `pos`.
pub(crate) proof fn lemma_batch_start(pos: int, k: int, ring_size: int, batch_size: int)
    requires
        ring::valid_sizes(ring_size, batch_size),
    ensures
        ({
            let x = pos - ring::slot_of(pos, batch_size) + k * batch_size;
            &&& ring::slot_of(x, batch_size) == 0
            &&& ring::slot_of(ring::wrap(x) as int, batch_size) == 0
            &&& ring::batch_of(ring::wrap(x) as int, ring_size, batch_size) == ring::batch_of(x, ring_size, batch_size)
            &&& 0 <= ring::batch_of(x, ring_size, batch_size) < ring_size
            &&& ring::wrap(ring::wrap(x) + batch_size) == ring::wrap(x + batch_size)
            &&& 0 <= ring::slot_of(pos, batch_size) < batch_size
        }),
{
    ring::lemma_sizes_divide(ring_size, batch_size);
    let x = pos - ring::slot_of(pos, batch_size) + k * batch_size;
    lemma_fundamental_div_mod(pos, batch_size);
    lemma_mod_bound(pos, batch_size);
    assert(x == batch_size * (pos / batch_size + k)) by (nonlinear_arith)
        requires
            x == pos - pos % batch_size + k * batch_size,
            pos == batch_size * (pos / batch_size) + pos % batch_size,
    ;
    lemma_mul_is_commutative(batch_size, pos / batch_size + k);
    lemma_mod_multiples_basic(pos / batch_size + k, batch_size);
    ring::lemma_wrap_keeps_place(x, ring_size, batch_size);
    ring::lemma_wrap_add(x, batch_size as usize);
    ring::lemma_wrapping_ops(ring::wrap(x), batch_size as usize);
    lemma_mod_bound(x, ring_size);
    lemma_div_pos_is_pos(x % ring_size, batch_size);
    lemma_div_nonincreasing(x % ring_size, batch_size);
}

/// Cuts a request of `client_batch_size` items, placed at `start`, at the
/// batch boundaries.
pub fn split_batch(start: RingBufferIndex, client_batch_size: usize) -> (writes: Vec<BatchWrite>)
    requires
        start.wf(),
    ensures
        writes@ == batch_writes(
            start.index as int,
            client_batch_size as int,
            start.ring_size(),
            start.batch_size as int,
        ),
{
    let ghost pos = start.index as int;
    let ghost bs = start.batch_size as int;
    let ghost rs = start.ring_size();
    let ghost n = client_batch_size as int;
    let ghost slot = ring::slot_of(pos, bs);
    let ghost mut k: int = 0;
    let mut writes: Vec<BatchWrite> = Vec::new();
    let mut current = start;
    let mut input_start: usize = 0;
    let mut left: usize = client_batch_size;
    proof {
        lemma_batch_start(pos, 0, rs, bs);
        lemma_small_mod(pos as nat, ring::wrap_size() as nat);
    }
    loop
        invariant_except_break
            k >= 0,
            writes@.len() == k,
            forall|j: int| 0 <= j < k ==> writes@[j] == batch_write(pos, n, j, rs, bs),
            current.ring_mask == start.ring_mask,
            current.batch_mask == start.batch_mask,
            current.batch_size == start.batch_size,
            current.index == (if k == 0 {
                pos
            } else {
                ring::wrap(pos - slot + k * bs) as int
            }),
            input_start == (if k == 0 {
                0
            } else {
                k * bs - slot
            }),
            left == n - input_start,
            k > 0 ==> left > 0,
        invariant
            start.wf(),
            pos == start.index,
            bs == start.batch_size,
            rs == start.ring_size(),
            n == client_batch_size,
            slot == ring::slot_of(pos, bs),
            0 <= slot < bs,
            ring::wrap(pos) == pos,
        ensures
            writes@.len() == write_count(pos, n, bs),
            forall|j: int| 0 <= j < writes@.len() ==> writes@[j] == batch_write(pos, n, j, rs, bs),
        decreases left,
    {
        proof {
            lemma_batch_start(pos, k, rs, bs);
            lemma_batch_start(pos, k + 1, rs, bs);
            let x = pos - slot + k * bs;
            assert((k + 1) * bs == k * bs + bs) by (nonlinear_arith);
            if k == 0 {
                assert(k * bs == 0);
                ring::lemma_wrap_sub(pos - slot + bs, pos);
                ring::lemma_wrapping_ops(ring::wrap(pos - slot + bs), ring::wrap(pos));
            } else {
                ring::lemma_wrap_sub(x + bs, x);
                ring::lemma_wrapping_ops(ring::wrap(x + bs), ring::wrap(x));
            }
        }
        let batch_end = current.as_absolute_batch_higher_bound();
        let room = batch_end.wrapping_sub(current.as_absolute_index());
        let to_write = if left < room {
            left
        } else {
            room
        };
        let batch_slot = current.as_batch_slot_id();
        let write = BatchWrite {
            batch_id: current.as_batch_id(),
            batch_slot,
            end: batch_slot + to_write,
            data_start: input_start,
            data_end: input_start + to_write,
        };
        writes.push(write);
        proof {
            assert(room == (if k == 0 {
                bs - slot
            } else {
                bs
            }));
            if k == 0 {
                ring::lemma_wrap_keeps_place(pos, rs, bs);
                lemma_same_batch(pos, rs, bs);
            }
            assert(write == batch_write(pos, n, k, rs, bs));
        }
        input_start = input_start + to_write;
        left = left - to_write;
        if left == 0 {
            proof {
                let span = slot + n;
                if span > bs {
                    assert(k > 0);
                    lemma_fundamental_div_mod_converse(
                        span + bs - 1,
                        bs,
                        k + 1,
                        span + bs - 1 - (k + 1) * bs,
                    );
                } else if k > 0 {
                    assert(k * bs >= bs) by (nonlinear_arith)
                        requires
                            k >= 1,
                            bs > 0,
                    ;
                }
            }
            break ;
        }
        current = RingBufferIndex { index: batch_end, ..current };
        proof {
            k = k + 1;
        }
    }
    assert(writes@ =~= batch_writes(pos, n, rs, bs));
    writes
}

/// A position and the start of its batch fall into the same batch.
proof fn lemma_same_batch(pos: int, ring_size: int, batch_size: int)
    requires
        ring::valid_sizes(ring_size, batch_size),
    ensures
        ring::batch_of(pos - ring::slot_of(pos, batch_size), ring_size, batch_size) == ring::batch_of(
            pos,
            ring_size,
            batch_size,
        ),
{
    ring::lemma_sizes_divide(ring_size, batch_size);
    let p = pos % ring_size;
    let slot = pos % batch_size;
    lemma_mod_bound(pos, ring_size);
    ring::lemma_mod_of_multiple(pos, ring_size, batch_size);
    lemma_mod_bound(p, batch_size);
    lemma_fundamental_div_mod(p, batch_size);
    lemma_div_pos_is_pos(p, batch_size);
    assert(p - slot == batch_size * (p / batch_size));
    assert(batch_size * (p / batch_size) >= 0) by (nonlinear_arith)
        requires
            batch_size > 0,
            p / batch_size >= 0,
    ;
    lemma_fundamental_div_mod(pos, ring_size);
    lemma_mul_is_commutative(ring_size, pos / ring_size);
    lemma_fundamental_div_mod_converse(pos - slot, ring_size, pos / ring_size, p - slot);
    lemma_mul_is_commutative(batch_size, p / batch_size);
    lemma_fundamental_div_mod_converse(p - slot, batch_size, p / batch_size, 0);
}

/// Number and bounds of the `k`-th stretch of a request.
pub(crate) proof fn lemma_stretch(pos: int, n: int, k: int, ring_size: int, batch_size: int)
    requires
        ring::valid_sizes(ring_size, batch_size),
        0 <= n <= usize::MAX,
        0 <= k < write_count(pos, n, batch_size),
    ensures
        ({
            let slot = ring::slot_of(pos, batch_size);
            let write = batch_write(pos, n, k, ring_size, batch_size);
            let last = k == write_count(pos, n, batch_size) - 1;
            &&& 0 <= slot < batch_size
            &&& write.batch_id == ring::batch_of(pos - slot + k * batch_size, ring_size, batch_size)
            &&& write.batch_slot == (if k == 0 {
                slot
            } else {
                0
            })
            &&& write.end == (if last {
                slot + n - k * batch_size
            } else {
                batch_size
            })
            &&& write.end <= batch_size
            &&& write.data_start == (if k == 0 {
                0
            } else {
                k * batch_size - slot
            })
            &&& write.data_end == write.data_start + (write.end - write.batch_slot)
            &&& write.data_end == (if last {
                n
            } else {
                (k + 1) * batch_size - slot
            })
            &&& n > 0 ==> write.data_start < write.data_end
            &&& (k + 1) * batch_size == k * batch_size + batch_size
        }),
{
    lemma_batch_start(pos, k, ring_size, batch_size);
    let slot = ring::slot_of(pos, batch_size);
    let span = slot + n;
    let count = write_count(pos, n, batch_size);
    assert((k + 1) * batch_size == k * batch_size + batch_size) by (nonlinear_arith);
    assert(0 * batch_size == 0);
    if span > batch_size {
        let q = span + batch_size - 1;
        lemma_fundamental_div_mod(q, batch_size);
        lemma_mod_bound(q, batch_size);
        lemma_mul_is_commutative(batch_size, count);
        assert(count * batch_size <= q < count * batch_size + batch_size);
        if k == count - 1 {
            assert((k + 1) * batch_size == count * batch_size);
        } else {
            lemma_mul_inequality(k + 1, count - 1, batch_size);
            assert((count - 1) * batch_size == count * batch_size - batch_size) by (nonlinear_arith);
        }
        lemma_mul_nonnegative(k, batch_size);
        if k > 0 {
            lemma_mul_inequality(1, k, batch_size);
        }
    }
}

/// The stretches of a request follow one another without gap or overlap, from
/// its first item to its last, and none reaches beyond its batch. None is
/// empty, but for the one of an empty request.
pub proof fn writes_cover_the_request(pos: int, n: int, ring_size: int, batch_size: int)
    requires
        ring::valid_sizes(ring_size, batch_size),
        0 <= n <= usize::MAX,
    ensures
        ({
            let writes = batch_writes(pos, n, ring_size, batch_size);
            &&& writes.len() >= 1
            &&& writes[0].data_start == 0
            &&& writes.last().data_end == n
            &&& forall|k: int|
                0 <= k < writes.len() ==> {
                    let write = #[trigger] writes[k];
                    &&& write.end <= batch_size
                    &&& write.end - write.batch_slot == write.data_end - write.data_start
                    &&& n > 0 ==> write.data_start < write.data_end
                }
            &&& forall|j: int, k: int|
                0 <= j && k == j + 1 && k < writes.len() ==> (#[trigger] writes[j]).data_end == (
                #[trigger] writes[k]).data_start
        }),
{
    let writes = batch_writes(pos, n, ring_size, batch_size);
    lemma_batch_start(pos, 0, ring_size, batch_size);
    let count = write_count(pos, n, batch_size);
    assert(count >= 1) by {
        let span = ring::slot_of(pos, batch_size) + n;
        if span > batch_size {
            lemma_div_is_ordered(batch_size, span + batch_size - 1, batch_size);
            lemma_div_by_self(batch_size);
        }
    }
    lemma_stretch(pos, n, 0, ring_size, batch_size);
    lemma_stretch(pos, n, count - 1, ring_size, batch_size);
    assert forall|k: int| 0 <= k < writes.len() implies {
        let write = #[trigger] writes[k];
        &&& write.end <= batch_size
        &&& write.end - write.batch_slot == write.data_end - write.data_start
        &&& n > 0 ==> write.data_start < write.data_end
    } by {
        lemma_stretch(pos, n, k, ring_size, batch_size);
    }
    assert forall|j: int, k: int| 0 <= j && k == j + 1 && k < writes.len() implies (
    #[trigger] writes[j]).data_end == (#[trigger] writes[k]).data_start by {
        lemma_stretch(pos, n, j, ring_size, batch_size);
        lemma_stretch(pos, n, k, ring_size, batch_size);
    }
}

/// Item `i` of a request placed at `pos` goes to the slot of position
/// `pos + i`.
pub proof fn items_land_on_their_slots(pos: int, n: int, k: int, i: int, ring_size: int, batch_size: int)
    requires
        ring::valid_sizes(ring_size, batch_size),
        0 <= n <= usize::MAX,
        0 <= k < batch_writes(pos, n, ring_size, batch_size).len(),
        batch_writes(pos, n, ring_size, batch_size)[k].data_start <= i,
        i < batch_writes(pos, n, ring_size, batch_size)[k].data_end,
    ensures
        ({
            let write = batch_writes(pos, n, ring_size, batch_size)[k];
            &&& ring::batch_of(pos + i, ring_size, batch_size) == write.batch_id
            &&& ring::slot_of(pos + i, batch_size) == write.batch_slot + (i - write.data_start)
        }),
{
    let write = batch_write(pos, n, k, ring_size, batch_size);
    writes_cover_the_request(pos, n, ring_size, batch_size);
    lemma_stretch(pos, n, k, ring_size, batch_size);
    lemma_batch_start(pos, k, ring_size, batch_size);
    let x = pos - ring::slot_of(pos, batch_size) + k * batch_size;
    let s = write.batch_slot + (i - write.data_start);
    assert(0 * batch_size == 0);
    assert(pos + i == x + s);
    ring::lemma_sizes_divide(ring_size, batch_size);
    lemma_fundamental_div_mod(x, batch_size);
    lemma_mul_is_commutative(batch_size, x / batch_size);
    lemma_fundamental_div_mod_converse(x + s, batch_size, x / batch_size, s);
    lemma_same_batch(x + s, ring_size, batch_size);
}

/// Slots that the first `k` stretches take together.
pub open spec fn slots_taken(writes: Seq<BatchWrite>, k: nat) -> int
    decreases k,
{
    if k == 0 {
        0
    } else {
        slots_taken(writes, (k - 1) as nat) + (writes[k - 1].end - writes[k - 1].batch_slot)
    }
}

proof fn lemma_slots_taken(pos: int, n: int, k: nat, ring_size: int, batch_size: int)
    requires
        ring::valid_sizes(ring_size, batch_size),
        0 <= n <= usize::MAX,
        0 < k <= batch_writes(pos, n, ring_size, batch_size).len(),
    ensures
        slots_taken(batch_writes(pos, n, ring_size, batch_size), k) == batch_writes(
            pos,
            n,
            ring_size,
            batch_size,
        )[k - 1].data_end,
    decreases k,
{
    let writes = batch_writes(pos, n, ring_size, batch_size);
    writes_cover_the_request(pos, n, ring_size, batch_size);
    assert(slots_taken(writes, 0) == 0);
    if k > 1 {
        lemma_slots_taken(pos, n, (k - 1) as nat, ring_size, batch_size);
        assert(writes[k - 2].data_end == writes[k - 1].data_start);
    }
    assert(writes[k - 1].end - writes[k - 1].batch_slot == writes[k - 1].data_end - writes[k - 1].data_start);
}

/// A request of `n` items takes `n` slots, however it is cut up.
pub proof fn requests_take_a_slot_per_item(pos: int, n: int, ring_size: int, batch_size: int)
    requires
        ring::valid_sizes(ring_size, batch_size),
        0 <= n <= usize::MAX,
    ensures
        slots_taken(
            batch_writes(pos, n, ring_size, batch_size),
            batch_writes(pos, n, ring_size, batch_size).len(),
        ) == n,
{
    writes_cover_the_request(pos, n, ring_size, batch_size);
    lemma_slots_taken(pos, n, batch_writes(pos, n, ring_size, batch_size).len(), ring_size, batch_size);
}

/// The bookkeeping of a ring, as a value.
#[verifier::ext_equal]
pub struct RingView {
    pub capacity: int,
    pub batch_size: int,
    pub head: usize,
    pub executor_head: usize,
    pub tail: usize,
    pub trackers: Seq<DataTracker>,
    pub executors_in_use: usize,
}

impl RingView {
    pub open spec fn ring_size(self) -> int {
        self.capacity * self.batch_size
    }

    /// The batch that the position `index` falls into.
    pub open spec fn batch_id(self, index: usize) -> int {
        ring::batch_of(index as int, self.ring_size(), self.batch_size)
    }

    /// The tracker of the batch that the position `index` falls into.
    pub open spec fn tracker(self, index: usize) -> DataTracker {
        self.trackers[self.batch_id(index)]
    }

    /// This ring with another tracker for the batch of `index`.
    pub open spec fn with_tracker(self, index: usize, tracker: DataTracker) -> RingView {
        RingView { trackers: self.trackers.update(self.batch_id(index), tracker), ..self }
    }

    /// The start of the batch that `index` falls into.
    pub open spec fn lower_bound(self, index: usize) -> int {
        index - ring::slot_of(index as int, self.batch_size)
    }

    /// No slot is left between the tail and the counter.
    pub open spec fn blocked(self, counter: usize) -> bool {
        ring::wrap(counter - self.tail) >= self.ring_size()
    }

    /// After handing `n` slots to a client.
    pub open spec fn after_infer(self, n: int) -> RingView {
        RingView { head: ring::wrap(self.head + n), ..self }
    }

    /// After a client wrote one stretch at the time `now`.
    pub open spec fn after_insert(self, write: BatchWrite, now: int) -> RingView {
        let before = self.trackers[write.batch_id as int];
        let opened = if write.batch_slot == 0 {
            DataTracker {
                dirty: BatchUse::InUse,
                state: BatchState {
                    deadline: Some((now + BATCH_DEADLINE_NANOS) as u64),
                    execution_trace: ExecutionTrace {
                        queue_start: Some(now as u64),
                        ..before.state.execution_trace
                    },
                    ..before.state
                },
                ..before
            }
        } else {
            before
        };
        let after = DataTracker {
            written_slots: ring::wrap(opened.written_slots + (write.data_end - write.data_start)),
            ..opened
        };
        RingView { trackers: self.trackers.update(write.batch_id as int, after), ..self }
    }

    /// After handing the next batch to an executor.
    pub open spec fn after_claim(self) -> RingView {
        RingView { executor_head: ring::wrap(self.executor_head + self.batch_size), ..self }
    }

    /// Slots of the batch at `index` that are still to be handed out, or 0
    /// where the head has passed the batch.
    pub open spec fn open_slots(self, index: usize) -> int {
        let distance = ring::wrap(self.lower_bound(index) + self.batch_size - self.head);
        if 0 < distance < ring::HALF_RANGE {
            distance as int
        } else {
            0
        }
    }

    /// After closing the batch at `index` to clients.
    pub open spec fn after_seal(self, index: usize) -> RingView {
        RingView { head: ring::wrap(self.head + self.open_slots(index)), ..self }
    }

    /// After the executor of the batch at `index` started it at the time `now`.
    pub open spec fn after_start(self, index: usize, now: u64) -> RingView {
        let before = self.tracker(index);
        let after = DataTracker {
            state: BatchState {
                execution_trace: ExecutionTrace {
                    exec_start: Some(now),
                    ..before.state.execution_trace
                },
                ..before.state
            },
            ..before
        };
        RingView {
            executors_in_use: ring::wrap(self.executors_in_use + 1),
            ..self.with_tracker(index, after)
        }
    }

    /// After the outputs of the batch at `index` came at the time `now`.
    pub open spec fn after_answer(self, index: usize, now: u64) -> RingView {
        let before = self.tracker(index);
        let after = DataTracker {
            state: BatchState {
                execution_trace: ExecutionTrace {
                    exec_end: Some(now),
                    ..before.state.execution_trace
                },
                answered: true,
                ..before.state
            },
            ..before
        };
        self.with_tracker(index, after)
    }

    /// After clearing the batch at `index` for its next lap.
    pub open spec fn after_reset(self, index: usize) -> RingView {
        self.with_tracker(
            index,
            DataTracker { dirty: BatchUse::Finished, written_slots: 0, state: BatchState::fresh() },
        )
    }

    /// The oldest batch is done with and the head is past the batch after it.
    pub open spec fn tail_can_move(self) -> bool {
        &&& ring::wrap(self.lower_bound(self.tail) + self.batch_size - self.head) >= ring::HALF_RANGE
        &&& self.tracker(self.tail).dirty == BatchUse::Finished
    }

    /// After giving the oldest batch back.
    pub open spec fn after_tail_step(self) -> RingView {
        RingView {
            tail: ring::wrap(self.lower_bound(self.tail) + self.batch_size),
            ..self.with_tracker(self.tail, DataTracker { dirty: BatchUse::Clean, ..self.tracker(self.tail) })
        }
    }

    /// After giving back `steps` batches, oldest first.
    pub open spec fn after_tail_steps(self, steps: nat) -> RingView
        decreases steps,
    {
        if steps == 0 {
            self
        } else {
            self.after_tail_steps((steps - 1) as nat).after_tail_step()
        }
    }

    /// After one executor let go.
    pub open spec fn after_release(self) -> RingView {
        RingView { executors_in_use: ring::wrap(self.executors_in_use - 1), ..self }
    }

    /// After setting a whole batch aside for a warm-up run.
    pub open spec fn after_warmup_start(self) -> RingView {
        RingView {
            head: ring::wrap(self.head + self.batch_size),
            executor_head: ring::wrap(self.executor_head + self.batch_size),
            executors_in_use: ring::wrap(self.executors_in_use + 1),
            ..self.with_tracker(self.head, DataTracker { dirty: BatchUse::InUse, ..self.tracker(self.head) })
        }
    }
}

/// Number of batches that are done with.
pub open spec fn finished_count(trackers: Seq<DataTracker>) -> nat
    decreases trackers.len(),
{
    if trackers.len() == 0 {
        0
    } else {
        finished_count(trackers.drop_last()) + (if trackers.last().dirty == BatchUse::Finished {
            1nat
        } else {
            0
        })
    }
}

proof fn lemma_finished_count(trackers: Seq<DataTracker>, i: int, tracker: DataTracker)
    requires
        0 <= i < trackers.len(),
        trackers[i].dirty == BatchUse::Finished,
        tracker.dirty != BatchUse::Finished,
    ensures
        finished_count(trackers) <= trackers.len(),
        finished_count(trackers.update(i, tracker)) == finished_count(trackers) - 1,
    decreases trackers.len(),
{
    let after = trackers.update(i, tracker);
    lemma_finished_count_bound(trackers);
    if i == trackers.len() - 1 {
        assert(after.drop_last() =~= trackers.drop_last());
    } else {
        lemma_finished_count(trackers.drop_last(), i, tracker);
        assert(after.drop_last() =~= trackers.drop_last().update(i, tracker));
    }
}

proof fn lemma_finished_count_bound(trackers: Seq<DataTracker>)
    ensures
        finished_count(trackers) <= trackers.len(),
    decreases trackers.len(),
{
    if trackers.len() > 0 {
        lemma_finished_count_bound(trackers.drop_last());
    }
}

/// A ring of `capacity` batches of `batch_size` slots each.
pub struct SuperTensorBuffer {
    /// Shape of the batch tensor behind each input, the same in every batch.
    pub input_shapes: Vec<Vec<i64>>,
    pub trackers: Vec<DataTracker>,
    pub batch_size: usize,
    pub capacity: usize,
    pub head: PaddedAtomic,
    pub executor_head: PaddedAtomic,
    pub tail: PaddedAtomic,
    pub executors_in_use: usize,
}

impl View for SuperTensorBuffer {
    type V = RingView;

    open spec fn view(&self) -> RingView {
        RingView {
            capacity: self.capacity as int,
            batch_size: self.batch_size as int,
            head: self.head.value,
            executor_head: self.executor_head.value,
            tail: self.tail.value,
            trackers: self.trackers@,
            executors_in_use: self.executors_in_use,
        }
    }
}

impl SuperTensorBuffer {
    pub open spec fn wf(self) -> bool {
        &&& is_pow2(self.capacity as int)
        &&& is_pow2(self.batch_size as int)
        &&& self.capacity * self.batch_size <= usize::MAX
        &&& self.trackers@.len() == self.capacity
        &&& self.on_ring(self.head.index_at(self.head.value))
        &&& self.executor_head == self.head.with_value(self.executor_head.value)
        &&& self.tail == self.head.with_value(self.tail.value)
    }

    /// Whether an index carries the masks of this ring.
    pub open spec fn on_ring(self, index: RingBufferIndex) -> bool {
        &&& index.ring_mask == self.capacity * self.batch_size - 1
        &&& index.batch_mask == self.batch_size - 1
        &&& index.batch_size == self.batch_size
    }

    /// What no step on the ring changes.
    pub open spec fn same_ring(self, other: SuperTensorBuffer) -> bool {
        &&& self.input_shapes == other.input_shapes
        &&& self.capacity == other.capacity
        &&& self.batch_size == other.batch_size
        &&& forall|index: RingBufferIndex| self.on_ring(index) == other.on_ring(index)
    }

    /// An index on a valid ring can be reduced to a batch of it.
    pub proof fn lemma_on_ring(self, index: RingBufferIndex)
        requires
            self.wf(),
            self.on_ring(index),
        ensures
            index.wf(),
            index.ring_size() == self@.ring_size(),
            index.ring_size() / index.batch_size as int == self.capacity,
            0 <= self@.batch_id(index.index) < self.capacity,
    {
        ring::lemma_pow2_product(self.capacity as int, self.batch_size as int);
        let i = index.index as int;
        lemma_mod_bound(i, self@.ring_size());
        lemma_div_pos_is_pos(i % self@.ring_size(), self@.batch_size);
        lemma_mul_is_commutative(self@.capacity, self@.batch_size);
        lemma_multiply_divide_lt(i % self@.ring_size(), self@.batch_size, self@.capacity);
    }

    /// A ring for inputs of the given shapes.
    pub fn new(capacity: usize, batch_size: usize, inputs: &Vec<TensorInfo>) -> (r: Result<SuperTensorBuffer, ()>)
        requires
            is_pow2(capacity as int),
            is_pow2(batch_size as int),
            capacity * batch_size <= usize::MAX,
        ensures
            r matches Ok(buffer) && buffer.wf() && buffer.is_new(capacity, batch_size) && buffer.input_shapes@.len()
                == inputs@.len() && forall|i: int|
                0 <= i < inputs@.len() ==> (#[trigger] buffer.input_shapes@[i])@ == inputs@[i].shape@,
    {
        SuperTensorBuffer::new_with_overrides(capacity, batch_size, inputs, &ShapeOverrides::new())
    }

    /// A ring on which nothing has happened yet.
    pub open spec fn is_new(self, capacity: usize, batch_size: usize) -> bool {
        self@ == (RingView {
            capacity: capacity as int,
            batch_size: batch_size as int,
            head: 0,
            executor_head: 0,
            tail: 0,
            trackers: Seq::new(capacity as nat, |i: int| DataTracker::unused()),
            executors_in_use: 0,
        })
    }

    /// A ring for inputs of the given shapes, under the configured overrides.
    pub fn new_with_overrides(
        capacity: usize,
        batch_size: usize,
        inputs: &Vec<TensorInfo>,
        shape_overrides: &ShapeOverrides,
    ) -> (r: Result<SuperTensorBuffer, ()>)
        requires
            is_pow2(capacity as int),
            is_pow2(batch_size as int),
            capacity * batch_size <= usize::MAX,
            shape_overrides.wf(),
        ensures
            r matches Ok(buffer) && buffer.wf() && buffer.is_new(capacity, batch_size) && buffer.input_shapes@.len()
                == inputs@.len() && forall|i: int|
                0 <= i < inputs@.len() ==> (#[trigger] buffer.input_shapes@[i])@ == shapes::batch_tensor_shape(
                    inputs@[i].shape@,
                    shape_overrides@,
                    inputs@[i].name@,
                ),
    {
        let mut input_shapes: Vec<Vec<i64>> = Vec::new();
        for i in 0..inputs.len()
            invariant
                shape_overrides.wf(),
                input_shapes@.len() == i,
                forall|j: int|
                    0 <= j < i ==> (#[trigger] input_shapes@[j])@ == shapes::batch_tensor_shape(
                        inputs@[j].shape@,
                        shape_overrides@,
                        inputs@[j].name@,
                    ),
        {
            let input = &inputs[i];
            input_shapes.push(shapes::shape_batch_tensor(&input.shape, shape_overrides, input.name.as_str()));
        }
        let mut trackers: Vec<DataTracker> = Vec::new();
        for i in 0..capacity
            invariant
                trackers@ == Seq::new(i as nat, |i: int| DataTracker::unused()),
        {
            trackers.push(DataTracker { dirty: BatchUse::Clean, written_slots: 0, state: BatchState::new() });
            assert(trackers@ =~= Seq::new((i + 1) as nat, |i: int| DataTracker::unused()));
        }
        Ok(
            SuperTensorBuffer {
                input_shapes,
                trackers,
                batch_size,
                capacity,
                head: PaddedAtomic::new(0, capacity, batch_size),
                executor_head: PaddedAtomic::new(0, capacity, batch_size),
                tail: PaddedAtomic::new(0, capacity, batch_size),
                executors_in_use: 0,
            },
        )
    }

    /// Hands `client_batch_size` slots to a client and says which stretch of
    /// the request goes where. `None` while the ring is full.
    pub fn infer(&mut self, client_batch_size: usize) -> (r: Option<Vec<BatchWrite>>)
        requires
            old(self).wf(),
        ensures
            final(self).wf(),
            final(self).same_ring(*old(self)),
            old(self)@.blocked(old(self)@.head) ==> r is None && final(self)@ == old(self)@,
            !old(self)@.blocked(old(self)@.head) ==> {
                &&& r matches Some(writes)
                &&& writes@ == batch_writes(
                    old(self)@.head as int,
                    client_batch_size as int,
                    old(self)@.ring_size(),
                    old(self)@.batch_size,
                )
                &&& final(self)@ == old(self)@.after_infer(client_batch_size as int)
            },
    {
        let current_head = self.head.load();
        let current_tail = self.tail.load();
        proof {
            self.lemma_on_ring(current_head);
        }
        if current_head.wrapping_sub(&current_tail) >= self.capacity * self.batch_size {
            return None;
        }
        let new_head = current_head.wrapping_add(client_batch_size);
        let _ = self.head.compare_exchange_weak(current_head.as_absolute_index(), new_head);
        Some(split_batch(current_head, client_batch_size))
    }

    /// Records that a client has written one stretch at the time `now`. Hands
    /// back the reservation to wait on, and whether the executor of the batch
    /// is to be woken: at its first slot and at its last.
    pub fn insert_tensors_at(&mut self, write: &BatchWrite, now: u64) -> (r: (WriteReservation, bool))
        requires
            old(self).wf(),
            write.batch_id < old(self).capacity,
            write.data_start <= write.data_end,
            write.batch_slot + (write.data_end - write.data_start) <= usize::MAX,
            write.batch_slot == 0 ==> {
                &&& old(self)@.trackers[write.batch_id as int].state.deadline is None
                &&& old(self)@.trackers[write.batch_id as int].state.execution_trace.queue_start is None
                &&& now + BATCH_DEADLINE_NANOS <= u64::MAX
            },
        ensures
            final(self).wf(),
            final(self).same_ring(*old(self)),
            final(self)@ == old(self)@.after_insert(*write, now as int),
            r.0 == (WriteReservation {
                batch_id: write.batch_id,
                start: write.batch_slot,
                end: (write.batch_slot + (write.data_end - write.data_start)) as usize,
            }),
            r.1 == (write.batch_slot == 0 || r.0.end == old(self).batch_size),
    {
        let batch_id = write.batch_id;
        let mut tracker = self.trackers[batch_id];
        if write.batch_slot == 0 {
            tracker.dirty = BatchUse::InUse;
            tracker.state.deadline = Some(now + BATCH_DEADLINE_NANOS);
            tracker.state.execution_trace.queue_start = Some(now);
        }
        let len = write.data_end - write.data_start;
        let end = write.batch_slot + len;
        proof {
            ring::lemma_wrapping_ops(tracker.written_slots, len);
        }
        tracker.written_slots = tracker.written_slots.wrapping_add(len);
        self.trackers.set(batch_id, tracker);
        let reservation = WriteReservation { batch_id, start: write.batch_slot, end };
        (reservation, write.batch_slot == 0 || end == self.batch_size)
    }

    /// Hands the next batch to an executor. `None` while every batch of the
    /// ring is handed out.
    pub fn claim_batch(&mut self) -> (r: Option<RingBufferIndex>)
        requires
            old(self).wf(),
        ensures
            final(self).wf(),
            final(self).same_ring(*old(self)),
            old(self)@.blocked(old(self)@.executor_head) ==> r is None && final(self)@ == old(self)@,
            !old(self)@.blocked(old(self)@.executor_head) ==> {
                &&& r matches Some(index)
                &&& index.index == old(self)@.executor_head
                &&& old(self).on_ring(index)
                &&& final(self)@ == old(self)@.after_claim()
            },
    {
        let current = self.executor_head.load();
        let current_tail = self.tail.load();
        if current.wrapping_sub(&current_tail) >= self.capacity * self.batch_size {
            return None;
        }
        let next = current.wrapping_add(self.batch_size);
        let _ = self.executor_head.compare_exchange_weak(current.as_absolute_index(), next);
        Some(current)
    }

    /// Slots of the batch at `index` that are still to be handed to clients.
    pub fn open_slots(&self, index: &RingBufferIndex) -> (r: usize)
        requires
            self.wf(),
            self.on_ring(*index),
        ensures
            r == self@.open_slots(index.index),
    {
        proof {
            self.lemma_on_ring(*index);
            ring::lemma_wrap_of_wrapped(self@.lower_bound(index.index) + self@.batch_size, self.head.value as int);
        }
        let head = self.head.load();
        let bound = RingBufferIndex { index: index.as_absolute_batch_higher_bound(), ..*index };
        let distance = bound.wrapping_sub(&head);
        if distance > 0 && distance < ring::HALF_RANGE {
            distance
        } else {
            0
        }
    }

    /// The time until which the executor of the batch at `index` waits for
    /// more clients: none where the batch is full or was never opened.
    pub fn wait_deadline(&self, index: &RingBufferIndex) -> (r: Option<u64>)
        requires
            self.wf(),
            self.on_ring(*index),
        ensures
            r == (if self@.open_slots(index.index) > 0 {
                self@.tracker(index.index).state.deadline
            } else {
                None
            }),
    {
        proof {
            self.lemma_on_ring(*index);
        }
        if self.open_slots(index) > 0 {
            self.trackers[index.as_batch_id()].state.deadline
        } else {
            None
        }
    }

    /// Closes the batch at `index` to clients and says how many of its slots
    /// stay empty. The head must have reached the batch.
    pub fn seal_current_batch(&mut self, index: &RingBufferIndex) -> (remaining: usize)
        requires
            old(self).wf(),
            old(self).on_ring(*index),
            ring::wrap(old(self)@.head - old(self)@.lower_bound(index.index)) < ring::HALF_RANGE,
        ensures
            final(self).wf(),
            final(self).same_ring(*old(self)),
            remaining == old(self)@.open_slots(index.index),
            final(self)@ == old(self)@.after_seal(index.index),
    {
        let remaining = self.open_slots(index);
        let head = self.head.load();
        let new_head = head.wrapping_add(remaining);
        proof {
            ring::lemma_wrap_small(head.index);
        }
        if remaining > 0 {
            let _ = self.head.compare_exchange_weak(head.as_absolute_index(), new_head);
        }
        remaining
    }

    /// Whether every slot handed out of the sealed batch at `index` has been
    /// written, `remaining` of its slots staying empty.
    pub fn batch_written(&self, index: &RingBufferIndex, remaining: usize) -> (r: bool)
        requires
            self.wf(),
            self.on_ring(*index),
            remaining <= self.batch_size,
            self@.tracker(index.index).written_slots <= self.batch_size - remaining,
        ensures
            r == (self@.tracker(index.index).written_slots == self.batch_size - remaining),
    {
        proof {
            self.lemma_on_ring(*index);
        }
        let expected = self.batch_size - remaining;
        self.trackers[index.as_batch_id()].written_slots == expected
    }

    /// Starts the batch at `index` at the time `now` and says how many items
    /// it holds.
    pub fn start_batch(&mut self, index: &RingBufferIndex, now: u64) -> (batch_items: usize)
        requires
            old(self).wf(),
            old(self).on_ring(*index),
            old(self)@.tracker(index.index).state.execution_trace.exec_start is None,
        ensures
            final(self).wf(),
            final(self).same_ring(*old(self)),
            batch_items == old(self)@.tracker(index.index).written_slots,
            final(self)@ == old(self)@.after_start(index.index, now),
    {
        proof {
            self.lemma_on_ring(*index);
            ring::lemma_wrapping_ops(self.executors_in_use, 1);
        }
        let batch_id = index.as_batch_id();
        let mut tracker = self.trackers[batch_id];
        tracker.state.execution_trace.exec_start = Some(now);
        let batch_items = tracker.written_slots;
        self.trackers.set(batch_id, tracker);
        self.executors_in_use = self.executors_in_use.wrapping_add(1);
        batch_items
    }

    /// Records that the outputs of the batch at `index` came at the time `now`.
    pub fn answer_batch(&mut self, index: &RingBufferIndex, now: u64)
        requires
            old(self).wf(),
            old(self).on_ring(*index),
            old(self)@.tracker(index.index).state.execution_trace.exec_end is None,
            !old(self)@.tracker(index.index).state.answered,
        ensures
            final(self).wf(),
            final(self).same_ring(*old(self)),
            final(self)@ == old(self)@.after_answer(index.index, now),
    {
        proof {
            self.lemma_on_ring(*index);
        }
        let batch_id = index.as_batch_id();
        let mut tracker = self.trackers[batch_id];
        tracker.state.execution_trace.exec_end = Some(now);
        tracker.state.answered = true;
        self.trackers.set(batch_id, tracker);
    }

    /// Clears the batch at `index` for its next lap.
    pub fn reset_batch(&mut self, index: &RingBufferIndex)
        requires
            old(self).wf(),
            old(self).on_ring(*index),
        ensures
            final(self).wf(),
            final(self).same_ring(*old(self)),
            final(self)@ == old(self)@.after_reset(index.index),
    {
        proof {
            self.lemma_on_ring(*index);
        }
        let tracker = DataTracker { dirty: BatchUse::Finished, written_slots: 0, state: BatchState::new() };
        self.trackers.set(index.as_batch_id(), tracker);
    }

    /// Gives finished batches back, oldest first, as long as the head is past
    /// the batch that follows, and says how many: where any was, those who wait
    /// for room are to be woken.
    pub fn move_tail_to_next_non_dirty_buffer(&mut self) -> (steps: usize)
        requires
            old(self).wf(),
        ensures
            final(self).wf(),
            final(self).same_ring(*old(self)),
            forall|j: nat| j < steps ==> (#[trigger] old(self)@.after_tail_steps(j)).tail_can_move(),
            !old(self)@.after_tail_steps(steps as nat).tail_can_move(),
            final(self)@ == old(self)@.after_tail_steps(steps as nat),
    {
        let ghost before = *self;
        let mut steps: usize = 0;
        proof {
            lemma_finished_count_bound(self@.trackers);
        }
        loop
            invariant
                self.wf(),
                self.same_ring(before),
                self@ == before@.after_tail_steps(steps as nat),
                forall|j: nat| j < steps ==> (#[trigger] before@.after_tail_steps(j)).tail_can_move(),
                steps + finished_count(self@.trackers) <= self.capacity,
            ensures
                !self@.tail_can_move(),
            decreases finished_count(self@.trackers),
        {
            let tail = self.tail.load();
            let head = self.head.load();
            proof {
                self.lemma_on_ring(tail);
                ring::lemma_wrap_of_wrapped(self@.lower_bound(tail.index) + self@.batch_size, head.index as int);
            }
            let bound = RingBufferIndex { index: tail.as_absolute_batch_higher_bound(), ..tail };
            if bound.wrapping_sub(&head) < ring::HALF_RANGE {
                break ;
            }
            let batch_id = tail.as_batch_id();
            let mut tracker = self.trackers[batch_id];
            if tracker.dirty != BatchUse::Finished {
                break ;
            }
            tracker.dirty = BatchUse::Clean;
            proof {
                lemma_finished_count(self@.trackers, batch_id as int, tracker);
            }
            let ghost now = self@;
            self.trackers.set(batch_id, tracker);
            let _ = self.tail.compare_exchange_weak(tail.as_absolute_index(), bound.as_absolute_index());
            assert(self@ =~= now.after_tail_step());
            steps = steps + 1;
        }
        steps
    }

    /// Lets one executor go.
    pub fn release_executor(&mut self)
        requires
            old(self).wf(),
        ensures
            final(self).wf(),
            final(self).same_ring(*old(self)),
            final(self)@ == old(self)@.after_release(),
    {
        proof {
            ring::lemma_wrapping_ops(self.executors_in_use, 1);
        }
        self.executors_in_use = self.executors_in_use.wrapping_sub(1);
    }

    /// Sets the batch at the head aside for a warm-up run.
    pub fn begin_warmup(&mut self) -> (r: RingBufferIndex)
        requires
            old(self).wf(),
        ensures
            final(self).wf(),
            final(self).same_ring(*old(self)),
            r.index == old(self)@.head,
            old(self).on_ring(r),
            final(self)@ == old(self)@.after_warmup_start(),
    {
        let index = self.head.load();
        proof {
            self.lemma_on_ring(index);
            ring::lemma_wrapping_ops(self.executors_in_use, 1);
        }
        let _ = self.head.fetch_add(self.batch_size);
        let _ = self.executor_head.fetch_add(self.batch_size);
        let batch_id = index.as_batch_id();
        let mut tracker = self.trackers[batch_id];
        tracker.dirty = BatchUse::InUse;
        self.trackers.set(batch_id, tracker);
        self.executors_in_use = self.executors_in_use.wrapping_add(1);
        index
    }

    pub fn metrics_snapshot(&self) -> (r: SuperTensorMetricsSnapshot)
        ensures
            r == (SuperTensorMetricsSnapshot {
                tail_index: self@.tail,
                in_use_index: self@.executor_head,
                head_index: self@.head,
                executors_in_use: self@.executors_in_use,
            }),
    {
        SuperTensorMetricsSnapshot {
            tail_index: self.tail.load().as_absolute_index(),
            in_use_index: self.executor_head.load().as_absolute_index(),
            head_index: self.head.load().as_absolute_index(),
            executors_in_use: self.executors_in_use,
        }
    }
}

/// The time that passed leads from the one point to the other. It is known where
/// both points are, and it is none where the clock went back.
pub proof fn time_passes(from: u64, to: u64, other: Option<u64>)
    ensures
        elapsed(None, other) is None,
        elapsed(other, None) is None,
        elapsed(Some(from), Some(to)) is Some,
        from <= to ==> from + elapsed(Some(from), Some(to))->0 == to,
        from > to ==> elapsed(Some(from), Some(to))->0 == 0,
{
}

/// A new ring has nothing on it: every batch is clean, no counter has moved, and the
/// memory of each input has the shape that is declared and configured for it.
pub proof fn new_rings_are_empty(
    capacity: usize,
    batch_size: usize,
    inputs: &Vec<TensorInfo>,
    overrides: &ShapeOverrides,
    r: Result<SuperTensorBuffer, ()>,
    k: int,
    i: int,
    d: int,
)
    requires
        call_ensures(SuperTensorBuffer::new_with_overrides, (capacity, batch_size, inputs, overrides), r),
    ensures
        ({
            let buffer = r->Ok_0;
            let name = inputs@[i].name@;
            &&& r is Ok
            &&& buffer.capacity == capacity
            &&& buffer.batch_size == batch_size
            &&& buffer@.head == 0
            &&& buffer@.executor_head == 0
            &&& buffer@.tail == 0
            &&& buffer@.executors_in_use == 0
            &&& buffer@.trackers.len() == capacity
            &&& 0 <= k < capacity ==> {
                let tracker = buffer@.trackers[k];
                &&& tracker.dirty == BatchUse::Clean
                &&& tracker.written_slots == 0
                &&& tracker.state.deadline is None
                &&& tracker.state.execution_trace.queue_start is None
                &&& tracker.state.execution_trace.exec_start is None
                &&& tracker.state.execution_trace.exec_end is None
                &&& !tracker.state.answered
            }
            &&& buffer.input_shapes@.len() == inputs@.len()
            &&& 0 <= i < inputs@.len() && 0 <= d < inputs@[i].shape@.len() ==> {
                &&& buffer.input_shapes@[i]@.len() == inputs@[i].shape@.len()
                &&& buffer.input_shapes@[i]@[d] == (if d > 0 && overrides@.dom().contains(name) && d
                    < overrides@[name].len() {
                    overrides@[name][d]
                } else {
                    inputs@[i].shape@[d]
                })
            }
        }),
{
    if 0 <= i < inputs@.len() && 0 <= d < inputs@[i].shape@.len() {
        assert(r->Ok_0.input_shapes@[i]@ == shapes::batch_tensor_shape(
            inputs@[i].shape@,
            overrides@,
            inputs@[i].name@,
        ));
        shapes::configured_dimensions_are_taken(inputs@[i].shape@, overrides@, inputs@[i].name@, d);
    }
}

/// A request was queued until its batch was started, in execution until the outputs
/// came, and in processing since; each part is as long as the time between its ends.
pub proof fn parts_of_a_run_are_timed(trace: &ExecutionTrace, now: u64, r: BatchTimes, a: u64, b: u64, c: u64)
    requires
        call_ensures(ExecutionTrace::times, (trace, now), r),
        trace.queue_start == Some(a),
        trace.exec_start == Some(b),
        trace.exec_end == Some(c),
        a <= b <= c <= now,
    ensures
        r.queued == Some((b - a) as u64),
        r.executed == Some((c - b) as u64),
        r.processed == Some((now - c) as u64),
{
}

/// A snapshot shows the counters as they are.
pub proof fn snapshots_show_the_counters(buffer: &SuperTensorBuffer, r: SuperTensorMetricsSnapshot)
    requires
        call_ensures(SuperTensorBuffer::metrics_snapshot, (buffer,), r),
    ensures
        r.tail_index == buffer@.tail,
        r.in_use_index == buffer@.executor_head,
        r.head_index == buffer@.head,
        r.executors_in_use == buffer@.executors_in_use,
{
}

/// Without overrides, the memory of each input has the shape that is declared.
pub proof fn declared_shapes_are_allocated(
    capacity: usize,
    batch_size: usize,
    inputs: &Vec<TensorInfo>,
    r: Result<SuperTensorBuffer, ()>,
    i: int,
)
    requires
        call_ensures(SuperTensorBuffer::new, (capacity, batch_size, inputs), r),
    ensures
        r is Ok,
        r->Ok_0.capacity == capacity,
        r->Ok_0.batch_size == batch_size,
        r->Ok_0@.trackers.len() == capacity,
        r->Ok_0@.head == 0,
        r->Ok_0@.executor_head == 0,
        r->Ok_0@.tail == 0,
        r->Ok_0@.executors_in_use == 0,
        r->Ok_0.input_shapes@.len() == inputs@.len(),
        0 <= i < inputs@.len() ==> r->Ok_0.input_shapes@[i]@ == inputs@[i].shape@,
{
}

/// A request is cut at every end of a batch it comes to: its first stretch starts at
/// its first slot, every later one at slot 0, and all but the last reach to the end of
/// their batch.
pub proof fn requests_are_cut_at_batches(start: RingBufferIndex, n: usize, r: Vec<BatchWrite>, k: int)
    requires
        start.wf(),
        call_ensures(split_batch, (start, n), r),
        0 <= k < r@.len(),
    ensures
        r@[0].data_start == 0,
        r@.last().data_end == n,
        r@[0].batch_slot == start.index as int % start.batch_size as int,
        k > 0 ==> r@[k].batch_slot == 0 && r@[k].data_start == r@[k - 1].data_end,
        k < r@.len() - 1 ==> r@[k].end == start.batch_size,
        r@[k].end <= start.batch_size,
        r@[k].end - r@[k].batch_slot == r@[k].data_end - r@[k].data_start,
        n > 0 ==> r@[k].data_start < r@[k].data_end,
{
    let pos = start.index as int;
    let rs = start.ring_size();
    let bs = start.batch_size as int;
    writes_cover_the_request(pos, n as int, rs, bs);
    lemma_stretch(pos, n as int, 0, rs, bs);
    lemma_stretch(pos, n as int, k, rs, bs);
    if k > 0 {
        let before = k - 1;
        assert(r@[before].data_end == r@[k].data_start);
    }
}

}
