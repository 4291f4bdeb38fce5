//! Putting the answer to a request together from the batches that it was cut
//! into.
use crate::ring;
use crate::shapes;
use crate::supertensor;
use crate::supertensor::{ExecutionTrace, WriteReservation};
use smallvec::SmallVec;
use vstd::prelude::*;

verus! {

/// The slots that one request waits for. Six is arbitrary.
#[verifier::external_body]
pub struct ReservationList {
    reservations: SmallVec<[WriteReservation; 6]>,
}

/// What a list of reservations holds.
pub uninterp spec fn reservations_of(list: ReservationList) -> Seq<WriteReservation>;

impl View for ReservationList {
    type V = Seq<WriteReservation>;

    open spec fn view(&self) -> Seq<WriteReservation> {
        reservations_of(*self)
    }
}

/// Calls [`SmallVec::new`], which makes a vector with nothing in it.
#[verifier::external_body]
fn new_list() -> (r: ReservationList)
    ensures
        reservations_of(r).len() == 0,
{
    ReservationList { reservations: SmallVec::new() }
}

/// Calls [`SmallVec::push`], which puts the item behind the others.
#[verifier::external_body]
fn push_reservation(list: &mut ReservationList, reservation: WriteReservation)
    ensures
        reservations_of(*final(list)) == reservations_of(*old(list)).push(reservation),
{
    list.reservations.push(reservation);
}

/// Calls [`SmallVec::len`], which gives the number of items.
#[verifier::external_body]
fn count_reservations(list: &ReservationList) -> (r: usize)
    ensures
        r == reservations_of(*list).len(),
{
    list.reservations.len()
}

/// Indexes a [`SmallVec`], which gives the item at that place.
#[verifier::external_body]
fn reservation_at(list: &ReservationList, i: usize) -> (r: WriteReservation)
    requires
        i < reservations_of(*list).len(),
    ensures
        r == reservations_of(*list)[i as int],
{
    list.reservations[i]
}

/// One output of a batch, as a request sees it: the shape of the whole batch
/// tensor, and the bytes of the request's slots.
pub struct OutputSlice {
    pub data_type: i32,
    pub shape: Vec<i64>,
    pub bytes: Vec<u8>,
}

/// What one batch gave a request.
pub struct BatchOutput {
    pub values: Vec<OutputSlice>,
    pub trace: ExecutionTrace,
}

/// Type and shape of one output.
pub struct OutputMeta {
    pub data_type: i32,
    pub shape: Vec<i64>,
}

/// The bytes of output `i` from the first `n` batches.
pub open spec fn output_bytes(results: Seq<BatchOutput>, i: int, n: nat) -> Seq<u8>
    decreases n,
{
    if n == 0 {
        Seq::empty()
    } else if i < results[n - 1].values@.len() {
        output_bytes(results, i, (n - 1) as nat) + results[n - 1].values@[i].bytes@
    } else {
        output_bytes(results, i, (n - 1) as nat)
    }
}

/// Dimension 0 of output `i`, added up over the first `n` batches.
pub open spec fn output_items(results: Seq<BatchOutput>, i: int, n: nat) -> int
    decreases n,
{
    if n == 0 {
        0
    } else if i < results[n - 1].values@.len() {
        output_items(results, i, (n - 1) as nat) + results[n - 1].values@[i].shape@[0]
    } else {
        output_items(results, i, (n - 1) as nat)
    }
}

/// The batches can be put together: none has more outputs than the first, or
/// than there is room for, and where there are several, each output has a
/// dimension to add up.
pub open spec fn can_merge(results: Seq<BatchOutput>, room: nat) -> bool {
    &&& results.len() > 0
    &&& room > 0 ==> results[0].values@.len() <= room
    &&& forall|k: int| 0 <= k < results.len() ==> (#[trigger] results[k]).values@.len() <= results[0].values@.len()
    &&& results.len() > 1 ==> forall|k: int, i: int|
        0 <= k < results.len() && 0 <= i < results[k].values@.len() ==> (#[trigger] results[k].values@[i]).shape@.len()
            > 0
    &&& results.len() > 1 ==> forall|i: int, n: nat|
        0 <= i < results[0].values@.len() && n <= results.len() ==> i64::MIN <= #[trigger] output_items(results, i, n)
            <= i64::MAX
}

/// What the outputs are told to be: as in the first batch, but with dimension 0
/// added up over the first `n` batches.
pub open spec fn is_merged(meta: Seq<OutputMeta>, results: Seq<BatchOutput>, n: nat) -> bool {
    let first = results[0].values@;
    &&& meta.len() == first.len()
    &&& forall|i: int|
        0 <= i < first.len() ==> {
            &&& (#[trigger] meta[i]).data_type == first[i].data_type
            &&& meta[i].shape@ == (if n > 1 {
                first[i].shape@.update(0, output_items(results, i, n) as i64)
            } else {
                first[i].shape@
            })
        }
}

/// The bytes of every output, behind what was there before.
pub open spec fn are_bytes(data: Seq<Vec<u8>>, before: Seq<Vec<u8>>, results: Seq<BatchOutput>, n: nat) -> bool {
    let first = results[0].values@;
    &&& data.len() == (if before.len() == 0 && n > 0 {
        first.len()
    } else {
        before.len()
    })
    &&& forall|i: int|
        0 <= i < data.len() ==> (#[trigger] data[i])@ == (if before.len() == 0 {
            output_bytes(results, i, n)
        } else {
            before[i]@ + output_bytes(results, i, n)
        })
}

/// Makes room for `n` outputs.
fn add_outputs(data: &mut Vec<Vec<u8>>, n: usize)
    requires
        old(data)@.len() == 0,
    ensures
        final(data)@.len() == n,
        forall|i: int| 0 <= i < n ==> (#[trigger] final(data)@[i])@ == Seq::<u8>::empty(),
{
    for k in 0..n
        invariant
            data@.len() == k,
            forall|i: int| 0 <= i < k ==> (#[trigger] data@[i])@ == Seq::<u8>::empty(),
    {
        data.push(Vec::new());
    }
}

/// `data` is `before` with the bytes of the first `n` values appended.
pub open spec fn extended(data: Seq<Vec<u8>>, before: Seq<Vec<u8>>, values: Seq<OutputSlice>, n: int) -> bool {
    &&& data.len() == before.len()
    &&& forall|i: int|
        0 <= i < before.len() ==> (#[trigger] data[i])@ == (if i < n {
            before[i]@ + values[i].bytes@
        } else {
            before[i]@
        })
}

/// Appends the bytes of each value to those of its output.
fn extend_outputs(data: &mut Vec<Vec<u8>>, values: &Vec<OutputSlice>)
    requires
        values@.len() <= old(data)@.len(),
    ensures
        extended(final(data)@, old(data)@, values@, values@.len() as int),
{
    for k in 0..values.len()
        invariant
            values@.len() <= old(data)@.len(),
            extended(data@, old(data)@, values@, k as int),
    {
        let ghost before = data@;
        let bytes = &values[k].bytes;
        data[k].extend_from_slice(bytes.as_slice());
        proof {
            assert(data@[k as int]@ =~= before[k as int]@ + bytes@);
            assert forall|i: int| 0 <= i < before.len() && i != k implies data@[i] == before[i] by {}
            assert(before[k as int]@ == old(data)@[k as int]@);
        }
    }
}

/// Type and shape of each value.
fn first_meta(values: &Vec<OutputSlice>) -> (r: Vec<OutputMeta>)
    ensures
        r@.len() == values@.len(),
        forall|i: int|
            0 <= i < values@.len() ==> (#[trigger] r@[i]).data_type == values@[i].data_type && r@[i].shape@
                == values@[i].shape@,
{
    let mut r: Vec<OutputMeta> = Vec::new();
    for k in 0..values.len()
        invariant
            r@.len() == k,
            forall|i: int|
                0 <= i < k ==> (#[trigger] r@[i]).data_type == values@[i].data_type && r@[i].shape@
                    == values@[i].shape@,
    {
        let value = &values[k];
        r.push(OutputMeta { data_type: value.data_type, shape: shapes::copy_shape(&value.shape) });
    }
    r
}

/// `meta` is `before` with dimension 0 of the first `n` values added.
pub open spec fn added(meta: Seq<OutputMeta>, before: Seq<OutputMeta>, values: Seq<OutputSlice>, n: int) -> bool {
    &&& meta.len() == before.len()
    &&& forall|i: int|
        0 <= i < before.len() ==> {
            &&& (#[trigger] meta[i]).data_type == before[i].data_type
            &&& meta[i].shape@ == (if i < n {
                before[i].shape@.update(0, (before[i].shape@[0] + values[i].shape@[0]) as i64)
            } else {
                before[i].shape@
            })
        }
}

/// Both have a dimension 0, and their sum is not too large.
pub open spec fn can_add(meta: OutputMeta, value: OutputSlice) -> bool {
    &&& meta.shape@.len() > 0
    &&& value.shape@.len() > 0
    &&& i64::MIN <= meta.shape@[0] + value.shape@[0] <= i64::MAX
}

/// Adds dimension 0 of each value to that of its output.
fn add_items(meta: &mut Vec<OutputMeta>, values: &Vec<OutputSlice>)
    requires
        values@.len() <= old(meta)@.len(),
        forall|i: int| 0 <= i < values@.len() ==> can_add(old(meta)@[i], #[trigger] values@[i]),
    ensures
        added(final(meta)@, old(meta)@, values@, values@.len() as int),
{
    for k in 0..values.len()
        invariant
            values@.len() <= old(meta)@.len(),
            forall|i: int| 0 <= i < values@.len() ==> can_add(old(meta)@[i], #[trigger] values@[i]),
            added(meta@, old(meta)@, values@, k as int),
    {
        let ghost before = meta@;
        assert(can_add(old(meta)@[k as int], values@[k as int]));
        let more = values[k].shape[0];
        assert(before[k as int].shape@ == old(meta)@[k as int].shape@);
        let sum = meta[k].shape[0] + more;
        let mut shape = shapes::copy_shape(&meta[k].shape);
        shape.set(0, sum);
        let data_type = meta[k].data_type;
        meta.set(k, OutputMeta { data_type, shape });
    }
}

proof fn lemma_bytes_step(
    prev: Seq<Vec<u8>>,
    mid: Seq<Vec<u8>>,
    data: Seq<Vec<u8>>,
    before: Seq<Vec<u8>>,
    results: Seq<BatchOutput>,
    k: int,
)
    requires
        0 <= k < results.len(),
        can_merge(results, before.len()),
        are_bytes(prev, before, results, k as nat),
        prev.len() > 0 ==> mid == prev,
        prev.len() == 0 ==> mid.len() == results[k].values@.len() && forall|i: int|
            0 <= i < mid.len() ==> (#[trigger] mid[i])@ == Seq::<u8>::empty(),
        extended(data, mid, results[k].values@, results[k].values@.len() as int),
    ensures
        are_bytes(data, before, results, (k + 1) as nat),
{
    let values = results[k].values@;
    assert(values.len() <= results[0].values@.len());
    assert forall|i: int| 0 <= i < data.len() implies (#[trigger] data[i])@ == (if before.len() == 0 {
        output_bytes(results, i, (k + 1) as nat)
    } else {
        before[i]@ + output_bytes(results, i, (k + 1) as nat)
    }) by {
        if prev.len() == 0 {
            assert(mid[i]@ == Seq::<u8>::empty());
            assert(data[i]@ =~= values[i].bytes@);
            assert(output_bytes(results, i, 0) == Seq::<u8>::empty());
            assert(k == 0);
            assert(output_bytes(results, i, 1) =~= values[i].bytes@);
        } else {
            assert(mid[i] == prev[i]);
            if i < values.len() {
                if before.len() > 0 {
                    assert(data[i]@ =~= before[i]@ + (output_bytes(results, i, k as nat) + values[i].bytes@));
                }
            }
        }
    }
}

proof fn lemma_can_add(meta: Seq<OutputMeta>, results: Seq<BatchOutput>, room: nat, k: int)
    requires
        0 < k < results.len(),
        can_merge(results, room),
        is_merged(meta, results, k as nat),
    ensures
        results[k].values@.len() <= meta.len(),
        forall|i: int|
            0 <= i < results[k].values@.len() ==> can_add(meta[i], #[trigger] results[k].values@[i]),
{
    let values = results[k].values@;
    let first = results[0].values@;
    assert(values.len() <= first.len());
    assert forall|i: int| 0 <= i < values.len() implies can_add(meta[i], #[trigger] values[i]) by {
        lemma_items_so_far(meta, results, room, k, i);
        assert(results[k].values@[i].shape@.len() > 0);
        assert(results[0].values@[i].shape@.len() > 0);
        assert(output_items(results, i, (k + 1) as nat) <= i64::MAX);
    }
}

/// Dimension 0 is what it adds up to.
proof fn lemma_items_so_far(meta: Seq<OutputMeta>, results: Seq<BatchOutput>, room: nat, k: int, i: int)
    requires
        0 < k < results.len(),
        can_merge(results, room),
        is_merged(meta, results, k as nat),
        0 <= i < results[0].values@.len(),
    ensures
        meta[i].shape@.len() > 0,
        meta[i].shape@[0] == output_items(results, i, k as nat),
        i64::MIN <= output_items(results, i, (k + 1) as nat) <= i64::MAX,
        i < results[k].values@.len() ==> output_items(results, i, (k + 1) as nat) == meta[i].shape@[0]
            + results[k].values@[i].shape@[0],
        i >= results[k].values@.len() ==> output_items(results, i, (k + 1) as nat) == meta[i].shape@[0],
{
    assert(results[0].values@[i].shape@.len() > 0);
    assert(i64::MIN <= output_items(results, i, k as nat) <= i64::MAX);
    assert(i64::MIN <= output_items(results, i, (k + 1) as nat) <= i64::MAX);
    assert(output_items(results, i, 0) == 0);
    assert(output_items(results, i, 1) == results[0].values@[i].shape@[0]);
}

proof fn lemma_items_step(told: Seq<OutputMeta>, meta: Seq<OutputMeta>, results: Seq<BatchOutput>, room: nat, k: int)
    requires
        0 < k < results.len(),
        can_merge(results, room),
        is_merged(told, results, k as nat),
        added(meta, told, results[k].values@, results[k].values@.len() as int),
    ensures
        is_merged(meta, results, (k + 1) as nat),
{
    let first = results[0].values@;
    assert forall|i: int| 0 <= i < first.len() implies {
        &&& (#[trigger] meta[i]).data_type == first[i].data_type
        &&& meta[i].shape@ == first[i].shape@.update(0, output_items(results, i, (k + 1) as nat) as i64)
    } by {
        lemma_items_so_far(told, results, room, k, i);
        assert(told[i].data_type == first[i].data_type);
        assert(meta[i].shape@ =~= first[i].shape@.update(0, output_items(results, i, (k + 1) as nat) as i64));
    }
}

/// Where the answer to a request will come from: a reservation for every batch
/// that it was cut into.
pub struct InferenceResponse {
    pub outputs: ReservationList,
}

impl InferenceResponse {
    pub fn new() -> (r: InferenceResponse)
        ensures
            r.outputs@ == Seq::<WriteReservation>::empty(),
    {
        let r = InferenceResponse { outputs: new_list() };
        assert(r.outputs@ =~= Seq::<WriteReservation>::empty());
        r
    }

    pub fn push(&mut self, reservation: WriteReservation)
        ensures
            final(self).outputs@ == old(self).outputs@.push(reservation),
    {
        push_reservation(&mut self.outputs, reservation);
    }

    /// Number of batches to wait for.
    pub fn len(&self) -> (r: usize)
        ensures
            r == self.outputs@.len(),
    {
        count_reservations(&self.outputs)
    }

    /// The slots to wait for in the `i`-th batch.
    pub fn reservation(&self, i: usize) -> (r: WriteReservation)
        requires
            i < self.outputs@.len(),
        ensures
            r == self.outputs@[i as int],
    {
        reservation_at(&self.outputs, i)
    }

    /// Puts what the batches gave together: the bytes of each output one batch
    /// behind the other, and the shapes with dimension 0 added up. The times
    /// are those of the first batch.
    pub fn get_data(&self, results: &Vec<BatchOutput>, data: &mut Vec<Vec<u8>>) -> (r: (Vec<OutputMeta>, ExecutionTrace))
        requires
            results@.len() == self.outputs@.len(),
            can_merge(results@, old(data)@.len()),
        ensures
            are_bytes(final(data)@, old(data)@, results@, results@.len()),
            is_merged(r.0@, results@, results@.len()),
            r.1 == results@[0].trace,
    {
        let ghost before = data@;
        let mut meta: Vec<OutputMeta> = Vec::new();
        for k in 0..results.len()
            invariant
                before == old(data)@,
                can_merge(results@, before.len()),
                are_bytes(data@, before, results@, k as nat),
                k > 0 ==> is_merged(meta@, results@, k as nat),
                k == 0 ==> meta@.len() == 0,
        {
            let batch = &results[k];
            let ghost prev = data@;
            if data.len() == 0 {
                add_outputs(data, batch.values.len());
            }
            let ghost mid = data@;
            extend_outputs(data, &batch.values);
            proof {
                lemma_bytes_step(prev, mid, data@, before, results@, k as int);
            }
            if k == 0 {
                meta = first_meta(&batch.values);
            } else {
                let ghost told = meta@;
                proof {
                    lemma_can_add(told, results@, before.len(), k as int);
                }
                add_items(&mut meta, &batch.values);
                proof {
                    lemma_items_step(told, meta@, results@, before.len(), k as int);
                }
            }
        }
        (meta, results[0].trace)
    }
}

/// The bytes of the slots `lo..hi` of a batch, where slot `s` of batch `b` holds
/// `at(b, s)`.
pub open spec fn slot_bytes(at: spec_fn(int, int) -> Seq<u8>, batch: int, lo: int, hi: int) -> Seq<u8>
    decreases hi - lo,
{
    if hi <= lo {
        Seq::empty()
    } else {
        slot_bytes(at, batch, lo, hi - 1) + at(batch, hi - 1)
    }
}

/// The bytes that belong to the first `n` items of a request placed at `pos`.
pub open spec fn item_bytes(
    at: spec_fn(int, int) -> Seq<u8>,
    pos: int,
    n: int,
    ring_size: int,
    batch_size: int,
) -> Seq<u8>
    decreases n,
{
    if n <= 0 {
        Seq::empty()
    } else {
        item_bytes(at, pos, n - 1, ring_size, batch_size) + at(
            ring::batch_of(pos + n - 1, ring_size, batch_size),
            ring::slot_of(pos + n - 1, batch_size),
        )
    }
}

proof fn lemma_stretch_bytes(
    at: spec_fn(int, int) -> Seq<u8>,
    pos: int,
    n: int,
    k: int,
    len: int,
    ring_size: int,
    batch_size: int,
)
    requires
        ring::valid_sizes(ring_size, batch_size),
        0 <= n <= usize::MAX,
        0 <= k < supertensor::batch_writes(pos, n, ring_size, batch_size).len(),
        0 <= len,
        len <= supertensor::batch_writes(pos, n, ring_size, batch_size)[k].data_end
            - supertensor::batch_writes(pos, n, ring_size, batch_size)[k].data_start,
    ensures
        ({
            let write = supertensor::batch_writes(pos, n, ring_size, batch_size)[k];
            item_bytes(at, pos, write.data_start + len, ring_size, batch_size) == item_bytes(
                at,
                pos,
                write.data_start as int,
                ring_size,
                batch_size,
            ) + slot_bytes(at, write.batch_id as int, write.batch_slot as int, write.batch_slot + len)
        }),
    decreases len,
{
    let write = supertensor::batch_writes(pos, n, ring_size, batch_size)[k];
    let start = item_bytes(at, pos, write.data_start as int, ring_size, batch_size);
    if len == 0 {
        assert(start =~= start + slot_bytes(
            at,
            write.batch_id as int,
            write.batch_slot as int,
            write.batch_slot + len,
        ));
    } else {
        lemma_stretch_bytes(at, pos, n, k, len - 1, ring_size, batch_size);
        let i = write.data_start + len - 1;
        supertensor::items_land_on_their_slots(pos, n, k, i, ring_size, batch_size);
        let before = slot_bytes(at, write.batch_id as int, write.batch_slot as int, write.batch_slot + len - 1);
        let item = at(write.batch_id as int, write.batch_slot + len - 1);
        assert(item_bytes(at, pos, i + 1, ring_size, batch_size) =~= (start + before) + item);
        assert((start + before) + item =~= start + (before + item));
    }
}

proof fn lemma_answer_so_far(
    results: Seq<BatchOutput>,
    i: int,
    at: spec_fn(int, int) -> Seq<u8>,
    pos: int,
    n: int,
    k: nat,
    ring_size: int,
    batch_size: int,
)
    requires
        ring::valid_sizes(ring_size, batch_size),
        0 <= n <= usize::MAX,
        0 <= i,
        k <= results.len(),
        results.len() == supertensor::batch_writes(pos, n, ring_size, batch_size).len(),
        forall|j: int|
            0 <= j < results.len() ==> is_slice(
                #[trigger] results[j],
                i,
                at,
                supertensor::batch_writes(pos, n, ring_size, batch_size)[j],
            ),
        0 < k,
    ensures
        output_bytes(results, i, k) == item_bytes(
            at,
            pos,
            supertensor::batch_writes(pos, n, ring_size, batch_size)[k - 1].data_end as int,
            ring_size,
            batch_size,
        ),
    decreases k,
{
    let writes = supertensor::batch_writes(pos, n, ring_size, batch_size);
    supertensor::writes_cover_the_request(pos, n, ring_size, batch_size);
    let write = writes[k - 1];
    assert(is_slice(results[k - 1], i, at, write));
    assert(write.end - write.batch_slot == write.data_end - write.data_start);
    lemma_stretch_bytes(at, pos, n, k - 1, write.data_end - write.data_start, ring_size, batch_size);
    assert(output_bytes(results, i, 0) =~= item_bytes(at, pos, 0, ring_size, batch_size));
    if k > 1 {
        lemma_answer_so_far(results, i, at, pos, n, (k - 1) as nat, ring_size, batch_size);
        assert(writes[k - 2].data_end == writes[k - 1].data_start);
    }
}

/// Output `i` of a batch gives the request the bytes of the slots it wrote.
pub open spec fn is_slice(
    result: BatchOutput,
    i: int,
    at: spec_fn(int, int) -> Seq<u8>,
    write: supertensor::BatchWrite,
) -> bool {
    &&& i < result.values@.len()
    &&& result.values@[i].bytes@ == slot_bytes(
        at,
        write.batch_id as int,
        write.batch_slot as int,
        write.end as int,
    )
}

/// A client gets back what belongs to its own items, in the order in which it
/// sent them, however the request was cut up: where slot `s` of batch `b` holds
/// `at(b, s)` of output `i`, and each batch gives the request the bytes of the
/// slots that it wrote.
pub proof fn answers_follow_the_request(
    results: Seq<BatchOutput>,
    i: int,
    at: spec_fn(int, int) -> Seq<u8>,
    pos: int,
    n: int,
    ring_size: int,
    batch_size: int,
)
    requires
        ring::valid_sizes(ring_size, batch_size),
        0 <= n <= usize::MAX,
        0 <= i,
        results.len() == supertensor::batch_writes(pos, n, ring_size, batch_size).len(),
        forall|j: int|
            0 <= j < results.len() ==> is_slice(
                #[trigger] results[j],
                i,
                at,
                supertensor::batch_writes(pos, n, ring_size, batch_size)[j],
            ),
    ensures
        output_bytes(results, i, results.len()) == item_bytes(at, pos, n, ring_size, batch_size),
{
    supertensor::writes_cover_the_request(pos, n, ring_size, batch_size);
    lemma_answer_so_far(results, i, at, pos, n, results.len(), ring_size, batch_size);
}

/// Where the items `start..end` of a tensor lie in its memory, with `item_bytes`
/// bytes to an item: from which byte on, and up to which.
pub fn byte_range(start: usize, end: usize, item_bytes: usize) -> (r: (usize, usize))
    requires
        start <= end,
        end * item_bytes <= usize::MAX,
    ensures
        r.0 == start * item_bytes,
        r.1 == end * item_bytes,
{
    assert(start * item_bytes <= end * item_bytes) by (nonlinear_arith)
        requires
            start <= end,
    ;
    (start * item_bytes, end * item_bytes)
}

/// The items of tensors with `item_bytes` bytes to an item: what slot `s` of batch
/// `b` holds.
pub open spec fn items_of(tensors: spec_fn(int) -> Seq<u8>, item_bytes: int) -> spec_fn(int, int) -> Seq<u8> {
    |b: int, s: int| tensors(b).subrange(s * item_bytes, (s + 1) * item_bytes)
}

/// The bytes cut out of a batch for a request are those of the slots it wrote.
pub proof fn cuts_hold_the_slots(
    tensors: spec_fn(int) -> Seq<u8>,
    item_bytes: int,
    batch: int,
    start: int,
    end: int,
)
    requires
        0 <= start <= end,
        0 <= item_bytes,
        end * item_bytes <= tensors(batch).len(),
    ensures
        tensors(batch).subrange(start * item_bytes, end * item_bytes) == slot_bytes(
            items_of(tensors, item_bytes),
            batch,
            start,
            end,
        ),
    decreases end - start,
{
    let tensor = tensors(batch);
    assert(0 <= start * item_bytes <= end * item_bytes) by (nonlinear_arith)
        requires
            0 <= start <= end,
            0 <= item_bytes,
    ;
    if start < end {
        assert((end - 1) * item_bytes == end * item_bytes - item_bytes) by (nonlinear_arith);
        assert(start * item_bytes <= (end - 1) * item_bytes) by (nonlinear_arith)
            requires
                start <= end - 1,
                0 <= item_bytes,
        ;
        cuts_hold_the_slots(tensors, item_bytes, batch, start, end - 1);
        let before = tensor.subrange(start * item_bytes, (end - 1) * item_bytes);
        let last = tensor.subrange((end - 1) * item_bytes, end * item_bytes);
        assert((items_of(tensors, item_bytes))(batch, end - 1) == last);
        assert(tensor.subrange(start * item_bytes, end * item_bytes) =~= before + last);
    } else {
        assert(tensor.subrange(start * item_bytes, end * item_bytes) =~= Seq::<u8>::empty());
    }
}

proof fn lemma_outputs_of_front(a: Seq<BatchOutput>, b: Seq<BatchOutput>, i: int, n: nat)
    requires
        n <= a.len(),
    ensures
        output_bytes(a + b, i, n) == output_bytes(a, i, n),
        output_items(a + b, i, n) == output_items(a, i, n),
    decreases n,
{
    if n > 0 {
        lemma_outputs_of_front(a, b, i, (n - 1) as nat);
        assert((a + b)[n - 1] == a[n - 1]);
    }
}

proof fn lemma_outputs_follow(a: Seq<BatchOutput>, b: Seq<BatchOutput>, i: int, n: nat)
    requires
        n <= b.len(),
    ensures
        output_bytes(a + b, i, a.len() + n) == output_bytes(a, i, a.len()) + output_bytes(b, i, n),
        output_items(a + b, i, a.len() + n) == output_items(a, i, a.len()) + output_items(b, i, n),
    decreases n,
{
    let all = a + b;
    let front = output_bytes(a, i, a.len());
    if n == 0 {
        lemma_outputs_of_front(a, b, i, a.len());
        assert(front + output_bytes(b, i, 0) =~= front);
    } else {
        let m = (n - 1) as nat;
        lemma_outputs_follow(a, b, i, m);
        assert(all[a.len() + n - 1] == b[n - 1]);
        assert((a.len() + n - 1) as nat == a.len() + m);
        if i < b[n - 1].values@.len() {
            let bytes = b[n - 1].values@[i].bytes@;
            assert((front + output_bytes(b, i, m)) + bytes =~= front + (output_bytes(b, i, m) + bytes));
        }
    }
}

/// What batches give for an output comes one batch behind the other, and their
/// items add up: a single batch gives its own bytes and items, or none where it
/// lacks the output, and batches behind others give what they give alone.
pub proof fn outputs_follow_one_another(a: Seq<BatchOutput>, b: Seq<BatchOutput>, result: BatchOutput, i: int)
    requires
        0 <= i,
    ensures
        output_bytes(a + b, i, (a + b).len()) == output_bytes(a, i, a.len()) + output_bytes(b, i, b.len()),
        output_items(a + b, i, (a + b).len()) == output_items(a, i, a.len()) + output_items(b, i, b.len()),
        output_bytes(seq![result], i, 1) == (if i < result.values@.len() {
            result.values@[i].bytes@
        } else {
            Seq::empty()
        }),
        output_items(seq![result], i, 1) == (if i < result.values@.len() {
            result.values@[i].shape@[0] as int
        } else {
            0
        }),
{
    lemma_outputs_follow(a, b, i, b.len());
    let one = seq![result];
    assert(output_bytes(one, i, 0) == Seq::<u8>::empty());
    assert(output_items(one, i, 0) == 0);
    assert(one[0] == result);
    assert(output_bytes(one, i, 1) =~= (if i < result.values@.len() {
        result.values@[i].bytes@
    } else {
        Seq::empty()
    }));
}

/// An answer has every output of the first batch, with its type and its other
/// dimensions, with the items of all batches, and with the bytes of all batches
/// behind what was there before.
pub proof fn answers_hold_every_batch(
    meta: Seq<OutputMeta>,
    data: Seq<Vec<u8>>,
    before: Seq<Vec<u8>>,
    results: Seq<BatchOutput>,
    i: int,
    d: int,
)
    requires
        can_merge(results, before.len()),
        is_merged(meta, results, results.len()),
        are_bytes(data, before, results, results.len()),
        0 <= i < results[0].values@.len(),
    ensures
        meta.len() == results[0].values@.len(),
        meta[i].data_type == results[0].values@[i].data_type,
        meta[i].shape@.len() == results[0].values@[i].shape@.len(),
        0 < d < meta[i].shape@.len() ==> meta[i].shape@[d] == results[0].values@[i].shape@[d],
        meta[i].shape@.len() > 0 ==> meta[i].shape@[0] == output_items(results, i, results.len()),
        data.len() == (if before.len() == 0 {
            meta.len()
        } else {
            before.len()
        }),
        before.len() == 0 ==> data[i]@ == output_bytes(results, i, results.len()),
        before.len() > 0 ==> data[i]@.take(before[i]@.len() as int) == before[i]@,
        before.len() > 0 ==> data[i]@.skip(before[i]@.len() as int) == output_bytes(results, i, results.len()),
{
    assert(meta[i].data_type == results[0].values@[i].data_type);
    if results.len() > 1 {
        assert(i64::MIN <= output_items(results, i, results.len()) <= i64::MAX);
        assert(results[0].values@[i].shape@.len() > 0);
    } else {
        assert(output_items(results, i, 0) == 0);
        assert(output_items(results, i, 1) == results[0].values@[i].shape@[0]);
    }
    if before.len() > 0 {
        let bytes = output_bytes(results, i, results.len());
        assert(data[i]@ == before[i]@ + bytes);
        assert(data[i]@.take(before[i]@.len() as int) =~= before[i]@);
        assert(data[i]@.skip(before[i]@.len() as int) =~= bytes);
    }
}

/// Outputs that the first batch does not have are left as they were.
pub proof fn other_outputs_stay(data: Seq<Vec<u8>>, before: Seq<Vec<u8>>, results: Seq<BatchOutput>, i: int)
    requires
        can_merge(results, before.len()),
        are_bytes(data, before, results, results.len()),
        results[0].values@.len() <= i < before.len(),
    ensures
        data[i]@ == before[i]@,
{
    lemma_no_bytes(results, before.len(), i, results.len());
    assert(data[i]@ =~= before[i]@);
}

proof fn lemma_no_bytes(results: Seq<BatchOutput>, room: nat, i: int, n: nat)
    requires
        can_merge(results, room),
        results[0].values@.len() <= i,
        n <= results.len(),
    ensures
        output_bytes(results, i, n) == Seq::<u8>::empty(),
    decreases n,
{
    if n > 0 {
        lemma_no_bytes(results, room, i, (n - 1) as nat);
        assert(results[n - 1].values@.len() <= results[0].values@.len());
    }
}

/// A request is answered with every output of its first batch, as it came from all
/// of its batches: the type and the other dimensions are those of the first, the
/// items are added up, the bytes follow one another behind what was there before,
/// and the times are those of the first.
pub proof fn requests_get_every_batch(
    response: &InferenceResponse,
    results: &Vec<BatchOutput>,
    data: &mut Vec<Vec<u8>>,
    r: (Vec<OutputMeta>, ExecutionTrace),
    i: int,
    d: int,
)
    requires
        call_ensures(InferenceResponse::get_data, (response, results, data), r),
        can_merge(results@, old(data)@.len()),
        0 <= i < results@[0].values@.len(),
    ensures
        ({
            let first = results@[0].values@;
            let meta = r.0@;
            let bytes = output_bytes(results@, i, results@.len());
            let before = old(data)@;
            &&& meta.len() == first.len()
            &&& meta[i].data_type == first[i].data_type
            &&& meta[i].shape@.len() == first[i].shape@.len()
            &&& 0 < d < first[i].shape@.len() ==> meta[i].shape@[d] == first[i].shape@[d]
            &&& first[i].shape@.len() > 0 ==> meta[i].shape@[0] == output_items(results@, i, results@.len())
            &&& before.len() == 0 ==> final(data)@.len() == first.len() && final(data)@[i]@ == bytes
            &&& before.len() > 0 ==> final(data)@.len() == before.len() && final(data)@[i]@ == before[i]@ + bytes
            &&& r.1 == results@[0].trace
        }),
{
    answers_hold_every_batch(r.0@, final(data)@, old(data)@, results@, i, d);
}

/// The bytes of items lie one behind the other: those of a stretch begin where those
/// of the stretch before end, and an item takes as many bytes as it has.
pub proof fn items_lie_one_behind_the_other(
    start: usize,
    middle: usize,
    end: usize,
    item_bytes: usize,
    a: (usize, usize),
    b: (usize, usize),
)
    requires
        call_ensures(byte_range, (start, middle, item_bytes), a),
        call_ensures(byte_range, (middle, end, item_bytes), b),
    ensures
        a.1 == b.0,
        start == 0 ==> a.0 == 0,
        middle == start + 1 ==> a.1 - a.0 == item_bytes,
        a.1 - a.0 == (middle - start) * item_bytes,
{
    assert(middle * item_bytes - start * item_bytes == (middle - start) * item_bytes) by (nonlinear_arith);
    if middle == start + 1 {
        assert((middle - start) * item_bytes == item_bytes) by (nonlinear_arith)
            requires
                middle == start + 1,
        ;
    }
    assert(0 * item_bytes == 0);
}

/// Reservations are kept in order, however many there are: one that is added comes
/// last, and those before it stay.
pub proof fn reservations_are_kept(
    response: &mut InferenceResponse,
    added: WriteReservation,
    after: &InferenceResponse,
    len: usize,
    i: usize,
    r: WriteReservation,
)
    requires
        call_ensures(InferenceResponse::push, (response, added), ()),
        *after == *final(response),
        call_ensures(InferenceResponse::len, (after,), len),
        call_ensures(InferenceResponse::reservation, (after, i), r),
    ensures
        len == old(response).outputs@.len() + 1,
        i == old(response).outputs@.len() ==> r == added,
        i < old(response).outputs@.len() ==> r == old(response).outputs@[i as int],
{
}

/// Batches can be put together, however many there are, where each has the outputs of
/// the first with a dimension 0, there is room for them, and the items of no output
/// are too many.
pub proof fn like_batches_can_be_put_together(results: Seq<BatchOutput>, room: nat)
    requires
        results.len() > 0,
        room == 0 || results[0].values@.len() <= room,
        forall|k: int| 0 <= k < results.len() ==> (#[trigger] results[k]).values@.len() == results[0].values@.len(),
        forall|k: int, i: int|
            0 <= k < results.len() && 0 <= i < results[k].values@.len() ==> (#[trigger] results[k].values@[i]).shape@.len()
                > 0,
        forall|i: int, n: nat|
            0 <= i < results[0].values@.len() && n <= results.len() ==> i64::MIN <= #[trigger] output_items(
                results,
                i,
                n,
            ) <= i64::MAX,
    ensures
        can_merge(results, room),
{
}

}
