//! Index arithmetic of the batch ring.
//!
//! The ring holds `capacity` batches of `batch_size` slots. Positions are
//! counters that only grow and wrap around at the width of `usize`; both sizes
//! are powers of two, so a position is reduced to its batch and slot by masks.
use vstd::arithmetic::div_mod::*;
use vstd::arithmetic::mul::*;
use vstd::arithmetic::power::*;
use vstd::arithmetic::power2::*;
use vstd::bits::*;
use vstd::prelude::*;

verus! {

/// Half of the counter range: two counters less than this apart are ordered by
/// their wrapped difference.
pub const HALF_RANGE: usize = usize::MAX / 2;

/// Number of values a counter runs through before it wraps.
pub open spec fn wrap_size() -> int {
    usize::MAX + 1
}

/// The counter value that stands for the unbounded position `x`.
pub open spec fn wrap(x: int) -> usize {
    (x % wrap_size()) as usize
}

/// Slot of position `i` inside its batch.
pub open spec fn slot_of(i: int, batch_size: int) -> int {
    i % batch_size
}

/// Batch of the ring that position `i` falls into.
pub open spec fn batch_of(i: int, ring_size: int, batch_size: int) -> int {
    (i % ring_size) / batch_size
}

/// The sizes the ring can be built with.
pub open spec fn valid_sizes(ring_size: int, batch_size: int) -> bool {
    &&& is_pow2(ring_size)
    &&& is_pow2(batch_size)
    &&& batch_size <= ring_size <= usize::MAX
}

pub proof fn lemma_pow2_test(n: usize)
    requires
        n > 0,
    ensures
        (n & ((n - 1) as usize) == 0) <==> is_pow2(n as int),
    decreases n,
{
    reveal(is_pow2);
    if n == 1 {
        assert(1usize & 0usize == 0) by (bit_vector);
    } else if n % 2 == 0 {
        lemma_pow2_test(n / 2);
        assert((n & ((n - 1) as usize) == 0) <==> ((n / 2) & ((n / 2 - 1) as usize) == 0)) by (bit_vector)
            requires
                n % 2 == 0,
                n > 1,
        ;
    } else {
        assert(n & ((n - 1) as usize) != 0) by (bit_vector)
            requires
                n % 2 == 1,
                n > 1,
        ;
    }
}

/// A power of two is the base of its mask: masking with one less is reducing
/// modulo the power.
pub proof fn lemma_mask_is_mod(x: usize, m: usize)
    requires
        is_pow2(m as int),
    ensures
        m > 0,
        x & ((m - 1) as usize) == x % m,
{
    is_pow2_equiv(m as int);
    let k = choose|i: nat| pow(2, i) == m;
    lemma_pow2_positive(m as int);
    assert(pow2(k) == m);
    if k >= usize::BITS {
        lemma_wrap_size_is_pow2();
        lemma_pow_increases(2, usize::BITS as nat, k);
        assert(false);
    }
    lemma_usize_low_bits_mask_is_mod(x, k);
}

pub proof fn lemma_pow2_positive(n: int)
    requires
        is_pow2(n),
    ensures
        n > 0,
{
    reveal(is_pow2);
}

proof fn lemma_wrap_size_is_pow2()
    ensures
        is_pow2(wrap_size()),
        pow(2, usize::BITS as nat) == wrap_size(),
{
    lemma2_to64();
    assert(usize::BITS == 32 || usize::BITS == 64);
    assert(pow2(usize::BITS as nat) == wrap_size());
    lemma_pow2(usize::BITS as nat);
    assert(pow(2, usize::BITS as nat) == wrap_size());
    is_pow2_equiv(wrap_size());
}

/// The smaller of two powers of two divides the larger one.
pub proof fn lemma_pow2_divides(a: int, b: int)
    requires
        is_pow2(a),
        is_pow2(b),
        a <= b,
    ensures
        a > 0,
        b % a == 0,
        b == a * (b / a),
    decreases a,
{
    reveal(is_pow2);
    if a == 1 {
    } else {
        lemma_pow2_divides(a / 2, b / 2);
        let q = (b / 2) / (a / 2);
        assert(b == 2 * (b / 2));
        assert(a == 2 * (a / 2));
        assert(b == a * q) by (nonlinear_arith)
            requires
                b == 2 * (b / 2),
                a == 2 * (a / 2),
                b / 2 == (a / 2) * q,
        ;
        lemma_fundamental_div_mod_converse(b, a, q, 0);
    }
}

/// The ring sizes divide the counter range and each other.
pub proof fn lemma_sizes_divide(ring_size: int, batch_size: int)
    requires
        valid_sizes(ring_size, batch_size),
    ensures
        batch_size > 0,
        ring_size > 0,
        ring_size % batch_size == 0,
        ring_size == batch_size * (ring_size / batch_size),
        wrap_size() % ring_size == 0,
        wrap_size() == ring_size * (wrap_size() / ring_size),
        wrap_size() % batch_size == 0,
        wrap_size() == batch_size * (wrap_size() / batch_size),
{
    lemma_wrap_size_is_pow2();
    lemma_pow2_divides(batch_size, ring_size);
    lemma_pow2_divides(ring_size, wrap_size());
    lemma_pow2_divides(batch_size, wrap_size());
}

/// Reducing modulo a multiple first changes nothing.
pub proof fn lemma_mod_of_multiple(x: int, big: int, small: int)
    requires
        small > 0,
        big > 0,
        big % small == 0,
    ensures
        (x % big) % small == x % small,
{
    lemma_fundamental_div_mod(big, small);
    let q = big / small;
    assert(q > 0) by (nonlinear_arith)
        requires
            big == small * q,
            big > 0,
            small > 0,
    ;
    lemma_mod_mod(x, small, q);
}

/// Wrapping a position keeps the batch and slot it stands for.
pub proof fn lemma_wrap_keeps_place(x: int, ring_size: int, batch_size: int)
    requires
        valid_sizes(ring_size, batch_size),
    ensures
        slot_of(wrap(x) as int, batch_size) == slot_of(x, batch_size),
        batch_of(wrap(x) as int, ring_size, batch_size) == batch_of(x, ring_size, batch_size),
{
    lemma_sizes_divide(ring_size, batch_size);
    lemma_mod_bound(x, wrap_size());
    lemma_mod_of_multiple(x, wrap_size(), ring_size);
    lemma_mod_of_multiple(x, wrap_size(), batch_size);
}

/// Adding to the wrapped counter is wrapping the sum.
pub proof fn lemma_wrap_add(x: int, n: usize)
    ensures
        wrap(x).wrapping_add(n) == wrap(x + n),
{
    lemma_mod_bound(x, wrap_size());
    lemma_mod_bound(x + n, wrap_size());
    lemma_add_mod_noop(x, n as int, wrap_size());
    lemma_small_mod(n as nat, wrap_size() as nat);
    let s = x % wrap_size() + n;
    if s < wrap_size() {
        lemma_small_mod(s as nat, wrap_size() as nat);
    } else {
        lemma_mod_sub_multiples_vanish(s, wrap_size());
        lemma_small_mod((s - wrap_size()) as nat, wrap_size() as nat);
    }
}

/// The wrapped difference of two positions that are less than the counter
/// range apart is their true distance.
pub proof fn lemma_wrap_sub(x: int, y: int)
    requires
        0 <= x - y < wrap_size(),
    ensures
        wrap(x).wrapping_sub(wrap(y)) == x - y,
{
    lemma_mod_bound(x, wrap_size());
    lemma_mod_bound(y, wrap_size());
    lemma_fundamental_div_mod(x, wrap_size());
    lemma_fundamental_div_mod(y, wrap_size());
    let a = x / wrap_size();
    let b = y / wrap_size();
    let w = wrap_size();
    assert(w * a - w * b == w * (a - b)) by (nonlinear_arith);
    assert(a - b == 0 || a - b == 1) by (nonlinear_arith)
        requires
            w > 0,
            -w < w * (a - b) < 2 * w,
    ;
    assert(w * (a - b) == 0 || w * (a - b) == w) by (nonlinear_arith)
        requires
            a - b == 0 || a - b == 1,
    ;
}

/// The wrapped difference taken the other way round wraps.
pub proof fn lemma_wrap_sub_behind(x: int, y: int)
    requires
        0 < y - x < wrap_size(),
    ensures
        wrap(x).wrapping_sub(wrap(y)) == wrap_size() - (y - x),
{
    lemma_wrap_sub(y, x);
    lemma_mod_bound(x, wrap_size());
    lemma_mod_bound(y, wrap_size());
}

/// Positions closer together than the ring size have places of their own.
pub proof fn lemma_places_distinct(x: int, y: int, ring_size: int, batch_size: int)
    requires
        valid_sizes(ring_size, batch_size),
        x < y < x + ring_size,
    ensures
        batch_of(x, ring_size, batch_size) != batch_of(y, ring_size, batch_size) || slot_of(x, batch_size)
            != slot_of(y, batch_size),
{
    lemma_sizes_divide(ring_size, batch_size);
    let p = x % ring_size;
    let q = y % ring_size;
    if batch_of(x, ring_size, batch_size) == batch_of(y, ring_size, batch_size) && slot_of(x, batch_size) == slot_of(
        y,
        batch_size,
    ) {
        lemma_mod_of_multiple(x, ring_size, batch_size);
        lemma_mod_of_multiple(y, ring_size, batch_size);
        lemma_fundamental_div_mod(p, batch_size);
        lemma_fundamental_div_mod(q, batch_size);
        assert(p == q);
        lemma_mod_equivalence(y, x, ring_size);
        lemma_small_mod((y - x) as nat, ring_size as nat);
        assert(false);
    }
}

/// Wrapping arithmetic on counters is arithmetic on positions, wrapped.
pub proof fn lemma_wrapping_ops(x: usize, y: usize)
    ensures
        x.wrapping_add(y) == wrap(x + y),
        x.wrapping_sub(y) == wrap(x - y),
{
    let w = wrap_size();
    if x + y < w {
        lemma_small_mod((x + y) as nat, w as nat);
    } else {
        lemma_mod_sub_multiples_vanish(x + y, w);
        lemma_small_mod((x + y - w) as nat, w as nat);
    }
    if x >= y {
        lemma_small_mod((x - y) as nat, w as nat);
    } else {
        lemma_mod_add_multiples_vanish(x - y, w);
        lemma_small_mod((x - y + w) as nat, w as nat);
    }
}

/// A counter value stands for itself.
pub proof fn lemma_wrap_small(x: usize)
    ensures
        wrap(x as int) == x,
{
    lemma_small_mod(x as nat, wrap_size() as nat);
}

/// Wrapping the first of two positions before taking their difference changes
/// nothing.
pub proof fn lemma_wrap_of_wrapped(x: int, y: int)
    ensures
        wrap(wrap(x) - y) == wrap(x - y),
        wrap(x - wrap(y)) == wrap(x - y),
{
    lemma_mod_bound(x, wrap_size());
    lemma_mod_bound(y, wrap_size());
    lemma_sub_mod_noop(x, y, wrap_size());
    lemma_sub_mod_noop(x % wrap_size(), y, wrap_size());
    lemma_sub_mod_noop(x, y % wrap_size(), wrap_size());
    lemma_mod_twice(x, wrap_size());
    lemma_mod_twice(y, wrap_size());
}

pub fn is_power_of_two(n: usize) -> (r: bool)
    ensures
        r == is_pow2(n as int),
{
    proof {
        reveal(is_pow2);
        if n > 0 {
            lemma_pow2_test(n);
        }
    }
    n != 0 && (n & (n - 1)) == 0
}

/// A position in the ring together with the masks that reduce it.
#[derive(Clone, Copy, Debug, PartialEq, Eq, Structural)]
pub struct RingBufferIndex {
    /// Absolute index on the ring, wrapped at the width of `usize`.
    pub index: usize,
    /// Mask for the full ring: one less than `batch_size * capacity`.
    pub ring_mask: usize,
    /// Mask to get the position within the batch: one less than `batch_size`.
    pub batch_mask: usize,
    pub batch_size: usize,
}

impl RingBufferIndex {
    pub open spec fn ring_size(self) -> int {
        self.ring_mask + 1
    }

    pub open spec fn wf(self) -> bool {
        &&& valid_sizes(self.ring_size(), self.batch_size as int)
        &&& self.batch_mask == self.batch_size - 1
    }

    /// Get the absolute index, useful for operating on the ring itself.
    pub fn as_absolute_index(&self) -> (r: usize)
        ensures
            r == self.index,
    {
        self.index
    }

    /// Slot 0 of the next batch, as an absolute index.
    pub fn as_absolute_batch_higher_bound(&self) -> (r: usize)
        requires
            self.wf(),
        ensures
            r == wrap(self.index - slot_of(self.index as int, self.batch_size as int) + self.batch_size),
    {
        let lower = self.as_absolute_batch_lower_bound();
        proof {
            lemma_wrapping_ops(lower, self.batch_size);
        }
        lower.wrapping_add(self.batch_size)
    }

    /// Slot 0 of the current batch, as an absolute index.
    pub fn as_absolute_batch_lower_bound(&self) -> (r: usize)
        requires
            self.wf(),
        ensures
            r == self.index - slot_of(self.index as int, self.batch_size as int),
    {
        let slot = self.as_batch_slot_id();
        proof {
            lemma_pow2_positive(self.batch_size as int);
            lemma_mod_decreases(self.index as nat, self.batch_size as nat);
        }
        self.index.wrapping_sub(slot)
    }

    /// The batch of the ring that this index falls into.
    pub fn as_batch_id(&self) -> (r: usize)
        requires
            self.wf(),
        ensures
            r == batch_of(self.index as int, self.ring_size(), self.batch_size as int),
            r < self.ring_size() / self.batch_size as int,
    {
        proof {
            lemma_sizes_divide(self.ring_size(), self.batch_size as int);
            lemma_mask_is_mod(self.index, (self.ring_mask + 1) as usize);
            lemma_mod_bound(self.index as int, self.ring_size());
            lemma_multiply_divide_lt(
                self.index as int % self.ring_size(),
                self.batch_size as int,
                self.ring_size() / self.batch_size as int,
            );
        }
        (self.index & self.ring_mask) / self.batch_size
    }

    /// The slot inside the batch that this index falls into.
    pub fn as_batch_slot_id(&self) -> (r: usize)
        requires
            self.wf(),
        ensures
            r == slot_of(self.index as int, self.batch_size as int),
            r < self.batch_size,
    {
        proof {
            lemma_mask_is_mod(self.index, self.batch_size);
        }
        self.index & self.batch_mask
    }

    /// Distance from `other` to this index, modulo the counter range.
    pub fn wrapping_sub(&self, other: &RingBufferIndex) -> (r: usize)
        ensures
            r == wrap(self.index - other.index),
    {
        proof {
            lemma_wrapping_ops(self.index, other.index);
        }
        self.index.wrapping_sub(other.index)
    }

    /// The absolute index `rhs` slots further on.
    pub fn wrapping_add(&self, rhs: usize) -> (r: usize)
        ensures
            r == wrap(self.index + rhs),
    {
        proof {
            lemma_wrapping_ops(self.index, rhs);
        }
        self.index.wrapping_add(rhs)
    }
}

/// One of the three counters of the ring, with the masks that go with it.
///
/// The counter is plain data: whoever shares a ring between threads holds the
/// lock around it, so every method here is one atomic step.
pub struct PaddedAtomic {
    pub value: usize,
    pub ring_mask: usize,
    pub batch_mask: usize,
    pub batch_size: usize,
}

impl PaddedAtomic {
    pub open spec fn ring_size(self) -> int {
        self.ring_mask + 1
    }

    pub open spec fn wf(self) -> bool {
        &&& valid_sizes(self.ring_size(), self.batch_size as int)
        &&& self.batch_mask == self.batch_size - 1
    }

    /// The index `i` on the ring of this counter.
    pub open spec fn index_at(self, i: usize) -> RingBufferIndex {
        RingBufferIndex {
            index: i,
            ring_mask: self.ring_mask,
            batch_mask: self.batch_mask,
            batch_size: self.batch_size,
        }
    }

    /// This counter with another value.
    pub open spec fn with_value(self, value: usize) -> PaddedAtomic {
        PaddedAtomic { value, ..self }
    }

    pub fn new(value: usize, capacity: usize, batch_size: usize) -> (r: PaddedAtomic)
        requires
            is_pow2(capacity as int),
            is_pow2(batch_size as int),
            capacity * batch_size <= usize::MAX,
        ensures
            r.wf(),
            r.value == value,
            r.ring_size() == capacity * batch_size,
            r.batch_size == batch_size,
    {
        proof {
            lemma_pow2_product(capacity as int, batch_size as int);
        }
        PaddedAtomic {
            value,
            ring_mask: capacity * batch_size - 1,
            batch_mask: batch_size - 1,
            batch_size,
        }
    }

    /// The current position.
    pub fn load(&self) -> (r: RingBufferIndex)
        ensures
            r == self.index_at(self.value),
            self.wf() ==> r.wf(),
    {
        self.index_at_exec(self.value)
    }

    fn index_at_exec(&self, index: usize) -> (r: RingBufferIndex)
        ensures
            r == self.index_at(index),
    {
        RingBufferIndex {
            index,
            ring_mask: self.ring_mask,
            batch_mask: self.batch_mask,
            batch_size: self.batch_size,
        }
    }

    /// Moves the counter to `new` if it still stands at `current`; hands back
    /// the value it found.
    pub fn compare_exchange_weak(&mut self, current: usize, new: usize) -> (r: Result<usize, usize>)
        ensures
            old(self).value == current ==> r == Ok::<usize, usize>(current) && *final(self) == old(self).with_value(
                new,
            ),
            old(self).value != current ==> r == Err::<usize, usize>(old(self).value) && *final(self) == *old(self),
    {
        if self.value == current {
            self.value = new;
            Ok(current)
        } else {
            Err(self.value)
        }
    }

    /// Moves the counter on by `n` and hands back where it stood.
    pub fn fetch_add(&mut self, n: usize) -> (r: usize)
        ensures
            r == old(self).value,
            *final(self) == old(self).with_value(wrap(old(self).value + n)),
    {
        let found = self.value;
        proof {
            lemma_wrapping_ops(found, n);
        }
        self.value = found.wrapping_add(n);
        found
    }
}

/// The product of two powers of two is one, and each factor divides it.
pub proof fn lemma_pow2_product(a: int, b: int)
    requires
        is_pow2(a),
        is_pow2(b),
    ensures
        is_pow2(a * b),
        0 < a <= a * b,
        0 < b <= a * b,
        (a * b) / b == a,
{
    lemma_pow2_positive(a);
    lemma_pow2_positive(b);
    is_pow2_equiv(a);
    is_pow2_equiv(b);
    let i = choose|i: nat| pow(2, i) == a;
    let j = choose|j: nat| pow(2, j) == b;
    lemma_pow_adds(2, i, j);
    assert(pow(2, i + j) == a * b);
    is_pow2_equiv(a * b);
    lemma_mul_increases(b, a);
    lemma_mul_increases(a, b);
    lemma_mul_is_commutative(a, b);
    lemma_div_by_multiple(a, b);
}

/// Positions are counted through the batches of a ring: position `s` behind the
/// start of batch number `b` is slot `s` of that batch, and the batches come
/// round again after `capacity` of them. Counters run through every value before
/// they come round, and half of the values are ahead of any of them.
pub proof fn positions_go_through_the_ring(capacity: int, batch_size: int, b: int, s: int, x: int)
    requires
        0 < capacity,
        0 < batch_size,
        0 <= b,
        0 <= s < batch_size,
    ensures
        slot_of(b * batch_size + s, batch_size) == s,
        batch_of(b * batch_size + s, capacity * batch_size, batch_size) == b % capacity,
        0 <= x <= usize::MAX ==> wrap(x) == x,
        wrap(x + usize::MAX + 1) == wrap(x),
        HALF_RANGE + HALF_RANGE + 1 == usize::MAX,
{
    let i = b * batch_size + s;
    lemma_fundamental_div_mod_converse(i, batch_size, b, s);
    lemma_mul_nonnegative(b, batch_size);
    lemma_mod_breakdown(i, batch_size, capacity);
    lemma_mul_is_commutative(capacity, batch_size);
    lemma_mod_bound(b, capacity);
    assert(i % (capacity * batch_size) == batch_size * (b % capacity) + s);
    lemma_mul_is_commutative(batch_size, b % capacity);
    lemma_fundamental_div_mod_converse(batch_size * (b % capacity) + s, batch_size, b % capacity, s);
    if 0 <= x <= usize::MAX {
        lemma_small_mod(x as nat, wrap_size() as nat);
    }
    lemma_mod_add_multiples_vanish(x, wrap_size());
}

/// An index is reduced to its place: where it stands for slot `s` of batch number
/// `b`, it is in the batch that comes to after so many laps, at slot `s`, and its
/// batch reaches from its slot 0 to that of the next.
pub proof fn indexes_are_reduced(
    index: &RingBufferIndex,
    capacity: int,
    b: int,
    s: int,
    batch_id: usize,
    slot_id: usize,
    lower: usize,
    higher: usize,
)
    requires
        index.wf(),
        index.ring_size() == capacity * index.batch_size,
        0 < capacity,
        0 <= b,
        0 <= s < index.batch_size,
        index.index == wrap(b * index.batch_size + s),
        call_ensures(RingBufferIndex::as_batch_id, (index,), batch_id),
        call_ensures(RingBufferIndex::as_batch_slot_id, (index,), slot_id),
        call_ensures(RingBufferIndex::as_absolute_batch_lower_bound, (index,), lower),
        call_ensures(RingBufferIndex::as_absolute_batch_higher_bound, (index,), higher),
    ensures
        batch_id == b % capacity,
        slot_id == s,
        lower == wrap(b * index.batch_size),
        higher == wrap((b + 1) * index.batch_size),
{
    let bs = index.batch_size as int;
    let x = b * bs + s;
    lemma_sizes_divide(index.ring_size(), bs);
    lemma_wrap_keeps_place(x, index.ring_size(), bs);
    positions_go_through_the_ring(capacity, bs, b, s, 0);
    lemma_wrap_of_wrapped(x, s);
    lemma_wrap_small(lower);
    assert(lower == wrap(index.index - s));
    assert(wrap(x - s) == wrap(b * bs));
    lemma_wrap_add(b * bs, bs as usize);
    lemma_wrapping_ops(lower, bs as usize);
    assert((b + 1) * bs == b * bs + bs) by (nonlinear_arith);
}

/// Distances between counters are those between the positions that they stand for,
/// as long as one is not a whole round ahead.
pub proof fn distances_are_kept(a: &RingBufferIndex, b: &RingBufferIndex, x: int, y: int, n: usize, r: usize, next: usize)
    requires
        a.index == wrap(x),
        b.index == wrap(y),
        y <= x <= y + usize::MAX,
        call_ensures(RingBufferIndex::wrapping_sub, (a, b), r),
        call_ensures(RingBufferIndex::wrapping_add, (a, n), next),
    ensures
        r == x - y,
        next == wrap(x + n),
{
    lemma_wrap_of_wrapped(x, y);
    lemma_sub_mod_noop(x, y, wrap_size());
    lemma_small_mod((x - y) as nat, wrap_size() as nat);
    lemma_wrap_add(x, n);
    lemma_wrapping_ops(a.index, n);
    lemma_mod_twice(y, wrap_size());
    lemma_sub_mod_noop(x % wrap_size(), y % wrap_size(), wrap_size());
}

/// A counter moves only from where it is thought to stand: an exchange that finds it
/// elsewhere changes nothing and says where it stands.
pub proof fn counters_move_from_where_they_stand(
    counter: &mut PaddedAtomic,
    current: usize,
    new: usize,
    r: Result<usize, usize>,
)
    requires
        call_ensures(PaddedAtomic::compare_exchange_weak, (counter, current, new), r),
    ensures
        r is Ok <==> old(counter).value == current,
        r is Ok ==> final(counter).value == new && r->Ok_0 == current,
        r is Err ==> final(counter).value == old(counter).value && r->Err_0 == old(counter).value,
        final(counter).ring_mask == old(counter).ring_mask,
        final(counter).batch_mask == old(counter).batch_mask,
        final(counter).batch_size == old(counter).batch_size,
{
}

/// A counter that stands for the position `x` stands for `x + n` once it has moved on
/// by `n`, and says where it stood.
pub proof fn counters_move_on(counter: &mut PaddedAtomic, n: usize, r: usize, x: int)
    requires
        call_ensures(PaddedAtomic::fetch_add, (counter, n), r),
        old(counter).value == wrap(x),
    ensures
        r == wrap(x),
        final(counter).value == wrap(x + n),
        final(counter).ring_mask == old(counter).ring_mask,
        final(counter).batch_mask == old(counter).batch_mask,
        final(counter).batch_size == old(counter).batch_size,
{
    lemma_wrap_add(x, n);
    lemma_wrapping_ops(old(counter).value, n);
}

/// A counter is read as it stands, with the masks of its ring: one less than the slots
/// of the ring, and one less than those of a batch.
pub proof fn counters_carry_their_masks(
    value: usize,
    capacity: usize,
    batch_size: usize,
    counter: PaddedAtomic,
    r: RingBufferIndex,
)
    requires
        call_ensures(PaddedAtomic::new, (value, capacity, batch_size), counter),
        call_ensures(PaddedAtomic::load, (&counter,), r),
    ensures
        r.index == value,
        r.ring_mask == capacity * batch_size - 1,
        r.batch_mask == batch_size - 1,
        r.batch_size == batch_size,
{
}

}
