//! Which thread runs where, which models are loaded, and what the providers
//! are told.
use crate::text;
use crate::topology::Pair;
use std::collections::HashSet;
use vstd::prelude::*;

verus! {

broadcast use vstd::std_specs::hash::group_hash_axioms;

/// Pollers can only be paired with runtimes that are pinned.
pub fn check_pinning(sqpoll_enabled: bool, cpu_pinning: bool) -> (r: Result<(), String>)
    ensures
        r is Ok <==> (sqpoll_enabled ==> cpu_pinning),
        r matches Err(message) ==> message@ == "--sqpoll-enabled requires --cpu-pinning"@,
{
    if sqpoll_enabled && !cpu_pinning {
        Err("--sqpoll-enabled requires --cpu-pinning".to_owned())
    } else {
        Ok(())
    }
}

/// The processor number that a core id stands for: its low 32 bits.
pub open spec fn vcpu_of(id: usize) -> u32 {
    id as u32
}

/// The processor numbers of the cores of the cpuset.
pub fn vcpus_of(ids: &Vec<usize>) -> (r: Vec<u32>)
    ensures
        r@ == ids@.map_values(|id: usize| vcpu_of(id)),
{
    let mut r: Vec<u32> = Vec::new();
    for i in 0..ids.len()
        invariant
            r@ == ids@.take(i as int).map_values(|id: usize| vcpu_of(id)),
    {
        let vcpu = #[verifier::truncate] (ids[i] as u32);
        r.push(vcpu);
        assert(r@ =~= ids@.take(i + 1).map_values(|id: usize| vcpu_of(id)));
    }
    assert(ids@.take(ids@.len() as int) =~= ids@);
    r
}

/// Some pair has the processor for its runtime or its poller.
pub open spec fn is_reserved(pairs: Seq<Pair>, vcpu: u32) -> bool {
    exists|i: int|
        0 <= i < pairs.len() && ((#[trigger] pairs[i]).runtime_vcpu == vcpu || pairs[i].sqpoll_vcpu == vcpu)
}

/// The cores that no pair has.
pub open spec fn unreserved(ids: Seq<usize>, pairs: Seq<Pair>) -> Seq<usize> {
    ids.filter(|id: usize| !is_reserved(pairs, vcpu_of(id)))
}

/// The processors that the pairs have.
fn reserved_vcpus(pairs: &Vec<Pair>) -> (r: HashSet<u32>)
    ensures
        forall|vcpu: u32| r@.contains(vcpu) <==> is_reserved(pairs@, vcpu),
{
    let mut r: HashSet<u32> = HashSet::new();
    for i in 0..pairs.len()
        invariant
            forall|vcpu: u32| r@.contains(vcpu) <==> is_reserved(pairs@.take(i as int), vcpu),
    {
        let ghost before = r@;
        r.insert(pairs[i].runtime_vcpu);
        r.insert(pairs[i].sqpoll_vcpu);
        proof {
            let prev = pairs@.take(i as int);
            let now = pairs@.take(i + 1);
            assert forall|vcpu: u32| r@.contains(vcpu) <==> is_reserved(now, vcpu) by {
                if is_reserved(prev, vcpu) {
                    let j = choose|j: int|
                        0 <= j < prev.len() && ((#[trigger] prev[j]).runtime_vcpu == vcpu || prev[j].sqpoll_vcpu
                            == vcpu);
                    assert(now[j] == prev[j]);
                }
                if pairs@[i as int].runtime_vcpu == vcpu || pairs@[i as int].sqpoll_vcpu == vcpu {
                    assert(now[i as int] == pairs@[i as int]);
                }
                if is_reserved(now, vcpu) {
                    let j = choose|j: int|
                        0 <= j < now.len() && ((#[trigger] now[j]).runtime_vcpu == vcpu || now[j].sqpoll_vcpu == vcpu);
                    if j < i {
                        assert(prev[j] == now[j]);
                    }
                }
            }
        }
    }
    assert(pairs@.take(pairs@.len() as int) =~= pairs@);
    r
}

/// Leaves out the cores that the pairs have.
pub fn unreserved_cpus(ids: &Vec<usize>, pairs: &Vec<Pair>) -> (r: Vec<usize>)
    ensures
        r@ == unreserved(ids@, pairs@),
{
    let ghost pred = |id: usize| !is_reserved(pairs@, vcpu_of(id));
    let reserved = reserved_vcpus(pairs);
    let mut r: Vec<usize> = Vec::new();
    proof {
        reveal(Seq::filter);
        assert(ids@.take(0).filter(pred) =~= Seq::<usize>::empty());
    }
    for i in 0..ids.len()
        invariant
            pred == (|id: usize| !is_reserved(pairs@, vcpu_of(id))),
            forall|vcpu: u32| reserved@.contains(vcpu) <==> is_reserved(pairs@, vcpu),
            r@ == ids@.take(i as int).filter(pred),
    {
        proof {
            reveal(Seq::filter);
            assert(ids@.take(i + 1).drop_last() =~= ids@.take(i as int));
        }
        let vcpu = #[verifier::truncate] (ids[i] as u32);
        if !reserved.contains(&vcpu) {
            r.push(ids[i]);
        }
    }
    assert(ids@.take(ids@.len() as int) =~= ids@);
    r
}

/// Hands out the cores of a pool in turn.
pub struct PinPool {
    pub ids: Vec<usize>,
    /// Threads pinned so far.
    pub pinned: usize,
}

impl PinPool {
    pub fn new(ids: Vec<usize>) -> (r: PinPool)
        ensures
            r.ids == ids,
            r.pinned == 0,
    {
        PinPool { ids, pinned: 0 }
    }

    /// The core that thread number `n` is pinned to.
    pub open spec fn core_of_thread(self, n: int) -> usize {
        self.ids@[n % self.ids@.len() as int]
    }

    /// The core for the next thread.
    pub fn next(&mut self) -> (r: usize)
        requires
            old(self).ids@.len() > 0,
            old(self).pinned < usize::MAX,
        ensures
            r == old(self).core_of_thread(old(self).pinned as int),
            final(self).ids == old(self).ids,
            final(self).pinned == old(self).pinned + 1,
    {
        let r = self.ids[self.pinned % self.ids.len()];
        self.pinned = self.pinned + 1;
        r
    }
}

/// No core gets a second thread before every core has one.
pub proof fn cores_are_used_in_turn(pool: PinPool, n: int, m: int)
    requires
        pool.ids@.no_duplicates(),
        0 <= n < m < n + pool.ids@.len(),
    ensures
        pool.core_of_thread(n) != pool.core_of_thread(m),
{
    let len = pool.ids@.len() as int;
    let a = n % len;
    let b = m % len;
    vstd::arithmetic::div_mod::lemma_mod_bound(n, len);
    vstd::arithmetic::div_mod::lemma_mod_bound(m, len);
    if a == b {
        vstd::arithmetic::div_mod::lemma_mod_equivalence(m, n, len);
        vstd::arithmetic::div_mod::lemma_small_mod((m - n) as nat, len as nat);
    }
}

/// No thread outside the pairs is pinned to a processor of a pair.
pub proof fn pairs_keep_their_processors(ids: Seq<usize>, pairs: Seq<Pair>, i: int)
    requires
        0 <= i < unreserved(ids, pairs).len(),
    ensures
        !is_reserved(pairs, vcpu_of(unreserved(ids, pairs)[i])),
        ids.contains(unreserved(ids, pairs)[i]),
{
    let pred = |id: usize| !is_reserved(pairs, vcpu_of(id));
    ids.lemma_filter_pred(pred, i);
    ids.lemma_filter_contains_rev(pred, ids.filter(pred)[i]);
}

/// The processors of the session's own threads, as their runtime wants them:
/// counted from 1, one for each thread but the calling one, from `start` on in
/// turn.
pub open spec fn affinity_entries(ids: Seq<usize>, start: int, threads: int) -> Seq<Seq<char>> {
    Seq::new((threads - 1) as nat, |i: int| text::decimal((ids[(start + i) % ids.len() as int] + 1) as nat))
}

/// Threads can be spread over the pool: it is not empty, and neither the last
/// thread nor a core counted from 1 has a number that is too large.
pub open spec fn can_spread(ids: Seq<usize>, last: int) -> bool {
    &&& ids.len() > 0
    &&& last <= usize::MAX
    &&& forall|i: int| 0 <= i < ids.len() ==> #[trigger] ids[i] < usize::MAX
}

/// `r` is what the runtime is told where the pool, if there is one, is used
/// from `start` on.
pub open spec fn is_affinity(r: Option<String>, pool: Option<Vec<usize>>, start: int, threads: int) -> bool {
    match pool {
        Some(ids) => r matches Some(entries) && entries@ == text::joined(
            affinity_entries(ids@, start, threads),
            ";"@,
        ),
        None => r is None,
    }
}

fn affinity(ids: &Vec<usize>, start: usize, threads: usize) -> (r: String)
    requires
        threads > 1,
        can_spread(ids@, start + threads - 2),
    ensures
        r@ == text::joined(affinity_entries(ids@, start as int, threads as int), ";"@),
{
    let mut entries: Vec<String> = Vec::new();
    for i in 0..threads - 1
        invariant
            threads > 1,
            can_spread(ids@, start + threads - 2),
            entries@.len() == i,
            forall|j: int|
                0 <= j < i ==> (#[trigger] entries@[j])@ == affinity_entries(ids@, start as int, threads as int)[j],
    {
        let id = ids[(start + i) % ids.len()];
        let mut entry = String::new();
        text::push_decimal(&mut entry, (id + 1) as u64);
        assert(entry@ =~= text::decimal((id + 1) as nat));
        entries.push(entry);
    }
    assert(text::contents(entries@) =~= affinity_entries(ids@, start as int, threads as int));
    text::join(&entries, ";")
}

/// Where the session's own threads run: behind the manager and the executors
/// in what the pairs leave, or behind those and the processing threads in the
/// whole cpuset where there are no pairs. Nothing is said where there is but
/// the calling thread, or no pinning.
pub fn ort_intra_affinity(
    ort_intra_threads: usize,
    sqpoll_enabled: bool,
    executor_cores: usize,
    processing_cores: usize,
    pin_cpus: &Option<Vec<usize>>,
    unreserved_pin_cpus: &Option<Vec<usize>>,
) -> (r: Option<String>)
    requires
        ort_intra_threads > 1 && sqpoll_enabled ==> (unreserved_pin_cpus matches Some(ids) ==> can_spread(
            ids@,
            1 + executor_cores + ort_intra_threads - 2,
        )),
        ort_intra_threads > 1 && !sqpoll_enabled ==> (pin_cpus matches Some(ids) ==> can_spread(
            ids@,
            1 + executor_cores + processing_cores + ort_intra_threads - 2,
        )),
    ensures
        ort_intra_threads <= 1 ==> r is None,
        ort_intra_threads > 1 && sqpoll_enabled ==> is_affinity(
            r,
            *unreserved_pin_cpus,
            1 + executor_cores,
            ort_intra_threads as int,
        ),
        ort_intra_threads > 1 && !sqpoll_enabled ==> is_affinity(
            r,
            *pin_cpus,
            1 + executor_cores + processing_cores,
            ort_intra_threads as int,
        ),
{
    if ort_intra_threads <= 1 {
        return None;
    }
    if sqpoll_enabled {
        match unreserved_pin_cpus {
            Some(ids) => Some(affinity(ids, 1 + executor_cores, ort_intra_threads)),
            None => None,
        }
    } else {
        match pin_cpus {
            Some(ids) => Some(affinity(ids, 1 + executor_cores + processing_cores, ort_intra_threads)),
            None => None,
        }
    }
}

/// Whether the model `name` is to be loaded: every one where no list is given.
pub fn is_selected(load_models: &Option<Vec<String>>, name: &str) -> (r: bool)
    ensures
        r == (match load_models {
            Some(names) => text::contents(names@).contains(name@),
            None => true,
        }),
{
    match load_models {
        Some(names) => text::contains(names, name),
        None => true,
    }
}

/// What the TensorRT provider is told besides its device.
pub fn trt_options(min_subgraph_size: Option<usize>, op_types_to_exclude: &Option<Vec<String>>) -> (r: Vec<
    (String, String),
>)
    ensures
        ({
            let sizes = match min_subgraph_size {
                Some(n) => seq![("trt_min_subgraph_size"@, text::decimal(n as nat))],
                None => Seq::empty(),
            };
            let excluded = match op_types_to_exclude {
                Some(ops) => seq![("trt_op_types_to_exclude"@, text::joined(text::contents(ops@), ","@))],
                None => Seq::empty(),
            };
            option_texts(r@) == sizes + excluded
        }),
{
    let mut r: Vec<(String, String)> = Vec::new();
    if let Some(n) = min_subgraph_size {
        let mut value = String::new();
        text::push_decimal(&mut value, n as u64);
        assert(value@ =~= text::decimal(n as nat));
        r.push(("trt_min_subgraph_size".to_owned(), value));
    }
    if let Some(ops) = op_types_to_exclude {
        r.push(("trt_op_types_to_exclude".to_owned(), text::join(ops, ",")));
    }
    r
}

/// The contents of each option.
pub open spec fn option_texts(options: Seq<(String, String)>) -> Seq<(Seq<char>, Seq<char>)> {
    Seq::new(options.len(), |i: int| (options[i].0@, options[i].1@))
}

/// A core number is the processor of that number, wherever it is one.
pub proof fn cores_are_processors(id: usize)
    requires
        id <= u32::MAX,
    ensures
        vcpu_of(id) == id,
{
}

/// Every core is kept that no pair has, and no other.
pub proof fn free_cores_are_kept(ids: Seq<usize>, pairs: Seq<Pair>, id: usize)
    requires
        ids.contains(id),
        id <= u32::MAX,
    ensures
        unreserved(ids, pairs).contains(id) <==> forall|i: int|
            0 <= i < pairs.len() ==> (#[trigger] pairs[i]).runtime_vcpu != id && pairs[i].sqpoll_vcpu != id,
{
    let pred = |id: usize| !is_reserved(pairs, vcpu_of(id));
    if unreserved(ids, pairs).contains(id) {
        ids.lemma_filter_contains_rev(pred, id);
        let i = choose|i: int| 0 <= i < ids.filter(pred).len() && ids.filter(pred)[i] == id;
        ids.lemma_filter_pred(pred, i);
    } else {
        if pred(id) {
            let i = choose|i: int| 0 <= i < ids.len() && ids[i] == id;
            assert(pred(ids[i]));
            ids.lemma_filter_contains(pred, i);
        }
    }
}

/// The cores that are kept stay in order, each as often as it was there: what is
/// left of two lists, one behind the other, is what is left of each.
pub proof fn kept_cores_stay_in_order(a: Seq<usize>, b: Seq<usize>, pairs: Seq<Pair>, id: usize)
    ensures
        unreserved(a + b, pairs) == unreserved(a, pairs) + unreserved(b, pairs),
        unreserved(seq![id], pairs).len() <= 1,
        unreserved(Seq::empty(), pairs) == Seq::<usize>::empty(),
{
    let pred = |id: usize| !is_reserved(pairs, vcpu_of(id));
    Seq::filter_distributes_over_add(a, b, pred);
    reveal(Seq::filter);
    assert(seq![id].drop_last() =~= Seq::<usize>::empty());
    assert(unreserved(Seq::empty(), pairs) =~= Seq::<usize>::empty());
    assert(unreserved(seq![id].drop_last(), pairs) =~= Seq::<usize>::empty());
    reveal_with_fuel(Seq::filter, 2);
}

/// The cores of a pool are used from the first to the last, and then again.
pub proof fn cores_come_round(pool: PinPool, n: int)
    requires
        pool.ids@.len() > 0,
        n >= 0,
    ensures
        n < pool.ids@.len() ==> pool.core_of_thread(n) == pool.ids@[n],
        pool.core_of_thread(n + pool.ids@.len()) == pool.core_of_thread(n),
{
    let len = pool.ids@.len() as int;
    if n < len {
        vstd::arithmetic::div_mod::lemma_small_mod(n as nat, len as nat);
    }
    vstd::arithmetic::div_mod::lemma_mod_add_multiples_vanish(n, len);
}

/// Every thread of a session but the calling one has an entry, and entry number
/// `i` names the core that a pool gives to thread number `start + i`, counted
/// from 1. The entries can be read off the text again.
pub proof fn session_threads_have_their_cores(pool: PinPool, start: int, threads: int, i: int)
    requires
        can_spread(pool.ids@, start + threads - 2),
        start >= 0,
        threads > 1,
    ensures
        affinity_entries(pool.ids@, start, threads).len() == threads - 1,
        0 <= i < threads - 1 ==> affinity_entries(pool.ids@, start, threads)[i] == text::decimal(
            (pool.core_of_thread(start + i) + 1) as nat,
        ),
        text::parts(text::joined(affinity_entries(pool.ids@, start, threads), ";"@), ';') == affinity_entries(
            pool.ids@,
            start,
            threads,
        ),
{
    let entries = affinity_entries(pool.ids@, start, threads);
    reveal_strlit(";");
    assert(";"@ =~= seq![';']);
    assert forall|j: int| 0 <= j < entries.len() implies !(#[trigger] entries[j]).contains(';') by {
        text::numbers_are_written_digit_by_digit(
            (pool.ids@[(start + j) % pool.ids@.len() as int] + 1) as nat,
            0,
        );
        if entries[j].contains(';') {
            let c = choose|c: int| 0 <= c < entries[j].len() && entries[j][c] == ';';
            assert('0' <= entries[j][c]);
            assert(entries[j][c] <= '9');
        }
    }
    text::joined_parts_are_split_again(entries, ';');
}

/// Models are selected by name, from a list of any length, and all of them where
/// there is no list.
pub proof fn listed_models_are_selected(load_models: &Option<Vec<String>>, name: &str, r: bool)
    requires
        call_ensures(is_selected, (load_models, name), r),
    ensures
        load_models is None ==> r,
        load_models matches Some(names) ==> (r <==> exists|i: int|
            0 <= i < names@.len() && (#[trigger] names@[i])@ == name@),
{
    if let Some(names) = load_models {
        let all = text::contents(names@);
        if all.contains(name@) {
            let i = choose|i: int| 0 <= i < all.len() && all[i] == name@;
            assert(names@[i]@ == name@);
        }
        if exists|i: int| 0 <= i < names@.len() && (#[trigger] names@[i])@ == name@ {
            let i = choose|i: int| 0 <= i < names@.len() && (#[trigger] names@[i])@ == name@;
            assert(all[i] == name@);
        }
    }
}

/// Every core of the cpuset has its processor, in the same order.
pub proof fn every_core_has_its_processor(ids: &Vec<usize>, r: Vec<u32>, i: int)
    requires
        call_ensures(vcpus_of, (ids,), r),
    ensures
        r@.len() == ids@.len(),
        0 <= i < ids@.len() && ids@[i] <= u32::MAX ==> r@[i] == ids@[i],
{
}

/// The cores that are left to other threads are those that no pair has, all of them.
pub proof fn every_free_core_is_left(ids: &Vec<usize>, pairs: &Vec<Pair>, r: Vec<usize>, id: usize)
    requires
        call_ensures(unreserved_cpus, (ids, pairs), r),
        id <= u32::MAX,
    ensures
        r@.contains(id) <==> ids@.contains(id) && forall|i: int|
            0 <= i < pairs@.len() ==> (#[trigger] pairs@[i]).runtime_vcpu != id && pairs@[i].sqpoll_vcpu != id,
{
    if ids@.contains(id) {
        free_cores_are_kept(ids@, pairs@, id);
    } else if r@.contains(id) {
        let i = choose|i: int| 0 <= i < r@.len() && r@[i] == id;
        pairs_keep_their_processors(ids@, pairs@, i);
    }
}

/// Threads are pinned to the cores of a pool in turn: to the one behind the last one,
/// and to the first behind them all.
pub proof fn next_thread_gets_the_next_core(pool: &mut PinPool, r: usize, k: int, round: int)
    requires
        call_ensures(PinPool::next, (pool,), r),
        0 <= k < old(pool).ids@.len(),
        old(pool).pinned == round * old(pool).ids@.len() + k,
    ensures
        r == old(pool).ids@[k],
        final(pool).ids == old(pool).ids,
        final(pool).pinned == old(pool).pinned + 1,
{
    vstd::arithmetic::div_mod::lemma_fundamental_div_mod_converse(
        old(pool).pinned as int,
        old(pool).ids@.len() as int,
        round,
        k,
    );
}

/// The session's own threads get the cores behind those of the manager, of the
/// executors and, where there are no pairs, of the processing threads: thread `i`
/// the one that the pool has for a thread of that number, counted from 1. Nothing is
/// said where there is but the calling thread, or no pool.
pub proof fn session_threads_are_placed(
    threads: usize,
    sqpoll: bool,
    executors: usize,
    processing: usize,
    all: &Option<Vec<usize>>,
    left: &Option<Vec<usize>>,
    r: Option<String>,
    i: int,
)
    requires
        call_ensures(ort_intra_affinity, (threads, sqpoll, executors, processing, all, left), r),
        sqpoll ==> (*left matches Some(ids) ==> can_spread(ids@, executors + threads - 1)),
        !sqpoll ==> (*all matches Some(ids) ==> can_spread(ids@, executors + processing + threads - 1)),
    ensures
        ({
            let pool = if sqpoll {
                *left
            } else {
                *all
            };
            let before = if sqpoll {
                1 + executors
            } else {
                1 + executors + processing
            };
            &&& r is Some <==> threads > 1 && pool is Some
            &&& r matches Some(entries) ==> {
                let ids = pool->0@;
                let parts = text::parts(entries@, ';');
                &&& parts.len() == threads - 1
                &&& 0 <= i < threads - 1 ==> parts[i] == text::decimal((ids[(before + i) % ids.len() as int] + 1) as nat)
            }
        }),
{
    let pool = if sqpoll {
        *left
    } else {
        *all
    };
    let before = if sqpoll {
        1 + executors
    } else {
        1 + executors + processing
    };
    if threads > 1 {
        if let Some(ids) = pool {
            session_threads_have_their_cores(PinPool { ids, pinned: 0 }, before, threads as int, i);
        }
    }
}

/// The TensorRT provider is told what is configured, and nothing else: the smallest
/// subgraph as a number, and the operators that it is not to run, every one of them.
pub proof fn configured_options_are_told(
    size: Option<usize>,
    excluded: &Option<Vec<String>>,
    r: Vec<(String, String)>,
)
    requires
        call_ensures(trt_options, (size, excluded), r),
    ensures
        r@.len() == (if size is Some {
            1int
        } else {
            0int
        }) + (if *excluded is Some {
            1int
        } else {
            0int
        }),
        size matches Some(n) ==> r@[0].0@ == "trt_min_subgraph_size"@ && r@[0].1@ == text::decimal(n as nat),
        *excluded matches Some(ops) ==> r@.last().0@ == "trt_op_types_to_exclude"@ && r@.last().1@ == text::joined(
            text::contents(ops@),
            ","@,
        ),
{
    let texts = option_texts(r@);
    assert(texts.len() == r@.len());
    if size is Some {
        assert(texts[0] == (r@[0].0@, r@[0].1@));
    }
    if *excluded is Some {
        let last = r@.len() - 1;
        assert(texts[last] == (r@[last].0@, r@[last].1@));
    }
}

/// Threads can be spread over any pool that has a core, as far as numbers go.
pub proof fn pools_can_be_spread_over(ids: Seq<usize>, last: int)
    requires
        ids.len() > 0,
        last <= usize::MAX,
        forall|i: int| 0 <= i < ids.len() ==> #[trigger] ids[i] < usize::MAX,
    ensures
        can_spread(ids, last),
{
}

/// Pollers are refused exactly where they are wanted without pinning.
pub proof fn pollers_want_pinning(sqpoll: bool, pinning: bool, r: Result<(), String>)
    requires
        call_ensures(check_pinning, (sqpoll, pinning), r),
    ensures
        r is Err <==> sqpoll && !pinning,
        r matches Err(message) ==> message@ == "--sqpoll-enabled requires --cpu-pinning"@,
{
}

}
