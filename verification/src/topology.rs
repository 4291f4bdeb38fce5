//! Placement on the processor: reading the kernel's description of it, and
//! pairing runtimes with the kernel threads that poll their rings.
use crate::text;
use crate::text::NumberError;
use std::collections::{BTreeMap, HashMap, HashSet};
use vstd::prelude::*;

verus! {

broadcast use {
    vstd::std_specs::hash::group_hash_axioms,
    vstd::std_specs::btree::group_btree_axioms,
    vstd::laws_cmp::group_laws_cmp,
};

/// The numbers from `lo` to `hi`, both included: none where `hi` is smaller.
pub open spec fn cpu_range(lo: u32, hi: u32) -> Seq<u32> {
    if lo <= hi {
        Seq::new((hi - lo + 1) as nat, |i: int| (lo + i) as u32)
    } else {
        Seq::empty()
    }
}

/// The processors that one part of a list names: none, one, or a range.
pub open spec fn part_cpus(part: Seq<char>) -> Result<Seq<u32>, NumberError> {
    if part.len() == 0 {
        Ok(Seq::empty())
    } else {
        match part.index_of_first('-') {
            Some(dash) => match (
                text::u32_value(text::trimmed(part.take(dash))),
                text::u32_value(text::trimmed(part.skip(dash + 1))),
            ) {
                (Err(e), _) => Err(e),
                (Ok(_), Err(e)) => Err(e),
                (Ok(lo), Ok(hi)) => Ok(cpu_range(lo, hi)),
            },
            None => match text::u32_value(text::trimmed(part)) {
                Err(e) => Err(e),
                Ok(cpu) => Ok(seq![cpu]),
            },
        }
    }
}

/// The processors that the parts name one after the other, or what is wrong
/// with the first part that is not well formed.
pub open spec fn all_cpus(parts: Seq<Seq<char>>) -> Result<Seq<u32>, NumberError>
    decreases parts.len(),
{
    if parts.len() == 0 {
        Ok(Seq::empty())
    } else {
        match (all_cpus(parts.drop_last()), part_cpus(parts.last())) {
            (Err(e), _) => Err(e),
            (Ok(_), Err(e)) => Err(e),
            (Ok(before), Ok(cpus)) => Ok(before + cpus),
        }
    }
}

/// The processors of a list such as `0-3,8`.
pub open spec fn cpu_list(s: Seq<char>) -> Result<Seq<u32>, NumberError> {
    all_cpus(text::parts(text::trimmed(s), ','))
}

/// A result with a vector in it, as a value.
pub open spec fn cpus_view(r: Result<Vec<u32>, NumberError>) -> Result<Seq<u32>, NumberError> {
    match r {
        Ok(cpus) => Ok(cpus@),
        Err(e) => Err(e),
    }
}

/// Once a part is wrong, the rest of the list does not matter.
proof fn lemma_first_error(parts: Seq<Seq<char>>, n: int)
    requires
        0 <= n <= parts.len(),
        all_cpus(parts.take(n)) is Err,
    ensures
        all_cpus(parts) == all_cpus(parts.take(n)),
    decreases parts.len(),
{
    if n == parts.len() {
        assert(parts.take(n) =~= parts);
    } else {
        assert(parts.drop_last().take(n) =~= parts.take(n));
        lemma_first_error(parts.drop_last(), n);
    }
}

/// Appends the processors that one part names.
fn push_part(part: &Vec<char>, out: &mut Vec<u32>) -> (r: Result<(), NumberError>)
    ensures
        match part_cpus(part@) {
            Ok(cpus) => r is Ok && final(out)@ == old(out)@ + cpus,
            Err(e) => r == Err::<(), NumberError>(e),
        },
{
    if part.len() == 0 {
        assert(out@ =~= old(out)@ + Seq::<u32>::empty());
        return Ok(());
    }
    match text::find(part, '-') {
        Some(dash) => {
            assert(part@.subrange(0, dash as int) =~= part@.take(dash as int));
            assert(part@.subrange(dash + 1, part@.len() as int) =~= part@.skip(dash + 1));
            let lo = match text::parse_u32(&text::trim(&text::copy_part(part, 0, dash))) {
                Ok(lo) => lo,
                Err(e) => {
                    return Err(e);
                },
            };
            let hi = match text::parse_u32(&text::trim(&text::copy_part(part, dash + 1, part.len()))) {
                Ok(hi) => hi,
                Err(e) => {
                    return Err(e);
                },
            };
            assert(out@ =~= old(out)@ + Seq::<u32>::empty());
            if lo <= hi {
                let mut cpu: u32 = lo;
                loop
                    invariant_except_break
                        lo <= cpu <= hi,
                        out@ == old(out)@ + cpu_range(lo, hi).take(cpu - lo),
                    ensures
                        out@ == old(out)@ + cpu_range(lo, hi),
                    decreases hi - cpu,
                {
                    out.push(cpu);
                    assert(out@ =~= old(out)@ + cpu_range(lo, hi).take(cpu - lo + 1));
                    if cpu == hi {
                        assert(cpu_range(lo, hi).take(cpu - lo + 1) =~= cpu_range(lo, hi));
                        break ;
                    }
                    cpu = cpu + 1;
                }
            }
            Ok(())
        },
        None => match text::parse_u32(&text::trim(part)) {
            Ok(cpu) => {
                out.push(cpu);
                assert(out@ =~= old(out)@ + seq![cpu]);
                Ok(())
            },
            Err(e) => Err(e),
        },
    }
}

/// Reads a list of processors as the kernel writes it.
pub fn parse_cpu_list(s: &str) -> (r: Result<Vec<u32>, NumberError>)
    ensures
        cpus_view(r) == cpu_list(s@),
{
    let parts = text::split(&text::trim(&text::chars_of(s)), ',');
    let ghost all = text::texts(parts@);
    let mut out: Vec<u32> = Vec::new();
    assert(all.take(0) =~= Seq::<Seq<char>>::empty());
    for i in 0..parts.len()
        invariant
            all == text::texts(parts@),
            all_cpus(all) == cpu_list(s@),
            all_cpus(all.take(i as int)) == Ok::<Seq<u32>, NumberError>(out@),
    {
        assert(all.take(i + 1).drop_last() =~= all.take(i as int));
        assert(all.take(i + 1).last() == parts@[i as int]@);
        match push_part(&parts[i], &mut out) {
            Ok(()) => {},
            Err(e) => {
                proof {
                    lemma_first_error(all, i + 1);
                }
                return Err(e);
            },
        }
    }
    assert(all.take(all.len() as int) =~= all);
    Ok(out)
}

/// The number of the memory node that a directory entry stands for.
pub open spec fn node_number(name: Seq<char>) -> Option<u32> {
    if name.len() >= 4 && name.take(4) == "node"@ {
        match text::u32_value(name.skip(4)) {
            Ok(n) => Some(n),
            Err(_) => None,
        }
    } else {
        None
    }
}

/// Reads the node number from the name of a directory entry, such as `node0`.
pub fn parse_node_name(name: &str) -> (r: Option<u32>)
    ensures
        r == node_number(name@),
{
    proof {
        reveal_strlit("node");
    }
    let chars = text::chars_of(name);
    if chars.len() < 4 || chars[0] != 'n' || chars[1] != 'o' || chars[2] != 'd' || chars[3] != 'e' {
        assert(name@.len() >= 4 && name@.take(4) == "node"@ ==> name@.take(4)[0] == name@[0] && name@.take(4)[1]
            == name@[1] && name@.take(4)[2] == name@[2] && name@.take(4)[3] == name@[3]);
        return None;
    }
    assert(name@.take(4) =~= "node"@);
    assert(name@.subrange(4, name@.len() as int) =~= name@.skip(4));
    match text::parse_u32(&text::copy_part(&chars, 4, chars.len())) {
        Ok(n) => Some(n),
        Err(_) => None,
    }
}

/// `map` with every processor of `cpus` on `node`.
pub open spec fn with_cpus(map: Map<u32, u32>, cpus: Seq<u32>, node: u32) -> Map<u32, u32> {
    Map::new(
        |cpu: u32| map.dom().contains(cpu) || cpus.contains(cpu),
        |cpu: u32|
            if cpus.contains(cpu) {
                node
            } else {
                map[cpu]
            },
    )
}

/// Puts the processors that `raw` lists on `node`. A list that is not well
/// formed is passed over.
pub fn map_node_cpus(map: &mut HashMap<u32, u32>, node: u32, raw: &str)
    ensures
        final(map)@ == (match cpu_list(raw@) {
            Ok(cpus) => with_cpus(old(map)@, cpus, node),
            Err(_) => old(map)@,
        }),
{
    match parse_cpu_list(raw) {
        Ok(cpus) => {
            assert(map@ =~= with_cpus(old(map)@, cpus@.take(0), node));
            for i in 0..cpus.len()
                invariant
                    map@ == with_cpus(old(map)@, cpus@.take(i as int), node),
            {
                map.insert(cpus[i], node);
                proof {
                    let now = cpus@.take(i + 1);
                    assert(now =~= cpus@.take(i as int).push(cpus@[i as int]));
                    assert(now.last() == cpus@[i as int]);
                    assert forall|cpu: u32| now.contains(cpu) <==> (cpus@.take(i as int).contains(cpu) || cpu
                        == cpus@[i as int]) by {
                        if cpus@.take(i as int).contains(cpu) {
                            let j = choose|j: int| 0 <= j < i && cpus@.take(i as int)[j] == cpu;
                            assert(now[j] == cpu);
                        }
                        if cpu == cpus@[i as int] {
                            assert(now[i as int] == cpu);
                        }
                        if now.contains(cpu) {
                            let j = choose|j: int| 0 <= j < now.len() && now[j] == cpu;
                            if j < i {
                                assert(cpus@.take(i as int)[j] == cpu);
                            }
                        }
                    }
                    assert(map@ =~= with_cpus(old(map)@, now, node));
                }
            }
            assert(cpus@.take(cpus@.len() as int) =~= cpus@);
        },
        Err(_) => {},
    }
}

/// A physical core: the processors that share it, and the memory node it is on.
#[derive(Clone, Debug)]
pub struct SmtGroup {
    pub vcpus: Vec<u32>,
    pub numa_node: u32,
}

/// A physical core, as a value.
pub struct Core {
    pub vcpus: Seq<u32>,
    pub numa_node: u32,
}

impl View for SmtGroup {
    type V = Core;

    open spec fn view(&self) -> Core {
        Core { vcpus: self.vcpus@, numa_node: self.numa_node }
    }
}

/// The cores of a list of groups.
pub open spec fn cores(groups: Seq<SmtGroup>) -> Seq<Core> {
    Seq::new(groups.len(), |i: int| groups[i]@)
}

/// The least number of a sequence that is not empty.
pub open spec fn least(s: Seq<u32>) -> u32
    decreases s.len(),
{
    if s.len() <= 1 {
        s[0]
    } else if least(s.drop_last()) <= s.last() {
        least(s.drop_last())
    } else {
        s.last()
    }
}

fn find_least(s: &Vec<u32>) -> (r: u32)
    requires
        s@.len() > 0,
    ensures
        r == least(s@),
{
    let mut r = s[0];
    assert(s@.take(1).len() == 1);
    for i in 1..s.len()
        invariant
            s@.len() > 0,
            r == least(s@.take(i as int)),
    {
        assert(s@.take(i + 1).drop_last() =~= s@.take(i as int));
        if s[i] < r {
            r = s[i];
        }
    }
    assert(s@.take(s@.len() as int) =~= s@);
    r
}

/// `s` in ascending order.
pub open spec fn ascending(s: Seq<u32>) -> Seq<u32> {
    s.sort_by(|a: u32, b: u32| a <= b)
}

/// A sorted copy.
fn sort(s: &Vec<u32>) -> (r: Vec<u32>)
    ensures
        r@ == ascending(s@),
{
    broadcast use vstd::seq_lib::group_to_multiset_ensures;

    let mut r: Vec<u32> = Vec::new();
    assert(s@.take(0) =~= Seq::<u32>::empty());
    for i in 0..s.len()
        invariant
            r@.to_multiset() == s@.take(i as int).to_multiset(),
            forall|j: int, k: int| 0 <= j <= k < r@.len() ==> r@[j] <= r@[k],
    {
        let x = s[i];
        let mut at: usize = r.len();
        while at > 0 && r[at - 1] > x
            invariant
                at <= r@.len(),
                forall|j: int, k: int| 0 <= j <= k < r@.len() ==> r@[j] <= r@[k],
                forall|j: int| at <= j < r@.len() ==> x <= r@[j],
            decreases at,
        {
            at = at - 1;
        }
        let ghost before = r@;
        r.insert(at, x);
        proof {
            assert(s@.take(i + 1) =~= s@.take(i as int).push(x));
            assert(r@ =~= before.insert(at as int, x));
            vstd::seq_lib::to_multiset_insert(before, at as int, x);
            vstd::seq_lib::to_multiset_build(s@.take(i as int), x);
        }
    }
    proof {
        let leq = |a: u32, b: u32| a <= b;
        assert(s@.take(s@.len() as int) =~= s@);
        assert(vstd::relations::total_ordering(leq));
        s@.lemma_sort_by_ensures(leq);
        vstd::seq_lib::lemma_sorted_unique(r@, s@.sort_by(leq), leq);
    }
    r
}

/// The physical cores found so far, each under its least processor.
pub struct SiblingGroups {
    pub groups: BTreeMap<u32, Vec<u32>>,
}

impl View for SiblingGroups {
    type V = Map<u32, Seq<u32>>;

    open spec fn view(&self) -> Map<u32, Seq<u32>> {
        self.groups@.map_values(|vcpus: Vec<u32>| vcpus@)
    }
}

/// `groups` with one more list of siblings, unless it is empty or one is there
/// already under the same least processor.
pub open spec fn with_siblings(groups: Map<u32, Seq<u32>>, siblings: Seq<u32>) -> Map<u32, Seq<u32>> {
    if siblings.len() == 0 || groups.dom().contains(least(siblings)) {
        groups
    } else {
        groups.insert(least(siblings), siblings)
    }
}

/// The cores under the numbers below `n`, in ascending order, the processors
/// of each in ascending order too. A core that no memory node lists is on node
/// 0.
pub open spec fn cores_below(groups: Map<u32, Seq<u32>>, numa: Map<u32, u32>, n: nat) -> Seq<Core>
    decreases n,
{
    if n == 0 {
        Seq::empty()
    } else {
        let before = cores_below(groups, numa, (n - 1) as nat);
        let key = (n - 1) as u32;
        if groups.dom().contains(key) {
            before.push(
                Core {
                    vcpus: ascending(groups[key]),
                    numa_node: if numa.dom().contains(key) {
                        numa[key]
                    } else {
                        0
                    },
                },
            )
        } else {
            before
        }
    }
}

/// One more than the greatest processor number.
pub open spec fn cpu_numbers() -> nat {
    (u32::MAX + 1) as nat
}

proof fn lemma_no_cores_between(groups: Map<u32, Seq<u32>>, numa: Map<u32, u32>, a: nat, b: nat)
    requires
        a <= b <= cpu_numbers(),
        forall|k: u32| a <= k < b ==> !(#[trigger] groups.dom().contains(k)),
    ensures
        cores_below(groups, numa, b) == cores_below(groups, numa, a),
    decreases b,
{
    if a < b {
        assert(!groups.dom().contains((b - 1) as u32));
        lemma_no_cores_between(groups, numa, a, (b - 1) as nat);
    }
}

proof fn lemma_increasing(keys: Seq<u32>)
    requires
        vstd::std_specs::btree::increasing_seq(keys),
    ensures
        forall|i: int, j: int| 0 <= i < j < keys.len() ==> keys[i] < keys[j],
{
    assert forall|i: int, j: int| 0 <= i < j < keys.len() implies keys[i] < keys[j] by {
        assert(vstd::laws_cmp::obeys_cmp::<u32>());
        assert(vstd::std_specs::cmp::OrdSpec::cmp_spec(&keys[i], &keys[j]) is Less);
    }
}

impl SiblingGroups {
    pub fn new() -> (r: SiblingGroups)
        ensures
            r@ == Map::<u32, Seq<u32>>::empty(),
    {
        let r = SiblingGroups { groups: BTreeMap::new() };
        assert(r@ =~= Map::<u32, Seq<u32>>::empty());
        r
    }

    /// Adds the siblings that `raw` lists.
    pub fn add_siblings(&mut self, raw: &str) -> (r: Result<(), NumberError>)
        ensures
            match cpu_list(raw@) {
                Ok(siblings) => r is Ok && final(self)@ == with_siblings(old(self)@, siblings),
                Err(e) => r == Err::<(), NumberError>(e) && final(self)@ == old(self)@,
            },
    {
        let siblings = match parse_cpu_list(raw) {
            Ok(siblings) => siblings,
            Err(e) => {
                return Err(e);
            },
        };
        if siblings.len() == 0 {
            return Ok(());
        }
        let key = find_least(&siblings);
        if !self.groups.contains_key(&key) {
            self.groups.insert(key, siblings);
            assert(self@ =~= old(self)@.insert(key, siblings@));
        }
        Ok(())
    }

    /// The cores in ascending order of their least processor.
    pub fn smt_groups(&self, numa: &HashMap<u32, u32>) -> (r: Vec<SmtGroup>)
        ensures
            cores(r@) == cores_below(self@, numa@, cpu_numbers()),
    {
        let mut r: Vec<SmtGroup> = Vec::new();
        let iter = self.groups.iter();
        let ghost all = vstd::std_specs::iter::IteratorSpec::remaining(&iter);
        let ghost keys = all.map_values(|kv: (&u32, &Vec<u32>)| *kv.0);
        let ghost mut bound: nat = 0;
        proof {
            lemma_increasing(keys);
            assert forall|k: u32| #[trigger] self.groups@.contains_key(k) implies keys.contains(k) by {
                let j = choose|j: int| 0 <= j < all.len() && all[j] == (&k, &self.groups@[k]);
                assert(keys[j] == k);
            }
        }
        assert(cores(r@) =~= Seq::<Core>::empty());
        for entry in it: iter
            invariant
                it.seq() == all,
                keys == all.map_values(|kv: (&u32, &Vec<u32>)| *kv.0),
                forall|i: int, j: int| 0 <= i < j < keys.len() ==> keys[i] < keys[j],
                forall|i: int| 0 <= i < all.len() ==> self.groups@.contains_key(keys[i]) && self.groups@[keys[i]] == *(
                #[trigger] all[i]).1,
                forall|k: u32| #[trigger] self.groups@.contains_key(k) ==> keys.contains(k),
                bound == (if it.index() == 0 {
                    0
                } else {
                    keys[it.index() - 1] + 1
                }),
                cores(r@) == cores_below(self@, numa@, bound),
        {
            let ghost i = it.index() as int;
            let key = *entry.0;
            let vcpus = sort(entry.1);
            let numa_node = match numa.get(&key) {
                Some(node) => *node,
                None => 0,
            };
            let ghost before = cores(r@);
            r.push(SmtGroup { vcpus, numa_node });
            proof {
                assert(key == keys[i]);
                assert(self@.dom().contains(key));
                assert forall|k: u32| bound <= k < key implies !(#[trigger] self@.dom().contains(k)) by {
                    if self@.dom().contains(k) {
                        assert(self.groups@.contains_key(k));
                        let j = choose|j: int| 0 <= j < keys.len() && keys[j] == k;
                        assert(j < i);
                    }
                }
                lemma_no_cores_between(self@, numa@, bound, key as nat);
                bound = (key + 1) as nat;
                assert(cores(r@) =~= before.push(r@.last()@));
                assert(cores(r@) =~= cores_below(self@, numa@, bound));
            }
        }
        proof {
            assert forall|k: u32| bound <= k < cpu_numbers() implies !(#[trigger] self@.dom().contains(k)) by {
                if self@.dom().contains(k) {
                    assert(self.groups@.contains_key(k));
                    let j = choose|j: int| 0 <= j < keys.len() && keys[j] == k;
                }
            }
            lemma_no_cores_between(self@, numa@, bound, cpu_numbers());
        }
        r
    }
}

/// A runtime and the kernel thread that polls for it.
#[derive(Clone, Copy, Debug, PartialEq, Eq, Structural)]
pub struct Pair {
    pub runtime_vcpu: u32,
    pub sqpoll_vcpu: u32,
    pub numa_node: u32,
}

/// Every processor of the core is allowed.
pub open spec fn usable(core: Core, allowed: Seq<u32>) -> bool {
    forall|i: int| 0 <= i < core.vcpus.len() ==> allowed.contains(#[trigger] core.vcpus[i])
}

/// The usable cores of one memory node, in the order given.
pub open spec fn node_cores(cores: Seq<Core>, allowed: Seq<u32>, node: u32) -> Seq<Core> {
    cores.filter(|core: Core| usable(core, allowed) && core.numa_node == node)
}

/// The pairs of one chunk: the siblings of `rt` run, those of `sq` poll.
pub open spec fn chunk_pairs(rt: Core, sq: Core, node: u32) -> Seq<Pair> {
    let n = if rt.vcpus.len() <= sq.vcpus.len() {
        rt.vcpus.len()
    } else {
        sq.vcpus.len()
    };
    Seq::new(n, |i: int| Pair { runtime_vcpu: rt.vcpus[i], sqpoll_vcpu: sq.vcpus[i], numa_node: node })
}

/// The pairs of the first `n` cores, taken two by two.
pub open spec fn pairs_of(cores: Seq<Core>, node: u32, n: nat) -> Seq<Pair>
    decreases n,
{
    if n < 2 {
        Seq::empty()
    } else if n % 2 == 1 {
        pairs_of(cores, node, (n - 1) as nat)
    } else {
        pairs_of(cores, node, (n - 2) as nat) + chunk_pairs(cores[n - 2], cores[n - 1], node)
    }
}

/// The pairs of one memory node.
pub open spec fn node_pairs(cores: Seq<Core>, allowed: Seq<u32>, node: u32) -> Seq<Pair> {
    let on_node = node_cores(cores, allowed, node);
    pairs_of(on_node, node, on_node.len())
}

/// The pairs of all memory nodes below `n`, node by node.
pub open spec fn pairs_below(cores: Seq<Core>, allowed: Seq<u32>, n: nat) -> Seq<Pair>
    decreases n,
{
    if n == 0 {
        Seq::empty()
    } else {
        pairs_below(cores, allowed, (n - 1) as nat) + node_pairs(cores, allowed, (n - 1) as u32)
    }
}

/// Every pair that the cores allow for, in the order in which they are used.
pub open spec fn possible_pairs(cores: Seq<Core>, allowed: Seq<u32>) -> Seq<Pair> {
    pairs_below(cores, allowed, cpu_numbers())
}

/// What to tell the user where only `got` of `wanted` pairs could be placed.
pub open spec fn placement_error(wanted: nat, got: nat) -> Seq<char> {
    "could not place "@ + text::decimal(wanted) + " runtime/SQPOLL pairs (got "@ + text::decimal(got)
        + "). Each NUMA node needs pairs of phys cores (1 runtime phys core + 1 sqpoll phys core = 2 pairs); cpuset may exclude some."@
}

fn placement_message(wanted: usize, got: usize) -> (r: String)
    ensures
        r@ == placement_error(wanted as nat, got as nat),
{
    let mut message = "could not place ".to_owned();
    text::push_decimal(&mut message, wanted as u64);
    message.append(" runtime/SQPOLL pairs (got ");
    text::push_decimal(&mut message, got as u64);
    message.append(
        "). Each NUMA node needs pairs of phys cores (1 runtime phys core + 1 sqpoll phys core = 2 pairs); cpuset may exclude some.",
    );
    message
}

proof fn lemma_no_pairs_between(cores: Seq<Core>, allowed: Seq<u32>, a: nat, b: nat)
    requires
        a <= b <= cpu_numbers(),
        forall|i: int| 0 <= i < cores.len() && usable(cores[i], allowed) ==> !(a <= (#[trigger] cores[i]).numa_node < b),
    ensures
        pairs_below(cores, allowed, b) == pairs_below(cores, allowed, a),
    decreases b,
{
    if a < b {
        let node = (b - 1) as u32;
        let on_node = node_cores(cores, allowed, node);
        if on_node.len() > 0 {
            let pred = |core: Core| usable(core, allowed) && core.numa_node == node;
            cores.lemma_filter_contains_rev(pred, on_node[0]);
            cores.lemma_filter_pred(pred, 0);
            let i = choose|i: int| 0 <= i < cores.len() && cores[i] == on_node[0];
            assert(cores[i].numa_node == node);
            assert(false);
        }
        lemma_no_pairs_between(cores, allowed, a, (b - 1) as nat);
        assert(pairs_below(cores, allowed, b) =~= pairs_below(cores, allowed, a));
    }
}

/// The pairs of later nodes come behind those of earlier ones.
proof fn lemma_pairs_below_prefix(cores: Seq<Core>, allowed: Seq<u32>, a: nat, b: nat)
    requires
        a <= b,
    ensures
        pairs_below(cores, allowed, a).len() <= pairs_below(cores, allowed, b).len(),
        pairs_below(cores, allowed, b).take(pairs_below(cores, allowed, a).len() as int) == pairs_below(
            cores,
            allowed,
            a,
        ),
    decreases b,
{
    let p = pairs_below(cores, allowed, a);
    if a < b {
        lemma_pairs_below_prefix(cores, allowed, a, (b - 1) as nat);
        let before = pairs_below(cores, allowed, (b - 1) as nat);
        let all = pairs_below(cores, allowed, b);
        assert(all.take(p.len() as int) =~= before.take(p.len() as int));
    } else {
        assert(p.take(p.len() as int) =~= p);
    }
}

/// The pairs of later chunks come behind those of earlier ones.
proof fn lemma_pairs_of_prefix(cores: Seq<Core>, node: u32, a: nat, b: nat)
    requires
        a <= b,
        a % 2 == 0,
    ensures
        pairs_of(cores, node, a).len() <= pairs_of(cores, node, b).len(),
        pairs_of(cores, node, b).take(pairs_of(cores, node, a).len() as int) == pairs_of(cores, node, a),
    decreases b,
{
    let p = pairs_of(cores, node, a);
    if a == b {
        assert(p.take(p.len() as int) =~= p);
    } else if b < 2 {
        assert(p.take(p.len() as int) =~= p);
    } else if b % 2 == 1 {
        lemma_pairs_of_prefix(cores, node, a, (b - 1) as nat);
    } else {
        lemma_pairs_of_prefix(cores, node, a, (b - 2) as nat);
        let before = pairs_of(cores, node, (b - 2) as nat);
        let all = pairs_of(cores, node, b);
        assert(all.take(p.len() as int) =~= before.take(p.len() as int));
    }
}

fn all_allowed(vcpus: &Vec<u32>, allowed: &HashSet<u32>) -> (r: bool)
    ensures
        r == (forall|i: int| 0 <= i < vcpus@.len() ==> allowed@.contains(#[trigger] vcpus@[i])),
{
    for i in 0..vcpus.len()
        invariant
            forall|j: int| 0 <= j < i ==> allowed@.contains(#[trigger] vcpus@[j]),
    {
        if !allowed.contains(&vcpus[i]) {
            return false;
        }
    }
    true
}

/// Indices of the usable cores of one memory node.
fn cores_on_node(groups: &[SmtGroup], allowed: &HashSet<u32>, node: u32, Ghost(cpus): Ghost<Seq<u32>>) -> (r: Vec<usize>)
    requires
        forall|cpu: u32| allowed@.contains(cpu) <==> cpus.contains(cpu),
    ensures
        forall|k: int| 0 <= k < r@.len() ==> r@[k] < groups@.len(),
        Seq::new(r@.len(), |k: int| groups@[r@[k] as int]@) == node_cores(cores(groups@), cpus, node),
{
    let ghost pred = |core: Core| usable(core, cpus) && core.numa_node == node;
    let ghost all = cores(groups@);
    let mut r: Vec<usize> = Vec::new();
    proof {
        reveal(Seq::filter);
        assert(all.take(0).filter(pred) =~= Seq::<Core>::empty());
        assert(Seq::new(0, |k: int| groups@[r@[k] as int]@) =~= Seq::<Core>::empty());
    }
    for i in 0..groups.len()
        invariant
            forall|cpu: u32| allowed@.contains(cpu) <==> cpus.contains(cpu),
            all == cores(groups@),
            pred == (|core: Core| usable(core, cpus) && core.numa_node == node),
            forall|k: int| 0 <= k < r@.len() ==> r@[k] < i,
            Seq::new(r@.len(), |k: int| groups@[r@[k] as int]@) == all.take(i as int).filter(pred),
    {
        let ghost before = Seq::new(r@.len(), |k: int| groups@[r@[k] as int]@);
        let group = &groups[i];
        proof {
            reveal(Seq::filter);
            assert(all.take(i + 1).drop_last() =~= all.take(i as int));
            assert(all.take(i + 1).last() == group@);
        }
        if group.numa_node == node && all_allowed(&group.vcpus, allowed) {
            r.push(i);
            assert(usable(group@, cpus));
            assert(Seq::new(r@.len(), |k: int| groups@[r@[k] as int]@) =~= before.push(group@));
        } else {
            assert(!pred(group@)) by {
                if usable(group@, cpus) {
                    assert forall|j: int| 0 <= j < group.vcpus@.len() implies allowed@.contains(
                        #[trigger] group.vcpus@[j],
                    ) by {
                        assert(cpus.contains(group@.vcpus[j]));
                    }
                }
            }
        }
    }
    assert(all.take(all.len() as int) =~= all);
    r
}

/// The least node at or behind `from` that has a usable core.
fn next_node(groups: &[SmtGroup], allowed: &HashSet<u32>, from: u32, Ghost(cpus): Ghost<Seq<u32>>) -> (r: Option<u32>)
    requires
        forall|cpu: u32| allowed@.contains(cpu) <==> cpus.contains(cpu),
    ensures
        ({
            let bound = match r {
                Some(node) => node as int,
                None => cpu_numbers() as int,
            };
            &&& from <= bound
            &&& forall|i: int|
                0 <= i < groups@.len() && usable(cores(groups@)[i], cpus) ==> !(from <= (#[trigger] cores(
                    groups@,
                )[i]).numa_node < bound)
        }),
        r matches Some(node) ==> exists|i: int|
            0 <= i < groups@.len() && usable(#[trigger] cores(groups@)[i], cpus) && cores(groups@)[i].numa_node == node,
{
    let mut r: Option<u32> = None;
    for i in 0..groups.len()
        invariant
            forall|cpu: u32| allowed@.contains(cpu) <==> cpus.contains(cpu),
            ({
                let bound = match r {
                    Some(node) => node as int,
                    None => cpu_numbers() as int,
                };
                &&& from <= bound
                &&& forall|j: int|
                    0 <= j < i && usable(cores(groups@)[j], cpus) ==> !(from <= (#[trigger] cores(
                        groups@,
                    )[j]).numa_node < bound)
            }),
            r matches Some(node) ==> exists|j: int|
                0 <= j < groups@.len() && usable(#[trigger] cores(groups@)[j], cpus) && cores(groups@)[j].numa_node
                    == node,
    {
        let group = &groups[i];
        let node = group.numa_node;
        let nearer = match r {
            Some(found) => node < found,
            None => true,
        };
        assert(cores(groups@)[i as int] == group@);
        if from <= node && nearer && all_allowed(&group.vcpus, allowed) {
            r = Some(node);
            assert(usable(cores(groups@)[i as int], cpus));
        }
    }
    r
}

/// Appends the pairs of the given cores until `wanted` are there.
fn pair_cores(groups: &[SmtGroup], indices: &Vec<usize>, node: u32, wanted: usize, pairs: &mut Vec<Pair>)
    requires
        forall|k: int| 0 <= k < indices@.len() ==> indices@[k] < groups@.len(),
        old(pairs)@.len() <= wanted,
    ensures
        ({
            let on_node = Seq::new(indices@.len(), |k: int| groups@[indices@[k] as int]@);
            let all = old(pairs)@ + pairs_of(on_node, node, on_node.len());
            final(pairs)@ == (if all.len() <= wanted {
                all
            } else {
                all.take(wanted as int)
            })
        }),
{
    let ghost start = pairs@;
    let ghost on_node = Seq::new(indices@.len(), |k: int| groups@[indices@[k] as int]@);
    let n = indices.len();
    let ghost all = start + pairs_of(on_node, node, n as nat);
    let mut k: usize = 0;
    assert(pairs@ =~= start + pairs_of(on_node, node, 0));
    while k + 1 < n && pairs.len() < wanted
        invariant
            forall|k: int| 0 <= k < indices@.len() ==> indices@[k] < groups@.len(),
            on_node == Seq::new(indices@.len(), |k: int| groups@[indices@[k] as int]@),
            n == indices@.len(),
            k <= n,
            k % 2 == 0,
            all == start + pairs_of(on_node, node, n as nat),
            pairs@.len() <= wanted,
            pairs@ == start + pairs_of(on_node, node, k as nat) || (pairs@.len() == wanted && all.len() >= wanted
                && pairs@ == all.take(wanted as int)),
        decreases n - k,
    {
        let rt_group = &groups[indices[k]];
        let sq_group = &groups[indices[k + 1]];
        let ghost done = pairs@;
        let ghost chunk = chunk_pairs(rt_group@, sq_group@, node);
        proof {
            assert(pairs_of(on_node, node, (k + 2) as nat) == pairs_of(on_node, node, k as nat) + chunk);
            lemma_pairs_of_prefix(on_node, node, (k + 2) as nat, n as nat);
        }
        let ghost reach = start + pairs_of(on_node, node, (k + 2) as nat);
        assert(reach =~= done + chunk);
        assert(all.take(reach.len() as int) =~= reach);
        let n_in_chunk = if rt_group.vcpus.len() <= sq_group.vcpus.len() {
            rt_group.vcpus.len()
        } else {
            sq_group.vcpus.len()
        };
        let mut i: usize = 0;
        assert(pairs@ =~= done + chunk.take(0));
        while i < n_in_chunk && pairs.len() < wanted
            invariant
                i <= n_in_chunk,
                n_in_chunk <= rt_group.vcpus@.len(),
                n_in_chunk <= sq_group.vcpus@.len(),
                chunk == chunk_pairs(rt_group@, sq_group@, node),
                chunk.len() == n_in_chunk,
                pairs@.len() <= wanted,
                pairs@ == done + chunk.take(i as int),
            decreases n_in_chunk - i,
        {
            pairs.push(
                Pair { runtime_vcpu: rt_group.vcpus[i], sqpoll_vcpu: sq_group.vcpus[i], numa_node: node },
            );
            assert(pairs@ =~= done + chunk.take(i + 1));
            i = i + 1;
        }
        proof {
            if i == n_in_chunk {
                assert(chunk.take(i as int) =~= chunk);
            } else {
                assert(pairs@.len() == wanted);
                assert(pairs@ =~= reach.take(wanted as int));
                assert(all.take(wanted as int) =~= reach.take(wanted as int));
            }
        }
        k = k + 2;
    }
    proof {
        if pairs@ == start + pairs_of(on_node, node, k as nat) {
            lemma_pairs_of_prefix(on_node, node, k as nat, n as nat);
            if k + 1 >= n {
                assert(all =~= pairs@);
            } else {
                assert(all.take(wanted as int) =~= pairs@);
            }
            assert(all.len() == wanted ==> all.take(wanted as int) =~= all);
        } else {
            assert(all.len() == wanted ==> all.take(wanted as int) =~= all);
        }
    }
}

/// Plan `pairs_wanted` (runtime, sqpoll) pairs grouped within each NUMA node.
///
/// Within a NUMA node, physical cores are split into adjacent chunks of two:
/// one runtime phys core + one sqpoll phys core. Each phys core contributes
/// both SMT siblings, so a chunk produces 2 pairs:
///   - pair_a: runtime on rt_core.vcpus[0], sqpoll on sq_core.vcpus[0]
///   - pair_b: runtime on rt_core.vcpus[1], sqpoll on sq_core.vcpus[1]
///
/// Runtime and sqpoll never share a physical core (no SMT contention between
/// userspace and kthread). Same-role siblings share a physical core (cheap).
pub fn plan_pairs(allowed_vcpus: &[u32], smt_groups: &[SmtGroup], pairs_wanted: usize) -> (r: Result<Vec<Pair>, String>)
    ensures
        ({
            let possible = possible_pairs(cores(smt_groups@), allowed_vcpus@);
            match r {
                Ok(pairs) => possible.len() >= pairs_wanted && pairs@ == possible.take(pairs_wanted as int),
                Err(message) => possible.len() < pairs_wanted && message@ == placement_error(
                    pairs_wanted as nat,
                    possible.len(),
                ),
            }
        }),
{
    let ghost all = cores(smt_groups@);
    let ghost cpus = allowed_vcpus@;
    let ghost possible = possible_pairs(all, cpus);
    let mut allowed: HashSet<u32> = HashSet::new();
    for i in 0..allowed_vcpus.len()
        invariant
            forall|cpu: u32| allowed@.contains(cpu) <==> allowed_vcpus@.take(i as int).contains(cpu),
    {
        let ghost before = allowed@;
        allowed.insert(allowed_vcpus[i]);
        proof {
            let now = allowed_vcpus@.take(i + 1);
            let prev = allowed_vcpus@.take(i as int);
            assert forall|cpu: u32| allowed@.contains(cpu) <==> now.contains(cpu) by {
                if before.contains(cpu) {
                    let j = choose|j: int| 0 <= j < i && prev[j] == cpu;
                    assert(now[j] == cpu);
                }
                if cpu == allowed_vcpus@[i as int] {
                    assert(now[i as int] == cpu);
                }
                if now.contains(cpu) {
                    let j = choose|j: int| 0 <= j < now.len() && now[j] == cpu;
                    if j < i {
                        assert(prev[j] == cpu);
                    }
                }
            }
        }
    }
    assert(allowed_vcpus@.take(allowed_vcpus@.len() as int) =~= cpus);
    let mut pairs: Vec<Pair> = Vec::new();
    let mut from: u32 = 0;
    let ghost mut bound: nat = 0;
    proof {
        lemma_pairs_below_prefix(all, cpus, 0, cpu_numbers());
    }
    loop
        invariant_except_break
            bound == from,
            pairs@ == pairs_below(all, cpus, bound),
        invariant
            all == cores(smt_groups@),
            cpus == allowed_vcpus@,
            possible == possible_pairs(all, cpus),
            forall|cpu: u32| allowed@.contains(cpu) <==> cpus.contains(cpu),
            pairs@.len() <= pairs_wanted,
        ensures
            pairs@ == possible || (pairs@.len() == pairs_wanted && possible.len() >= pairs_wanted && pairs@
                == possible.take(pairs_wanted as int)),
        decreases cpu_numbers() - bound,
    {
        proof {
            lemma_pairs_below_prefix(all, cpus, bound, cpu_numbers());
        }
        if pairs.len() == pairs_wanted {
            break ;
        }
        let node = match next_node(smt_groups, &allowed, from, Ghost(cpus)) {
            Some(node) => node,
            None => {
                proof {
                    lemma_no_pairs_between(all, cpus, bound, cpu_numbers());
                }
                break ;
            },
        };
        let indices = cores_on_node(smt_groups, &allowed, node, Ghost(cpus));
        let ghost here = pairs_below(all, cpus, (node + 1) as nat);
        proof {
            lemma_no_pairs_between(all, cpus, bound, node as nat);
            lemma_pairs_below_prefix(all, cpus, (node + 1) as nat, cpu_numbers());
            let on_node = Seq::new(indices@.len(), |k: int| smt_groups@[indices@[k] as int]@);
            assert(here == pairs@ + pairs_of(on_node, node, on_node.len()));
        }
        pair_cores(smt_groups, &indices, node, pairs_wanted, &mut pairs);
        if pairs.len() == pairs_wanted {
            proof {
                assert(here.len() >= pairs_wanted);
                assert(here.len() == pairs_wanted ==> here.take(pairs_wanted as int) =~= here);
                assert(pairs@ =~= here.take(pairs_wanted as int));
                assert(possible.take(pairs_wanted as int) =~= possible.take(here.len() as int).take(pairs_wanted as int));
            }
            break ;
        }
        if node == u32::MAX {
            break ;
        }
        from = node + 1;
        proof {
            bound = (node + 1) as nat;
        }
    }
    if pairs.len() < pairs_wanted {
        return Err(placement_message(pairs_wanted, pairs.len()));
    }
    assert(possible.len() == pairs_wanted ==> possible.take(pairs_wanted as int) =~= possible);
    Ok(pairs)
}

/// The pair joins the `k`-th processors of cores `a` and `b`, which are on its
/// node.
pub open spec fn joins(pair: Pair, cores: Seq<Core>, a: int, b: int, k: int) -> bool {
    &&& 0 <= a < b < cores.len()
    &&& 0 <= k < cores[a].vcpus.len()
    &&& k < cores[b].vcpus.len()
    &&& pair.runtime_vcpu == cores[a].vcpus[k]
    &&& pair.sqpoll_vcpu == cores[b].vcpus[k]
    &&& cores[a].numa_node == pair.numa_node
    &&& cores[b].numa_node == pair.numa_node
}

/// What is left of a sequence stays in order.
proof fn lemma_filter_order(cores: Seq<Core>, pred: spec_fn(Core) -> bool, c: int, d: int) -> (r: (int, int))
    requires
        0 <= c < d < cores.filter(pred).len(),
    ensures
        0 <= r.0 < r.1 < cores.len(),
        cores[r.0] == cores.filter(pred)[c],
        cores[r.1] == cores.filter(pred)[d],
        pred(cores[r.0]),
        pred(cores[r.1]),
    decreases cores.len(),
{
    reveal(Seq::filter);
    let before = cores.drop_last();
    if d < before.filter(pred).len() {
        lemma_filter_order(before, pred, c, d)
    } else {
        let kept = before.filter(pred);
        before.lemma_filter_contains_rev(pred, kept[c]);
        before.lemma_filter_pred(pred, c);
        let a = choose|a: int| 0 <= a < before.len() && before[a] == kept[c];
        (a, cores.len() - 1)
    }
}

/// A pair of a node joins two of the node's cores.
proof fn lemma_pairs_of_join(on_node: Seq<Core>, node: u32, n: nat, i: int) -> (r: (int, int, int))
    requires
        n <= on_node.len(),
        forall|c: int| 0 <= c < on_node.len() ==> (#[trigger] on_node[c]).numa_node == node,
        0 <= i < pairs_of(on_node, node, n).len(),
    ensures
        joins(pairs_of(on_node, node, n)[i], on_node, r.0, r.1, r.2),
        r.1 < n,
    decreases n,
{
    if n % 2 == 1 {
        lemma_pairs_of_join(on_node, node, (n - 1) as nat, i)
    } else {
        let before = pairs_of(on_node, node, (n - 2) as nat);
        if i < before.len() {
            lemma_pairs_of_join(on_node, node, (n - 2) as nat, i)
        } else {
            (n - 2, n - 1, i - before.len())
        }
    }
}

proof fn lemma_on_node(cores: Seq<Core>, allowed: Seq<u32>, node: u32)
    ensures
        forall|c: int|
            0 <= c < node_cores(cores, allowed, node).len() ==> (#[trigger] node_cores(
                cores,
                allowed,
                node,
            )[c]).numa_node == node,
{
    let pred = |core: Core| usable(core, allowed) && core.numa_node == node;
    assert forall|c: int| 0 <= c < cores.filter(pred).len() implies (#[trigger] cores.filter(pred)[c]).numa_node
        == node by {
        cores.lemma_filter_pred(pred, c);
    }
}

/// The runtime and the poller of a pair sit on two different physical cores of
/// the pair's memory node, and both cores are allowed whole.
pub proof fn pairs_join_two_cores_of_a_node(cores: Seq<Core>, allowed: Seq<u32>, n: nat, i: int) -> (r: (int, int, int))
    requires
        n <= cpu_numbers(),
        0 <= i < pairs_below(cores, allowed, n).len(),
    ensures
        joins(pairs_below(cores, allowed, n)[i], cores, r.0, r.1, r.2),
        usable(cores[r.0], allowed),
        usable(cores[r.1], allowed),
        pairs_below(cores, allowed, n)[i].numa_node < n,
    decreases n,
{
    let before = pairs_below(cores, allowed, (n - 1) as nat);
    if i < before.len() {
        pairs_join_two_cores_of_a_node(cores, allowed, (n - 1) as nat, i)
    } else {
        let node = (n - 1) as u32;
        let on_node = node_cores(cores, allowed, node);
        let pred = |core: Core| usable(core, allowed) && core.numa_node == node;
        lemma_on_node(cores, allowed, node);
        let (c, d, k) = lemma_pairs_of_join(on_node, node, on_node.len(), i - before.len());
        let (a, b) = lemma_filter_order(cores, pred, c, d);
        (a, b, k)
    }
}

/// Memory nodes are used up one after the other, in ascending order.
pub proof fn pairs_go_by_node(cores: Seq<Core>, allowed: Seq<u32>, n: nat, i: int, j: int)
    requires
        n <= cpu_numbers(),
        0 <= i <= j < pairs_below(cores, allowed, n).len(),
    ensures
        pairs_below(cores, allowed, n)[i].numa_node <= pairs_below(cores, allowed, n)[j].numa_node,
    decreases n,
{
    let before = pairs_below(cores, allowed, (n - 1) as nat);
    if j < before.len() {
        pairs_go_by_node(cores, allowed, (n - 1) as nat, i, j);
    } else {
        let node = (n - 1) as u32;
        let on_node = node_cores(cores, allowed, node);
        lemma_on_node(cores, allowed, node);
        let _ = lemma_pairs_of_join(on_node, node, on_node.len(), j - before.len());
        let _ = pairs_join_two_cores_of_a_node(cores, allowed, n, i);
    }
}

/// No processor is in two places: the cores are what the kernel says they are.
pub open spec fn separate(cores: Seq<Core>) -> bool {
    &&& forall|a: int, j: int, k: int|
        0 <= a < cores.len() && 0 <= j < k < cores[a].vcpus.len() ==> #[trigger] cores[a].vcpus[j]
            != #[trigger] cores[a].vcpus[k]
    &&& forall|a: int, b: int, j: int, k: int|
        0 <= a < b < cores.len() && 0 <= j < cores[a].vcpus.len() && 0 <= k < cores[b].vcpus.len()
            ==> #[trigger] cores[a].vcpus[j] != #[trigger] cores[b].vcpus[k]
}

pub open spec fn uses(pair: Pair, cpu: u32) -> bool {
    pair.runtime_vcpu == cpu || pair.sqpoll_vcpu == cpu
}

/// No processor has two roles.
pub open spec fn dedicated(pairs: Seq<Pair>) -> bool {
    &&& forall|i: int| 0 <= i < pairs.len() ==> (#[trigger] pairs[i]).runtime_vcpu != pairs[i].sqpoll_vcpu
    &&& forall|i: int, j: int, cpu: u32|
        0 <= i < j < pairs.len() && #[trigger] uses(pairs[i], cpu) ==> !#[trigger] uses(pairs[j], cpu)
}

proof fn lemma_filter_separate(cores: Seq<Core>, pred: spec_fn(Core) -> bool)
    requires
        separate(cores),
    ensures
        separate(cores.filter(pred)),
{
    let kept = cores.filter(pred);
    assert forall|a: int, j: int, k: int|
        0 <= a < kept.len() && 0 <= j < k < kept[a].vcpus.len() implies #[trigger] kept[a].vcpus[j]
        != #[trigger] kept[a].vcpus[k] by {
        cores.lemma_filter_contains_rev(pred, kept[a]);
        let c = choose|c: int| 0 <= c < cores.len() && cores[c] == kept[a];
        assert(cores[c].vcpus[j] != cores[c].vcpus[k]);
    }
    assert forall|a: int, b: int, j: int, k: int|
        0 <= a < b < kept.len() && 0 <= j < kept[a].vcpus.len() && 0 <= k < kept[b].vcpus.len()
            implies #[trigger] kept[a].vcpus[j] != #[trigger] kept[b].vcpus[k] by {
        let (c, d) = lemma_filter_order(cores, pred, a, b);
        assert(cores[c].vcpus[j] != cores[d].vcpus[k]);
    }
}

/// Where two pairs use processors of different cores, or different processors
/// of the same cores, they share none.
proof fn lemma_pairs_of_dedicated(on_node: Seq<Core>, node: u32, n: nat)
    requires
        n <= on_node.len(),
        forall|c: int| 0 <= c < on_node.len() ==> (#[trigger] on_node[c]).numa_node == node,
        separate(on_node),
    ensures
        dedicated(pairs_of(on_node, node, n)),
    decreases n,
{
    let pairs = pairs_of(on_node, node, n);
    if n < 2 {
    } else if n % 2 == 1 {
        lemma_pairs_of_dedicated(on_node, node, (n - 1) as nat);
    } else {
        let before = pairs_of(on_node, node, (n - 2) as nat);
        lemma_pairs_of_dedicated(on_node, node, (n - 2) as nat);
        let rt = on_node[n - 2];
        let sq = on_node[n - 1];
        assert forall|i: int| 0 <= i < pairs.len() implies (#[trigger] pairs[i]).runtime_vcpu
            != pairs[i].sqpoll_vcpu by {
            if i < before.len() {
                assert(pairs[i] == before[i]);
            } else {
                assert(rt.vcpus[i - before.len()] != sq.vcpus[i - before.len()]);
            }
        }
        assert forall|i: int, j: int, cpu: u32|
            0 <= i < j < pairs.len() && #[trigger] uses(pairs[i], cpu) implies !#[trigger] uses(pairs[j], cpu) by {
            if j < before.len() {
                assert(pairs[i] == before[i] && pairs[j] == before[j]);
            } else {
                let k = j - before.len();
                if i < before.len() {
                    let (c, d, l) = lemma_pairs_of_join(on_node, node, (n - 2) as nat, i);
                    assert(on_node[c].vcpus[l] != rt.vcpus[k]);
                    assert(on_node[c].vcpus[l] != sq.vcpus[k]);
                    assert(on_node[d].vcpus[l] != rt.vcpus[k]);
                    assert(on_node[d].vcpus[l] != sq.vcpus[k]);
                } else {
                    let l = i - before.len();
                    assert(rt.vcpus[l] != rt.vcpus[k]);
                    assert(sq.vcpus[l] != sq.vcpus[k]);
                    assert(rt.vcpus[l] != sq.vcpus[k]);
                    assert(rt.vcpus[k] != sq.vcpus[l]);
                }
            }
        }
    }
}

/// Every runtime and every poller has a processor to itself.
pub proof fn every_pair_is_dedicated(cores: Seq<Core>, allowed: Seq<u32>, n: nat)
    requires
        n <= cpu_numbers(),
        separate(cores),
    ensures
        dedicated(pairs_below(cores, allowed, n)),
    decreases n,
{
    if n > 0 {
        let pairs = pairs_below(cores, allowed, n);
        let before = pairs_below(cores, allowed, (n - 1) as nat);
        let node = (n - 1) as u32;
        let on_node = node_cores(cores, allowed, node);
        let here = node_pairs(cores, allowed, node);
        every_pair_is_dedicated(cores, allowed, (n - 1) as nat);
        lemma_filter_separate(cores, |core: Core| usable(core, allowed) && core.numa_node == node);
        lemma_on_node(cores, allowed, node);
        lemma_pairs_of_dedicated(on_node, node, on_node.len());
        assert forall|i: int| 0 <= i < pairs.len() implies (#[trigger] pairs[i]).runtime_vcpu
            != pairs[i].sqpoll_vcpu by {
            if i < before.len() {
                assert(pairs[i] == before[i]);
            } else {
                assert(pairs[i] == here[i - before.len()]);
            }
        }
        assert forall|i: int, j: int, cpu: u32|
            0 <= i < j < pairs.len() && #[trigger] uses(pairs[i], cpu) implies !#[trigger] uses(pairs[j], cpu) by {
            if j < before.len() {
                assert(pairs[i] == before[i] && pairs[j] == before[j]);
            } else if i >= before.len() {
                assert(pairs[i] == here[i - before.len()] && pairs[j] == here[j - before.len()]);
            } else {
                let (a, b, k) = pairs_join_two_cores_of_a_node(cores, allowed, (n - 1) as nat, i);
                let (c, d, l) = pairs_join_two_cores_of_a_node(cores, allowed, n, j);
                let _ = lemma_pairs_of_join(on_node, node, on_node.len(), j - before.len());
                assert(pairs[i] == before[i]);
                assert(pairs[i].numa_node < node && pairs[j].numa_node == node);
                lemma_apart(cores, a, c, k, l);
                lemma_apart(cores, a, d, k, l);
                lemma_apart(cores, b, c, k, l);
                lemma_apart(cores, b, d, k, l);
            }
        }
    }
}

proof fn lemma_apart(cores: Seq<Core>, a: int, b: int, k: int, l: int)
    requires
        separate(cores),
        0 <= a < cores.len(),
        0 <= b < cores.len(),
        a != b,
        0 <= k < cores[a].vcpus.len(),
        0 <= l < cores[b].vcpus.len(),
    ensures
        cores[a].vcpus[k] != cores[b].vcpus[l],
{
}

/// What is read off a list of processors from `lo` to `hi`: each of them once,
/// in order, and no other.
pub proof fn ranges_hold_every_processor(lo: u32, hi: u32, cpu: u32)
    ensures
        cpu_range(lo, hi).contains(cpu) <==> lo <= cpu <= hi,
        forall|i: int, j: int|
            0 <= i < j < cpu_range(lo, hi).len() ==> (#[trigger] cpu_range(lo, hi)[i]) < (#[trigger] cpu_range(lo, hi)[j]),
{
    if lo <= cpu <= hi {
        assert(cpu_range(lo, hi)[cpu - lo] == cpu);
    }
}

/// The least number of a list is one of it, and none of it is smaller.
pub proof fn least_is_the_smallest(s: Seq<u32>)
    requires
        s.len() > 0,
    ensures
        s.contains(least(s)),
        forall|i: int| 0 <= i < s.len() ==> least(s) <= #[trigger] s[i],
    decreases s.len(),
{
    if s.len() > 1 {
        let before = s.drop_last();
        least_is_the_smallest(before);
        let j = choose|j: int| 0 <= j < before.len() && before[j] == least(before);
        assert(s[j] == before[j]);
        assert(s[s.len() - 1] == s.last());
        assert forall|i: int| 0 <= i < s.len() implies least(s) <= #[trigger] s[i] by {
            if i < before.len() {
                assert(before[i] == s[i]);
            }
        }
    } else {
        assert(s[0] == least(s));
    }
}

/// Sorting keeps every processor of a core as often as it is there, and puts
/// them in order.
pub proof fn sorting_keeps_every_processor(s: Seq<u32>)
    ensures
        ascending(s).to_multiset() == s.to_multiset(),
        ascending(s).len() == s.len(),
        forall|i: int, j: int| 0 <= i <= j < s.len() ==> (#[trigger] ascending(s)[i]) <= (#[trigger] ascending(s)[j]),
{
    let leq = |a: u32, b: u32| a <= b;
    assert(vstd::relations::total_ordering(leq));
    s.lemma_sort_by_ensures(leq);
    vstd::seq_lib::to_multiset_len(s);
    vstd::seq_lib::to_multiset_len(ascending(s));
    assert forall|i: int, j: int| 0 <= i <= j < s.len() implies (#[trigger] ascending(s)[i]) <= (
    #[trigger] ascending(s)[j]) by {
        if i < j {
            assert(leq(ascending(s)[i], ascending(s)[j]));
        }
    }
}

/// Every list of siblings that names a processor is kept, under its smallest
/// processor, unless one is kept under it already; all else stays.
pub proof fn siblings_are_kept(groups: Map<u32, Seq<u32>>, siblings: Seq<u32>, key: u32)
    ensures
        siblings.len() == 0 ==> with_siblings(groups, siblings) == groups,
        siblings.len() > 0 && siblings.contains(key) && (forall|i: int|
            0 <= i < siblings.len() ==> key <= #[trigger] siblings[i]) ==> {
            &&& with_siblings(groups, siblings).dom() == groups.dom().insert(key)
            &&& with_siblings(groups, siblings)[key] == (if groups.dom().contains(key) {
                groups[key]
            } else {
                siblings
            })
        },
        groups.dom().contains(key) ==> with_siblings(groups, siblings).dom().contains(key) && with_siblings(
            groups,
            siblings,
        )[key] == groups[key],
{
    if siblings.len() > 0 {
        least_is_the_smallest(siblings);
        if siblings.contains(key) && forall|i: int| 0 <= i < siblings.len() ==> key <= #[trigger] siblings[i] {
            let j = choose|j: int| 0 <= j < siblings.len() && siblings[j] == least(siblings);
            let k = choose|k: int| 0 <= k < siblings.len() && siblings[k] == key;
            assert(least(siblings) <= siblings[k]);
            assert(key <= siblings[j]);
            assert(with_siblings(groups, siblings).dom() =~= groups.dom().insert(key));
        }
    }
}

/// The core is the one under the key: it has the same processors, in order, and
/// is on the memory node that lists the key, or on node 0.
pub open spec fn is_core_of(core: Core, siblings: Seq<u32>, numa: Map<u32, u32>, key: u32) -> bool {
    &&& core.vcpus.to_multiset() == siblings.to_multiset()
    &&& forall|i: int, j: int| 0 <= i <= j < core.vcpus.len() ==> (#[trigger] core.vcpus[i]) <= (#[trigger] core.vcpus[j])
    &&& core.numa_node == (if numa.dom().contains(key) {
        numa[key]
    } else {
        0
    })
}

proof fn lemma_cores_below_count(groups: Map<u32, Seq<u32>>, numa: Map<u32, u32>, n: nat)
    requires
        n <= cpu_numbers(),
    ensures
        groups.dom().filter(|k: u32| k < n).finite(),
        groups.dom().filter(|k: u32| k < n).len() == cores_below(groups, numa, n).len(),
    decreases n,
{
    let here = groups.dom().filter(|k: u32| k < n);
    if n == 0 {
        assert(here =~= Set::<u32>::empty());
    } else {
        lemma_cores_below_count(groups, numa, (n - 1) as nat);
        let key = (n - 1) as u32;
        let before = groups.dom().filter(|k: u32| k < (n - 1) as nat);
        if groups.dom().contains(key) {
            assert(here =~= before.insert(key));
        } else {
            assert(here =~= before);
        }
    }
}

proof fn lemma_cores_below_prefix(groups: Map<u32, Seq<u32>>, numa: Map<u32, u32>, a: nat, b: nat)
    requires
        a <= b,
    ensures
        cores_below(groups, numa, a).len() <= cores_below(groups, numa, b).len(),
        forall|i: int|
            0 <= i < cores_below(groups, numa, a).len() ==> cores_below(groups, numa, b)[i] == #[trigger] cores_below(
                groups,
                numa,
                a,
            )[i],
    decreases b,
{
    if a < b {
        lemma_cores_below_prefix(groups, numa, a, (b - 1) as nat);
    }
}

/// Every list of siblings that was kept is one core of the machine, and there
/// are no others: as many cores as lists, each at a place of its own, in the
/// order of their smallest processors.
pub proof fn every_sibling_list_is_a_core(groups: Map<u32, Seq<u32>>, numa: Map<u32, u32>, key: u32) -> (place: int)
    requires
        groups.dom().contains(key),
    ensures
        groups.dom().finite(),
        cores_below(groups, numa, cpu_numbers()).len() == groups.dom().len(),
        place == groups.dom().filter(|k: u32| k < key).len(),
        0 <= place < groups.dom().len(),
        is_core_of(cores_below(groups, numa, cpu_numbers())[place], groups[key], numa, key),
{
    lemma_cores_below_count(groups, numa, cpu_numbers());
    assert(groups.dom().filter(|k: u32| k < cpu_numbers()) =~= groups.dom());
    lemma_cores_below_count(groups, numa, key as nat);
    assert(groups.dom().filter(|k: u32| k < key as nat) =~= groups.dom().filter(|k: u32| k < key));
    let place = cores_below(groups, numa, key as nat).len() as int;
    lemma_cores_below_prefix(groups, numa, (key + 1) as nat, cpu_numbers());
    assert(cores_below(groups, numa, (key + 1) as nat)[place].vcpus == ascending(groups[key]));
    sorting_keeps_every_processor(groups[key]);
    place
}

/// A machine without lists of siblings has no cores.
pub proof fn no_siblings_no_cores(groups: Map<u32, Seq<u32>>, numa: Map<u32, u32>)
    requires
        groups.dom() == Set::<u32>::empty(),
    ensures
        cores_below(groups, numa, cpu_numbers()).len() == 0,
{
    lemma_cores_below_count(groups, numa, cpu_numbers());
    assert(groups.dom().filter(|k: u32| k < cpu_numbers()) =~= Set::<u32>::empty());
}

/// `places` are the places of the cores on the node whose processors are all
/// allowed, in order.
pub open spec fn are_places(places: Seq<int>, cores: Seq<Core>, allowed: Seq<u32>, node: u32) -> bool {
    &&& forall|k: int, l: int| 0 <= k < l < places.len() ==> (#[trigger] places[k]) < (#[trigger] places[l])
    &&& forall|k: int| 0 <= k < places.len() ==> 0 <= (#[trigger] places[k]) < cores.len()
    &&& forall|i: int|
        0 <= i < cores.len() ==> (#[trigger] places.contains(i) <==> cores[i].numa_node == node && forall|v: int|
            0 <= v < cores[i].vcpus.len() ==> allowed.contains(#[trigger] cores[i].vcpus[v]))
}

/// The core of chunk `c` that runs.
pub open spec fn runs_in(cores: Seq<Core>, places: Seq<int>, c: nat) -> Core {
    cores[places[(2 * c) as int]]
}

/// The core of chunk `c` that polls.
pub open spec fn polls_in(cores: Seq<Core>, places: Seq<int>, c: nat) -> Core {
    cores[places[(2 * c + 1) as int]]
}

/// The number of pairs of the first `c` chunks: two cores to a chunk, and a pair
/// for every processor that both have.
pub open spec fn pairs_before(cores: Seq<Core>, places: Seq<int>, c: nat) -> int
    decreases c,
{
    if c == 0 {
        0
    } else {
        let runs = runs_in(cores, places, (c - 1) as nat).vcpus.len() as int;
        let polls = polls_in(cores, places, (c - 1) as nat).vcpus.len() as int;
        pairs_before(cores, places, (c - 1) as nat) + (if runs <= polls {
            runs
        } else {
            polls
        })
    }
}

/// The pairs that are on a node.
pub open spec fn pairs_on(pairs: Seq<Pair>, node: u32) -> Seq<Pair> {
    pairs.filter(|pair: Pair| pair.numa_node == node)
}

proof fn lemma_picked(cores: Seq<Core>, pred: spec_fn(Core) -> bool, places: Seq<int>)
    requires
        forall|k: int, l: int| 0 <= k < l < places.len() ==> (#[trigger] places[k]) < (#[trigger] places[l]),
        forall|k: int| 0 <= k < places.len() ==> 0 <= (#[trigger] places[k]) < cores.len(),
        forall|i: int| 0 <= i < cores.len() ==> (#[trigger] places.contains(i) <==> pred(cores[i])),
    ensures
        cores.filter(pred) == Seq::new(places.len(), |k: int| cores[places[k]]),
    decreases cores.len(),
{
    reveal(Seq::filter);
    let picked = Seq::new(places.len(), |k: int| cores[places[k]]);
    if cores.len() == 0 {
        if places.len() > 0 {
            assert(0 <= places[0] < cores.len());
        }
        assert(picked =~= Seq::<Core>::empty());
    } else {
        let last = cores.len() - 1;
        let before = cores.drop_last();
        if pred(cores[last]) {
            assert(places.contains(last));
            let k = choose|k: int| 0 <= k < places.len() && places[k] == last;
            if k < places.len() - 1 {
                assert(places[k] < places[k + 1]);
            }
            let rest = places.drop_last();
            assert forall|i: int| 0 <= i < before.len() implies (#[trigger] rest.contains(i) <==> pred(before[i])) by {
                assert(places.contains(i) <==> pred(cores[i]));
                if places.contains(i) {
                    let j = choose|j: int| 0 <= j < places.len() && places[j] == i;
                    assert(rest[j] == i);
                }
                if rest.contains(i) {
                    let j = choose|j: int| 0 <= j < rest.len() && rest[j] == i;
                    assert(places[j] == i);
                }
            }
            assert forall|j: int| 0 <= j < rest.len() implies 0 <= (#[trigger] rest[j]) < before.len() by {
                assert(places[j] < places[k]);
            }
            assert forall|j: int, l: int| 0 <= j < l < rest.len() implies (#[trigger] rest[j]) < (#[trigger] rest[l]) by {
                assert(places[j] < places[l]);
            }
            lemma_picked(before, pred, rest);
            let part = Seq::new(rest.len(), |j: int| before[rest[j]]);
            assert forall|j: int| 0 <= j < rest.len() implies part[j] == #[trigger] picked[j] by {
                assert(rest[j] == places[j]);
                assert(0 <= rest[j] < before.len());
            }
            assert(picked =~= part.push(cores[last]));
        } else {
            assert forall|j: int| 0 <= j < places.len() implies 0 <= (#[trigger] places[j]) < before.len() by {
                assert(places.contains(places[j]));
            }
            assert forall|i: int| 0 <= i < before.len() implies (#[trigger] places.contains(i) <==> pred(before[i])) by {
                assert(places.contains(i) <==> pred(cores[i]));
            }
            lemma_picked(before, pred, places);
            let part = Seq::new(places.len(), |j: int| before[places[j]]);
            assert forall|j: int| 0 <= j < places.len() implies part[j] == #[trigger] picked[j] by {
                assert(0 <= places[j] < before.len());
            }
            assert(picked =~= part);
        }
    }
}

proof fn lemma_chunks(on_node: Seq<Core>, cores: Seq<Core>, places: Seq<int>, node: u32, n: nat)
    requires
        on_node == Seq::new(places.len(), |k: int| cores[places[k]]),
        n <= places.len(),
    ensures
        pairs_of(on_node, node, n).len() == pairs_before(cores, places, n / 2),
        forall|c: nat, k: int|
            2 * c + 1 < n && 0 <= k < runs_in(cores, places, c).vcpus.len() && k < polls_in(cores, places, c).vcpus.len() ==> {
                let at = #[trigger] pairs_before(cores, places, c) + k;
                &&& 0 <= at < pairs_before(cores, places, n / 2)
                &&& pairs_of(on_node, node, n)[at] == (Pair {
                    runtime_vcpu: #[trigger] runs_in(cores, places, c).vcpus[k],
                    sqpoll_vcpu: polls_in(cores, places, c).vcpus[k],
                    numa_node: node,
                })
            },
    decreases n,
{
    if n < 2 {
    } else if n % 2 == 1 {
        lemma_chunks(on_node, cores, places, node, (n - 1) as nat);
        assert(n / 2 == (n - 1) as nat / 2);
    } else {
        lemma_chunks(on_node, cores, places, node, (n - 2) as nat);
        let before = pairs_of(on_node, node, (n - 2) as nat);
        let all = pairs_of(on_node, node, n);
        let half = n / 2;
        assert((n - 2) as nat / 2 == half - 1);
        assert(on_node[n - 2] == cores[places[n - 2]]);
        assert(on_node[n - 1] == cores[places[n - 1]]);
        assert forall|c: nat, k: int|
            2 * c + 1 < n && 0 <= k < runs_in(cores, places, c).vcpus.len() && k < polls_in(cores, places, c).vcpus.len() implies {
            let at = #[trigger] pairs_before(cores, places, c) + k;
            &&& 0 <= at < pairs_before(cores, places, half)
            &&& all[at] == (Pair {
                runtime_vcpu: #[trigger] runs_in(cores, places, c).vcpus[k],
                sqpoll_vcpu: polls_in(cores, places, c).vcpus[k],
                numa_node: node,
            })
        } by {
            let at = pairs_before(cores, places, c) + k;
            if 2 * c + 1 < n - 2 {
                assert(0 <= at < pairs_before(cores, places, (half - 1) as nat));
                assert(all[at] == before[at]);
            } else {
                assert(c == half - 1);
                assert(before.len() == pairs_before(cores, places, c));
                assert(all[at] == chunk_pairs(on_node[n - 2], on_node[n - 1], node)[k]);
            }
        }
    }
}

proof fn lemma_all_or_none(pairs: Seq<Pair>, node: u32, here: bool)
    requires
        forall|i: int| 0 <= i < pairs.len() ==> ((#[trigger] pairs[i]).numa_node == node) == here,
    ensures
        here ==> pairs_on(pairs, node) == pairs,
        !here ==> pairs_on(pairs, node) == Seq::<Pair>::empty(),
    decreases pairs.len(),
{
    reveal(Seq::filter);
    if pairs.len() > 0 {
        let before = pairs.drop_last();
        assert forall|i: int| 0 <= i < before.len() implies ((#[trigger] before[i]).numa_node == node) == here by {
            assert(before[i] == pairs[i]);
        }
        lemma_all_or_none(before, node, here);
        assert(pairs[pairs.len() - 1] == pairs.last());
        assert(before.push(pairs.last()) =~= pairs);
    } else {
        assert(pairs =~= Seq::<Pair>::empty());
    }
}

proof fn lemma_pairs_on_below(cores: Seq<Core>, allowed: Seq<u32>, node: u32, n: nat)
    requires
        n <= cpu_numbers(),
    ensures
        pairs_on(pairs_below(cores, allowed, n), node) == (if node < n {
            node_pairs(cores, allowed, node)
        } else {
            Seq::<Pair>::empty()
        }),
    decreases n,
{
    reveal(Seq::filter);
    if n > 0 {
        let last = (n - 1) as u32;
        lemma_pairs_on_below(cores, allowed, node, (n - 1) as nat);
        let before = pairs_below(cores, allowed, (n - 1) as nat);
        let here = node_pairs(cores, allowed, last);
        let on_node = node_cores(cores, allowed, last);
        lemma_on_node(cores, allowed, last);
        assert forall|i: int| 0 <= i < here.len() implies ((#[trigger] here[i]).numa_node == node) == (last == node) by {
            let _ = lemma_pairs_of_join(on_node, last, on_node.len(), i);
        }
        lemma_all_or_none(here, node, last == node);
        Seq::filter_distributes_over_add(before, here, |pair: Pair| pair.numa_node == node);
        assert(pairs_on(before + here, node) =~= pairs_on(before, node) + pairs_on(here, node));
        assert(Seq::<Pair>::empty() + here =~= here);
        assert(pairs_on(before, node) + Seq::<Pair>::empty() =~= pairs_on(before, node));
    }
}

/// No core is passed over. The usable cores of a node are taken two by two, in
/// the order given: of the two of chunk `c`, the first runs and the second polls,
/// with a pair for every processor `k` that both have, behind the pairs of the
/// chunks before. Nothing else is on the node; only a last core without a partner
/// is left.
pub proof fn no_core_is_passed_over(
    cores: Seq<Core>,
    allowed: Seq<u32>,
    node: u32,
    places: Seq<int>,
    c: nat,
    k: int,
)
    requires
        are_places(places, cores, allowed, node),
    ensures
        ({
            let here = pairs_on(possible_pairs(cores, allowed), node);
            &&& here.len() == pairs_before(cores, places, places.len() / 2)
            &&& 2 * c + 1 < places.len() && 0 <= k < runs_in(cores, places, c).vcpus.len() && k < polls_in(cores, places, c).vcpus.len() ==> {
                &&& 0 <= pairs_before(cores, places, c) + k < here.len()
                &&& here[pairs_before(cores, places, c) + k] == (Pair {
                    runtime_vcpu: runs_in(cores, places, c).vcpus[k],
                    sqpoll_vcpu: polls_in(cores, places, c).vcpus[k],
                    numa_node: node,
                })
                &&& possible_pairs(cores, allowed).contains(here[pairs_before(cores, places, c) + k])
            }
        }),
{
    let pred = |core: Core| usable(core, allowed) && core.numa_node == node;
    assert forall|i: int| 0 <= i < cores.len() implies (#[trigger] places.contains(i) <==> pred(cores[i])) by {}
    lemma_picked(cores, pred, places);
    let on_node = Seq::new(places.len(), |l: int| cores[places[l]]);
    lemma_chunks(on_node, cores, places, node, places.len());
    lemma_pairs_on_below(cores, allowed, node, cpu_numbers());
    let all = possible_pairs(cores, allowed);
    let here = pairs_on(all, node);
    if 2 * c + 1 < places.len() && 0 <= k < runs_in(cores, places, c).vcpus.len() && k < polls_in(cores, places, c).vcpus.len() {
        let at = pairs_before(cores, places, c) + k;
        assert(runs_in(cores, places, c).vcpus[k] == runs_in(cores, places, c).vcpus[k]);
        assert(0 <= at < pairs_before(cores, places, places.len() / 2));
        assert(here.contains(here[at]));
        all.lemma_filter_contains_rev(|pair: Pair| pair.numa_node == node, here[at]);
    }
}

/// Where every core has `siblings` processors, a node of `u` usable cores yields
/// that many pairs for every two of them.
pub proof fn cores_yield_their_pairs(cores: Seq<Core>, places: Seq<int>, siblings: int, c: nat)
    requires
        2 * c <= places.len(),
        forall|k: int| 0 <= k < places.len() ==> cores[#[trigger] places[k]].vcpus.len() == siblings,
    ensures
        pairs_before(cores, places, c) == siblings * c,
    decreases c,
{
    if c > 0 {
        cores_yield_their_pairs(cores, places, siblings, (c - 1) as nat);
        assert(cores[places[2 * c - 2]].vcpus.len() == siblings);
        assert(cores[places[2 * c - 1]].vcpus.len() == siblings);
        assert(siblings * c == siblings * (c - 1) + siblings) by (nonlinear_arith);
    } else {
        assert(siblings * 0 == 0);
    }
}

/// No white space at either end.
pub open spec fn is_tight(s: Seq<char>) -> bool {
    s.len() > 0 ==> !text::is_white_space(s[0]) && !text::is_white_space(s.last())
}

proof fn lemma_tight(s: Seq<char>)
    requires
        is_tight(s),
    ensures
        text::trimmed(s) == s,
{
}

proof fn lemma_all_cpus_add(a: Seq<Seq<char>>, b: Seq<Seq<char>>)
    ensures
        all_cpus(a + b) == (match (all_cpus(a), all_cpus(b)) {
            (Err(e), _) => Err(e),
            (Ok(_), Err(e)) => Err(e),
            (Ok(before), Ok(cpus)) => Ok(before + cpus),
        }),
    decreases b.len(),
{
    if b.len() == 0 {
        assert(a + b =~= a);
        if let Ok(before) = all_cpus(a) {
            assert(before + Seq::<u32>::empty() =~= before);
        }
    } else {
        lemma_all_cpus_add(a, b.drop_last());
        assert((a + b).drop_last() =~= a + b.drop_last());
        assert((a + b).last() == b.last());
        match (all_cpus(a), all_cpus(b.drop_last()), part_cpus(b.last())) {
            (Ok(x), Ok(y), Ok(z)) => {
                assert((x + y) + z =~= x + (y + z));
            },
            _ => {},
        }
    }
}

/// A list of processors is read from left to right: two lists with a comma
/// between them stand for the processors of the first and then those of the
/// second, and the first mistake decides. White space around a list does not
/// matter, and an empty list names nothing.
pub proof fn lists_follow_one_another(x: Seq<char>, y: Seq<char>, s: Seq<char>)
    ensures
        cpu_list(Seq::empty()) == Ok::<Seq<u32>, NumberError>(Seq::empty()),
        cpu_list(text::trimmed(s)) == cpu_list(s),
        is_tight(x) && is_tight(y) ==> cpu_list(x + seq![','] + y) == (match (cpu_list(x), cpu_list(y)) {
            (Err(e), _) => Err(e),
            (Ok(_), Err(e)) => Err(e),
            (Ok(before), Ok(cpus)) => Ok(before + cpus),
        }),
{
    let sep = seq![','];
    reveal_with_fuel(all_cpus, 2);
    assert(text::parts(Seq::empty(), ',').drop_last() =~= Seq::<Seq<char>>::empty());
    assert(Seq::<u32>::empty() + Seq::<u32>::empty() =~= Seq::<u32>::empty());
    let (lo, hi) = text::only_outer_white_space_is_trimmed(s);
    if lo < hi {
        assert(text::trimmed(s)[0] == s[lo]);
        assert(text::trimmed(s).last() == s[hi - 1]);
    }
    lemma_tight(text::trimmed(s));
    if is_tight(x) && is_tight(y) {
        let all = x + sep + y;
        let a = text::parts(x, ',');
        let b = text::parts(y, ',');
        assert(is_tight(all)) by {
            assert(!text::is_white_space(','));
            if x.len() > 0 {
                assert(all[0] == x[0]);
            } else {
                assert(all[0] == ',');
            }
            if y.len() > 0 {
                assert(all.last() == y.last());
            } else {
                assert(all.last() == ',');
            }
        }
        lemma_tight(all);
        lemma_tight(x);
        lemma_tight(y);
        text::parts_make_up_the_text(x, ',');
        text::parts_make_up_the_text(y, ',');
        text::joined_parts_follow_one_another(a, b, Seq::empty(), sep);
        assert forall|i: int| 0 <= i < (a + b).len() implies !(#[trigger] (a + b)[i]).contains(',') by {
            if i < a.len() {
                assert((a + b)[i] == a[i]);
            } else {
                assert((a + b)[i] == b[i - a.len()]);
            }
        }
        text::joined_parts_are_split_again(a + b, ',');
        lemma_all_cpus_add(a, b);
    }
}

proof fn lemma_single_part(s: Seq<char>)
    requires
        is_tight(s),
        !s.contains(','),
    ensures
        cpu_list(s) == part_cpus(s),
{
    lemma_tight(s);
    let one = seq![s];
    text::joined_parts_follow_one_another(Seq::empty(), Seq::empty(), s, seq![',']);
    text::joined_parts_are_split_again(one, ',');
    reveal_with_fuel(all_cpus, 2);
    assert(one.drop_last() =~= Seq::<Seq<char>>::empty());
    if let Ok(cpus) = part_cpus(s) {
        assert(Seq::<u32>::empty() + cpus =~= cpus);
    }
}

/// A part of a list without a dash is one processor, and one with a dash is all
/// of them from the number before the dash to the number behind it, white space
/// around the numbers aside.
pub proof fn parts_name_processors(s: Seq<char>, p: Seq<char>, q: Seq<char>)
    requires
        s.len() > 0,
        is_tight(s),
        !s.contains(','),
    ensures
        !s.contains('-') ==> cpu_list(s) == (match text::u32_value(s) {
            Ok(cpu) => Ok(seq![cpu]),
            Err(e) => Err(e),
        }),
        s == p + seq!['-'] + q && !p.contains('-') ==> cpu_list(s) == (match (
            text::u32_value(text::trimmed(p)),
            text::u32_value(text::trimmed(q)),
        ) {
            (Err(e), _) => Err(e),
            (Ok(_), Err(e)) => Err(e),
            (Ok(lo), Ok(hi)) => Ok(cpu_range(lo, hi)),
        }),
{
    lemma_single_part(s);
    lemma_tight(s);
    s.index_of_first_ensures('-');
    if s == p + seq!['-'] + q && !p.contains('-') {
        let dash = p.len() as int;
        assert(s[dash] == '-');
        assert(s.contains('-'));
        let found = s.index_of_first('-')->0;
        if found < dash {
            assert(p[found] == s[found]);
            assert(p.contains('-'));
        }
        assert(found == dash) by {
            if found > dash {
                assert(s[dash] != '-');
            }
        }
        assert(s.take(dash) =~= p);
        assert(s.skip(dash + 1) =~= q);
    }
}

/// The lists that the kernel writes are read as it means them: a number for a
/// processor, two with a dash between them for all from one to the other.
pub proof fn written_lists_read_back(a: u32, b: u32)
    ensures
        cpu_list(text::decimal(a as nat)) == Ok::<Seq<u32>, NumberError>(seq![a]),
        cpu_list(text::decimal(a as nat) + seq!['-'] + text::decimal(b as nat)) == Ok::<Seq<u32>, NumberError>(
            cpu_range(a, b),
        ),
{
    let x = text::decimal(a as nat);
    let y = text::decimal(b as nat);
    let s = x + seq!['-'] + y;
    text::numbers_are_written_digit_by_digit(a as nat, 0);
    text::numbers_are_written_digit_by_digit(b as nat, 0);
    text::numbers_read_back(a);
    text::numbers_read_back(b);
    lemma_digits_only(x);
    lemma_digits_only(y);
    lemma_tight(x);
    lemma_tight(y);
    parts_name_processors(x, Seq::empty(), Seq::empty());
    assert(s[0] == x[0]);
    assert(s.last() == y.last());
    assert(!s.contains(',')) by {
        if s.contains(',') {
            let i = choose|i: int| 0 <= i < s.len() && s[i] == ',';
            if i < x.len() {
                assert(x[i] == ',');
            } else if i > x.len() {
                assert(y[i - x.len() - 1] == ',');
            }
        }
    }
    parts_name_processors(s, x, y);
}

proof fn lemma_digits_only(x: Seq<char>)
    requires
        x.len() > 0,
        text::all_digits(x),
    ensures
        is_tight(x),
        !x.contains(','),
        !x.contains('-'),
{
    assert('0' <= x[0] <= '9');
    assert('0' <= x[x.len() - 1] <= '9');
}

/// A directory entry stands for a memory node exactly when it reads `node` and a
/// number behind it.
pub proof fn node_names_are_read(name: Seq<char>, rest: Seq<char>, n: u32)
    ensures
        node_number("node"@ + rest) == (match text::u32_value(rest) {
            Ok(number) => Some(number),
            Err(_) => None,
        }),
        node_number("node"@ + text::decimal(n as nat)) == Some(n),
        node_number(name) is Some ==> name.len() > 4 && name == "node"@ + name.skip(4),
{
    reveal_strlit("node");
    assert(("node"@ + rest).take(4) =~= "node"@);
    assert(("node"@ + rest).skip(4) =~= rest);
    let digits = text::decimal(n as nat);
    assert(("node"@ + digits).take(4) =~= "node"@);
    assert(("node"@ + digits).skip(4) =~= digits);
    text::numbers_read_back(n);
    if node_number(name) is Some {
        assert(name =~= name.take(4) + name.skip(4));
        assert(name.skip(4).len() > 0);
    }
}

/// Every processor that a node lists is on that node afterwards; the others stay
/// where they were.
pub proof fn listed_processors_are_on_their_node(map: Map<u32, u32>, cpus: Seq<u32>, node: u32, cpu: u32)
    ensures
        with_cpus(map, cpus, node).dom().contains(cpu) <==> cpus.contains(cpu) || map.dom().contains(cpu),
        cpus.contains(cpu) ==> with_cpus(map, cpus, node)[cpu] == node,
        !cpus.contains(cpu) && map.dom().contains(cpu) ==> with_cpus(map, cpus, node)[cpu] == map[cpu],
{
}

/// The pairs are used node by node, in ascending order.
pub proof fn pairs_are_used_by_node(cores: Seq<Core>, allowed: Seq<u32>, i: int, j: int)
    requires
        0 <= i <= j < possible_pairs(cores, allowed).len(),
    ensures
        possible_pairs(cores, allowed)[i].numa_node <= possible_pairs(cores, allowed)[j].numa_node,
{
    pairs_go_by_node(cores, allowed, cpu_numbers(), i, j);
}

/// Every list of siblings becomes a group of its own: the groups are as many as the
/// lists, and the one for the list under `key` has the same processors, sorted, and
/// the memory node that lists `key`, or node 0.
pub proof fn every_sibling_list_becomes_a_group(
    groups: &SiblingGroups,
    numa: &HashMap<u32, u32>,
    r: Vec<SmtGroup>,
    key: u32,
) -> (place: int)
    requires
        call_ensures(SiblingGroups::smt_groups, (groups, numa), r),
        groups@.dom().contains(key),
    ensures
        r@.len() == groups@.dom().len(),
        0 <= place < r@.len(),
        place == groups@.dom().filter(|k: u32| k < key).len(),
        r@[place].vcpus@.to_multiset() == groups@[key].to_multiset(),
        forall|i: int, j: int|
            0 <= i <= j < r@[place].vcpus@.len() ==> (#[trigger] r@[place].vcpus@[i]) <= (#[trigger] r@[place].vcpus@[j]),
        r@[place].numa_node == (if numa@.dom().contains(key) {
            numa@[key]
        } else {
            0
        }),
{
    let place = every_sibling_list_is_a_core(groups@, numa@, key);
    assert(cores(r@)[place] == r@[place]@);
    place
}

/// A list of siblings is taken down under its smallest processor, if it is the first
/// there; a text that is no list changes nothing.
pub proof fn siblings_are_taken_down(
    groups: &mut SiblingGroups,
    raw: &str,
    r: Result<(), NumberError>,
    siblings: Seq<u32>,
    key: u32,
)
    requires
        call_ensures(SiblingGroups::add_siblings, (groups, raw), r),
    ensures
        cpu_list(raw@) matches Err(e) ==> r == Err::<(), NumberError>(e) && final(groups)@ == old(groups)@,
        cpu_list(raw@) == Ok::<Seq<u32>, NumberError>(siblings) ==> {
            &&& r is Ok
            &&& siblings.len() == 0 ==> final(groups)@ == old(groups)@
            &&& siblings.contains(key) && (forall|i: int| 0 <= i < siblings.len() ==> key <= #[trigger] siblings[i])
                ==> {
                &&& final(groups)@.dom() == old(groups)@.dom().insert(key)
                &&& final(groups)@[key] == (if old(groups)@.dom().contains(key) {
                    old(groups)@[key]
                } else {
                    siblings
                })
            }
            &&& old(groups)@.dom().contains(key) ==> final(groups)@.dom().contains(key) && final(groups)@[key]
                == old(groups)@[key]
        },
{
    siblings_are_kept(old(groups)@, siblings, key);
}

/// Processors are planned for exactly when the cores allow for as many pairs as are
/// wanted. What is planned are the first of them, as many as are wanted.
pub proof fn first_pairs_are_planned(
    allowed: &[u32],
    groups: &[SmtGroup],
    wanted: usize,
    r: Result<Vec<Pair>, String>,
    i: int,
)
    requires
        call_ensures(plan_pairs, (allowed, groups, wanted), r),
    ensures
        ({
            let possible = possible_pairs(cores(groups@), allowed@);
            &&& r is Ok <==> possible.len() >= wanted
            &&& r matches Ok(pairs) ==> pairs@.len() == wanted && (0 <= i < wanted ==> pairs@[i] == possible[i])
            &&& r matches Err(message) ==> message@ == "could not place "@ + text::decimal(wanted as nat)
                + " runtime/SQPOLL pairs (got "@ + text::decimal(possible.len())
                + "). Each NUMA node needs pairs of phys cores (1 runtime phys core + 1 sqpoll phys core = 2 pairs); cpuset may exclude some."@
        }),
{
}

/// A range as the kernel writes it is read as every processor from its first number
/// to its last.
pub proof fn written_ranges_are_read(s: &str, a: u32, b: u32, r: Result<Vec<u32>, NumberError>, i: int)
    requires
        call_ensures(parse_cpu_list, (s,), r),
        a <= b,
        s@ == text::decimal(a as nat) + seq!['-'] + text::decimal(b as nat),
    ensures
        r matches Ok(cpus) && cpus@.len() == b - a + 1 && (0 <= i <= b - a ==> cpus@[i] == a + i),
{
    written_lists_read_back(a, b);
    ranges_hold_every_processor(a, b, a);
}

/// A list behind a comma is read behind the one before it.
pub proof fn lists_are_read_in_order(
    x: &str,
    y: &str,
    s: &str,
    rx: Result<Vec<u32>, NumberError>,
    ry: Result<Vec<u32>, NumberError>,
    r: Result<Vec<u32>, NumberError>,
)
    requires
        call_ensures(parse_cpu_list, (x,), rx),
        call_ensures(parse_cpu_list, (y,), ry),
        call_ensures(parse_cpu_list, (s,), r),
        is_tight(x@),
        is_tight(y@),
        s@ == x@ + seq![','] + y@,
    ensures
        rx is Ok && ry is Ok ==> r is Ok && r->Ok_0@ == rx->Ok_0@ + ry->Ok_0@,
        rx matches Err(e) ==> r == Err::<Vec<u32>, NumberError>(e),
        rx is Ok ==> (ry matches Err(e) ==> r == Err::<Vec<u32>, NumberError>(e)),
{
    lists_follow_one_another(x@, y@, s@);
}

/// Every processor that a node lists is put on that node, and no other is moved. A
/// text that is no list moves none.
pub proof fn nodes_take_their_processors(map: &mut HashMap<u32, u32>, node: u32, raw: &str, cpus: Seq<u32>, cpu: u32)
    requires
        call_ensures(map_node_cpus, (map, node, raw), ()),
    ensures
        cpu_list(raw@) is Err ==> final(map)@ == old(map)@,
        cpu_list(raw@) == Ok::<Seq<u32>, NumberError>(cpus) ==> {
            &&& final(map)@.dom().contains(cpu) <==> cpus.contains(cpu) || old(map)@.dom().contains(cpu)
            &&& cpus.contains(cpu) ==> final(map)@[cpu] == node
            &&& !cpus.contains(cpu) && old(map)@.dom().contains(cpu) ==> final(map)@[cpu] == old(map)@[cpu]
        },
{
    listed_processors_are_on_their_node(old(map)@, cpus, node, cpu);
}

/// A directory entry is read as the memory node whose number it ends with.
pub proof fn written_nodes_are_read(name: &str, n: u32, r: Option<u32>)
    requires
        call_ensures(parse_node_name, (name,), r),
    ensures
        name@ == "node"@ + text::decimal(n as nat) ==> r == Some(n),
        r is Some ==> name@.len() > 4 && name@.take(4) == "node"@,
{
    reveal_strlit("node");
    node_names_are_read(name@, Seq::empty(), n);
    if r is Some {
        assert(("node"@ + name@.skip(4)).take(4) =~= "node"@);
    }
}

proof fn lemma_trimmed_part(part: Seq<char>)
    requires
        text::trimmed(part).len() > 0,
    ensures
        part_cpus(part) == part_cpus(text::trimmed(part)),
{
    let (lo, hi) = text::only_outer_white_space_is_trimmed(part);
    let inner = text::trimmed(part);
    assert(inner[0] == part[lo]);
    assert(inner.last() == part[hi - 1]);
    lemma_tight(inner);
    part.index_of_first_ensures('-');
    inner.index_of_first_ensures('-');
    assert(!text::is_white_space('-'));
    if part.contains('-') {
        let dash = part.index_of_first('-')->0;
        assert(part[dash] == '-');
        assert(lo <= dash < hi);
        assert(inner[dash - lo] == '-');
        assert(inner.contains('-'));
        let found = inner.index_of_first('-')->0;
        assert(part[lo + found] == inner[found]);
        assert(found == dash - lo);
        let before = part.take(dash);
        let behind = part.skip(dash + 1);
        let (a, b) = text::only_outer_white_space_is_trimmed(inner.take(found));
        assert(inner.take(found).subrange(a, b) =~= before.subrange(lo + a, lo + b));
        assert forall|i: int| 0 <= i < before.len() && (i < lo + a || i >= lo + b) implies text::is_white_space(
            #[trigger] before[i],
        ) by {
            if i >= lo {
                assert(before[i] == inner.take(found)[i - lo]);
            } else {
                assert(before[i] == part[i]);
            }
        }
        if a < b {
            assert(before[lo + a] == inner.take(found)[a]);
            assert(before[lo + b - 1] == inner.take(found)[b - 1]);
        }
        text::trimming_leaves_one_stretch(before, lo + a, lo + b);
        let (c, d) = text::only_outer_white_space_is_trimmed(inner.skip(found + 1));
        assert(inner.skip(found + 1).subrange(c, d) =~= behind.subrange(c, d));
        assert forall|i: int| 0 <= i < behind.len() && (i < c || i >= d) implies text::is_white_space(
            #[trigger] behind[i],
        ) by {
            if i < inner.skip(found + 1).len() {
                assert(behind[i] == inner.skip(found + 1)[i]);
            } else {
                assert(behind[i] == part[dash + 1 + i]);
            }
        }
        if c < d {
            assert(behind[c] == inner.skip(found + 1)[c]);
            assert(behind[d - 1] == inner.skip(found + 1)[d - 1]);
        }
        text::trimming_leaves_one_stretch(behind, c, d);
    } else if inner.contains('-') {
        let found = inner.index_of_first('-')->0;
        assert(part[lo + found] == '-');
    }
}

/// Every part of a list is read by itself, with the white space around it left out: a
/// list of parts stands for what they stand for, one behind the other, and the first
/// mistake decides. A part of white space alone is no number.
pub proof fn parts_are_read_by_themselves(a: Seq<Seq<char>>, b: Seq<Seq<char>>, part: Seq<char>)
    requires
        a.len() + b.len() > 0,
        forall|i: int| 0 <= i < a.len() ==> !(#[trigger] a[i]).contains(','),
        forall|i: int| 0 <= i < b.len() ==> !(#[trigger] b[i]).contains(','),
        is_tight(text::joined(a + b, seq![','])),
    ensures
        cpu_list(text::joined(a + b, seq![','])) == (match (all_cpus(a), all_cpus(b)) {
            (Err(e), _) => Err(e),
            (Ok(_), Err(e)) => Err(e),
            (Ok(before), Ok(cpus)) => Ok(before + cpus),
        }),
        text::trimmed(part).len() > 0 && !part.contains(',') ==> all_cpus(seq![part]) == cpu_list(text::trimmed(part)),
        part.len() > 0 && text::trimmed(part).len() == 0 ==> all_cpus(seq![part]) == Err::<Seq<u32>, NumberError>(
            NumberError::Empty,
        ),
{
    let all = a + b;
    assert forall|i: int| 0 <= i < all.len() implies !(#[trigger] all[i]).contains(',') by {
        if i < a.len() {
            assert(all[i] == a[i]);
        } else {
            assert(all[i] == b[i - a.len()]);
        }
    }
    lemma_tight(text::joined(all, seq![',']));
    text::joined_parts_are_split_again(all, ',');
    lemma_all_cpus_add(a, b);
    reveal_with_fuel(all_cpus, 2);
    assert(seq![part].drop_last() =~= Seq::<Seq<char>>::empty());
    if let Ok(cpus) = part_cpus(part) {
        assert(Seq::<u32>::empty() + cpus =~= cpus);
    }
    let (lo, hi) = text::only_outer_white_space_is_trimmed(part);
    if text::trimmed(part).len() > 0 && !part.contains(',') {
        let inner = text::trimmed(part);
        lemma_trimmed_part(part);
        assert(inner[0] == part[lo]);
        assert(inner.last() == part[hi - 1]);
        assert(!inner.contains(',')) by {
            if inner.contains(',') {
                let i = choose|i: int| 0 <= i < inner.len() && inner[i] == ',';
                assert(part[lo + i] == ',');
            }
        }
        lemma_single_part(inner);
    }
    if part.len() > 0 && text::trimmed(part).len() == 0 {
        part.index_of_first_ensures('-');
        assert(!text::is_white_space('-'));
    }
}

}
