use std::collections::HashMap;
use toutates::text::NumberError;
use toutates::topology::{
    map_node_cpus, parse_cpu_list, parse_node_name, plan_pairs, Pair, SiblingGroups, SmtGroup,
};

fn g(vcpus: &[u32], numa_node: u32) -> SmtGroup {
    SmtGroup {
        vcpus: vcpus.to_vec(),
        numa_node,
    }
}

#[test]
fn parse_list_basic() {
    assert_eq!(parse_cpu_list("0,8").unwrap(), vec![0, 8]);
    assert_eq!(parse_cpu_list("0-3").unwrap(), vec![0, 1, 2, 3]);
    assert_eq!(parse_cpu_list("0-1,4,6-7").unwrap(), vec![0, 1, 4, 6, 7]);
}

#[test]
fn parse_list_skips_empty_parts_and_white_space() {
    assert_eq!(parse_cpu_list("\n").unwrap(), Vec::<u32>::new());
    assert_eq!(parse_cpu_list(" 0 , 2 - 3 ,,\u{3000}5\n").unwrap(), vec![0, 2, 3, 5]);
    assert_eq!(parse_cpu_list("+4").unwrap(), vec![4]);
    assert_eq!(parse_cpu_list("3-1").unwrap(), Vec::<u32>::new());
    assert_eq!(
        parse_cpu_list("4294967294-4294967295").unwrap(),
        vec![4294967294, 4294967295]
    );
}

#[test]
fn parse_list_reports_the_first_error() {
    assert_eq!(parse_cpu_list("0, ,x"), Err(NumberError::Empty));
    assert_eq!(parse_cpu_list("1-"), Err(NumberError::Empty));
    assert_eq!(parse_cpu_list("x-4294967296"), Err(NumberError::InvalidDigit));
    assert_eq!(parse_cpu_list("4294967296-x"), Err(NumberError::TooLarge));
    assert_eq!(parse_cpu_list("0,-1"), Err(NumberError::Empty));
    assert_eq!(parse_cpu_list("1-2-3"), Err(NumberError::InvalidDigit));
}

#[test]
fn node_names() {
    assert_eq!(parse_node_name("node0"), Some(0));
    assert_eq!(parse_node_name("node12"), Some(12));
    assert_eq!(parse_node_name("node"), None);
    assert_eq!(parse_node_name("nodex"), None);
    assert_eq!(parse_node_name("nod1"), None);
    assert_eq!(parse_node_name("possible"), None);
    assert_eq!(parse_node_name("node4294967296"), None);
}

#[test]
fn later_nodes_win_and_bad_lists_are_passed_over() {
    let mut map: HashMap<u32, u32> = HashMap::new();
    map_node_cpus(&mut map, 0, "0-3\n");
    map_node_cpus(&mut map, 1, "3-4");
    map_node_cpus(&mut map, 2, "4,oops");
    let mut entries: Vec<(u32, u32)> = map.into_iter().collect();
    entries.sort();
    assert_eq!(entries, vec![(0, 0), (1, 0), (2, 0), (3, 1), (4, 1)]);
}

#[test]
fn sibling_groups_come_in_order() {
    let mut numa: HashMap<u32, u32> = HashMap::new();
    map_node_cpus(&mut numa, 7, "1,33");
    let mut siblings = SiblingGroups::new();
    siblings.add_siblings("33,1").unwrap();
    siblings.add_siblings("0,32").unwrap();
    siblings.add_siblings("").unwrap();
    siblings.add_siblings("1,99").unwrap();
    assert_eq!(siblings.add_siblings("5,?"), Err(NumberError::InvalidDigit));
    let groups = siblings.smt_groups(&numa);
    let found: Vec<(Vec<u32>, u32)> = groups.into_iter().map(|g| (g.vcpus, g.numa_node)).collect();
    assert_eq!(found, vec![(vec![0, 32], 0), (vec![1, 33], 7)]);
}

#[test]
fn plan_four_pairs_one_ccx() {
    // 4 phys cores in one NUMA node, SMT siblings 32 apart.
    // Expect 4 pairs: cores 0,1 = runtime phys cores; cores 2,3 = sqpoll phys cores.
    let groups = vec![
        g(&[0, 32], 0),
        g(&[1, 33], 0),
        g(&[2, 34], 0),
        g(&[3, 35], 0),
    ];
    let allowed: Vec<u32> = (0..4).chain(32..36).collect();
    let pairs = plan_pairs(&allowed, &groups, 4).unwrap();
    assert_eq!(pairs.len(), 4);
    // Chunk 0: rt_core (0,32) + sq_core (1,33) -> pair0=(0,1), pair1=(32,33)
    assert_eq!((pairs[0].runtime_vcpu, pairs[0].sqpoll_vcpu), (0, 1));
    assert_eq!((pairs[1].runtime_vcpu, pairs[1].sqpoll_vcpu), (32, 33));
    // Chunk 1: rt_core (2,34) + sq_core (3,35) -> pair2=(2,3), pair3=(34,35)
    assert_eq!((pairs[2].runtime_vcpu, pairs[2].sqpoll_vcpu), (2, 3));
    assert_eq!((pairs[3].runtime_vcpu, pairs[3].sqpoll_vcpu), (34, 35));
    for p in &pairs {
        assert_eq!(p.numa_node, 0);
    }
}

#[test]
fn plan_spans_numa_nodes_in_order() {
    // 2 NUMA nodes, 2 phys cores each. Each node → 2 pairs.
    let groups = vec![
        g(&[0, 32], 0),
        g(&[1, 33], 0),
        g(&[4, 36], 1),
        g(&[5, 37], 1),
    ];
    let allowed: Vec<u32> = vec![0, 1, 4, 5, 32, 33, 36, 37];
    let pairs = plan_pairs(&allowed, &groups, 4).unwrap();
    assert_eq!(pairs.len(), 4);
    assert_eq!(pairs[0].numa_node, 0);
    assert_eq!(pairs[1].numa_node, 0);
    assert_eq!(pairs[2].numa_node, 1);
    assert_eq!(pairs[3].numa_node, 1);
    assert_eq!((pairs[0].runtime_vcpu, pairs[0].sqpoll_vcpu), (0, 1));
    assert_eq!((pairs[2].runtime_vcpu, pairs[2].sqpoll_vcpu), (4, 5));
}

#[test]
fn plan_rejects_odd_phys_cores_in_node() {
    // Only 1 phys core in node 0: can't form a (rt, sq) chunk.
    let groups = vec![g(&[0, 32], 0)];
    let allowed: Vec<u32> = vec![0, 32];
    let err = plan_pairs(&allowed, &groups, 1).unwrap_err();
    assert!(err.contains("could not place"));
}

#[test]
fn plan_rejects_when_cpuset_excludes() {
    let groups = vec![g(&[0, 32], 0), g(&[1, 33], 0)];
    // cpuset excludes the SMT siblings.
    let allowed: Vec<u32> = vec![0, 1];
    let err = plan_pairs(&allowed, &groups, 1).unwrap_err();
    assert!(err.contains("could not place"));
}

#[test]
fn plan_says_how_many_it_placed() {
    let groups = vec![g(&[0, 32], 3), g(&[1, 33], 3), g(&[2, 34], 3)];
    let allowed: Vec<u32> = vec![0, 1, 2, 32, 33, 34];
    assert_eq!(
        plan_pairs(&allowed, &groups, 3).unwrap_err(),
        "could not place 3 runtime/SQPOLL pairs (got 2). Each NUMA node needs pairs of phys cores (1 runtime phys core + 1 sqpoll phys core = 2 pairs); cpuset may exclude some."
    );
    assert_eq!(plan_pairs(&allowed, &groups, 0).unwrap(), Vec::<Pair>::new());
}

#[test]
fn plan_stops_inside_a_chunk_and_orders_nodes() {
    // nodes given out of order, the greatest node number included
    let groups = vec![
        g(&[8, 40], u32::MAX),
        g(&[0, 32], 2),
        g(&[9, 41], u32::MAX),
        g(&[1], 2),
    ];
    let allowed: Vec<u32> = vec![0, 1, 8, 9, 32, 40, 41];
    let pair = |runtime_vcpu: u32, sqpoll_vcpu: u32, numa_node: u32| Pair {
        runtime_vcpu,
        sqpoll_vcpu,
        numa_node,
    };
    assert_eq!(
        plan_pairs(&allowed, &groups, 2).unwrap(),
        vec![pair(0, 1, 2), pair(8, 9, u32::MAX)]
    );
    assert_eq!(
        plan_pairs(&allowed, &groups, 3).unwrap(),
        vec![pair(0, 1, 2), pair(8, 9, u32::MAX), pair(40, 41, u32::MAX)]
    );
    assert!(plan_pairs(&allowed, &groups, 4).is_err());
}

#[test]
fn no_processor_has_two_roles() {
    let groups: Vec<SmtGroup> = (0..8).map(|i| g(&[i, i + 8], i / 4)).collect();
    let allowed: Vec<u32> = (0..16).collect();
    let pairs = plan_pairs(&allowed, &groups, 8).unwrap();
    let mut used: Vec<u32> = pairs.iter().flat_map(|p| [p.runtime_vcpu, p.sqpoll_vcpu]).collect();
    used.sort();
    assert_eq!(used, (0..16).collect::<Vec<u32>>());
    for p in &pairs {
        assert_ne!(p.runtime_vcpu % 8, p.sqpoll_vcpu % 8);
    }
}
