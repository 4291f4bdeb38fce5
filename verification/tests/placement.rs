use toutates::placement::{
    check_pinning, is_selected, ort_intra_affinity, trt_options, unreserved_cpus, vcpus_of, PinPool,
};
use toutates::topology::Pair;

#[test]
fn pollers_need_pinning() {
    assert_eq!(check_pinning(false, false), Ok(()));
    assert_eq!(check_pinning(false, true), Ok(()));
    assert_eq!(check_pinning(true, true), Ok(()));
    assert_eq!(
        check_pinning(true, false),
        Err(String::from("--sqpoll-enabled requires --cpu-pinning"))
    );
}

#[test]
fn pairs_keep_their_processors_to_themselves() {
    let ids: Vec<usize> = vec![0, 1, 2, 3, 4, 1 << 32];
    assert_eq!(vcpus_of(&ids), vec![0, 1, 2, 3, 4, 0]);
    let pairs = vec![
        Pair { runtime_vcpu: 1, sqpoll_vcpu: 3, numa_node: 0 },
        Pair { runtime_vcpu: 0, sqpoll_vcpu: 9, numa_node: 0 },
    ];
    assert_eq!(unreserved_cpus(&ids, &pairs), vec![2, 4]);
    assert_eq!(unreserved_cpus(&ids, &Vec::new()), ids);
}

#[test]
fn threads_are_pinned_in_turn() {
    let mut pool = PinPool::new(vec![4, 6, 8]);
    let got: Vec<usize> = (0..7).map(|_| pool.next()).collect();
    assert_eq!(got, vec![4, 6, 8, 4, 6, 8, 4]);
}

#[test]
fn affinity_starts_behind_the_other_threads() {
    let cpus = Some(vec![0, 1, 2, 3]);
    let free = Some(vec![2, 3]);
    // without pairs: behind manager, executor and two processing threads
    assert_eq!(
        ort_intra_affinity(4, false, 1, 2, &cpus, &free),
        Some(String::from("1;2;3"))
    );
    // with pairs: behind manager and executor in what is left
    assert_eq!(
        ort_intra_affinity(4, true, 1, 2, &cpus, &free),
        Some(String::from("3;4;3"))
    );
    assert_eq!(ort_intra_affinity(2, true, 0, 2, &cpus, &free), Some(String::from("4")));
    assert_eq!(ort_intra_affinity(1, true, 1, 2, &cpus, &free), None);
    assert_eq!(ort_intra_affinity(4, true, 1, 2, &cpus, &None), None);
    assert_eq!(ort_intra_affinity(4, false, 1, 2, &None, &free), None);
}

#[test]
fn models_are_selected_by_name() {
    let only = Some(vec![String::from("a"), String::from("b")]);
    assert!(is_selected(&only, "b"));
    assert!(!is_selected(&only, "c"));
    assert!(!is_selected(&Some(Vec::new()), "a"));
    assert!(is_selected(&None, "anything"));
}

#[test]
fn tensorrt_is_told_what_was_asked_for() {
    let exclude = Some(vec![String::from("LabelEncoder"), String::from("Cast")]);
    assert_eq!(
        trt_options(Some(12), &exclude),
        vec![
            (String::from("trt_min_subgraph_size"), String::from("12")),
            (String::from("trt_op_types_to_exclude"), String::from("LabelEncoder,Cast")),
        ]
    );
    assert_eq!(trt_options(None, &None), Vec::new());
}
