use toutates::gpu_binding::{
    plan_output_copies, BindStep, BoundList, BoundTensor, CopyMode, GpuBoundIoSpec,
};

fn tensor(name: &str, data_type: i32, shape: &[i64]) -> BoundTensor {
    BoundTensor {
        name: String::from(name),
        data_type,
        shape: shape.to_vec(),
    }
}

fn list(tensors: Vec<BoundTensor>) -> BoundList {
    let mut list = BoundList::new();
    for tensor in tensors {
        list.push(tensor);
    }
    list
}

#[test]
fn lists_keep_their_order() {
    let names: Vec<String> = (0..9).map(|i| format!("t{i}")).collect();
    let bound = list(names.iter().map(|n| tensor(n, 1, &[1])).collect());
    assert_eq!(bound.len(), 9);
    for (i, name) in names.iter().enumerate() {
        assert_eq!(bound.get(i).name, *name);
    }
    let spec = GpuBoundIoSpec { inputs: BoundList::new(), outputs: bound };
    assert_eq!(spec.output_dtypes_shapes().len(), 9);
    assert_eq!(spec.bind_steps().len(), 9);
}

#[test]
fn inputs_are_bound_before_outputs() {
    let spec = GpuBoundIoSpec {
        inputs: list(vec![tensor("a", 1, &[8, 2]), tensor("b", 1, &[8])]),
        outputs: list(vec![tensor("p", 11, &[8, 3])]),
    };
    assert_eq!(
        spec.bind_steps(),
        vec![BindStep::Input(0), BindStep::Input(1), BindStep::Output(0)]
    );
    let landing = spec.output_dtypes_shapes();
    assert_eq!(landing.len(), 1);
    assert_eq!((landing.get(0).data_type, landing.get(0).shape.clone()), (11, vec![8, 3]));
}

#[test]
fn only_the_last_copy_is_waited_for() {
    assert_eq!(
        plan_output_copies(3, 3),
        vec![CopyMode::Queued, CopyMode::Queued, CopyMode::Waited]
    );
    assert_eq!(plan_output_copies(3, 2), vec![CopyMode::Queued, CopyMode::Queued]);
    assert_eq!(plan_output_copies(1, 5), vec![CopyMode::Waited]);
    assert_eq!(plan_output_copies(0, 5), Vec::new());
}
