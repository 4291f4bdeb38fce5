use std::sync::Arc;
use toutates::model::{
    allocation, describe_model, AllocationDevice, AllocatorKind, LoadError, MemoryUse, ModelMap,
    ModelProxy, ModelRepositoryConfig,
};
use toutates::shapes::{report_shape, shape_batch_tensor, ShapeOverrides, TensorInfo};

fn info(name: &str, shape: &[i64]) -> TensorInfo {
    TensorInfo {
        name: String::from(name),
        data_type: 11,
        datatype: String::from("FP32"),
        shape: shape.to_vec(),
    }
}

fn config() -> ModelRepositoryConfig {
    let mut input_shapes = ShapeOverrides::new();
    input_shapes.insert(String::from("x"), vec![-1, 4]);
    let mut output_shapes = ShapeOverrides::new();
    output_shapes.insert(String::from("p"), vec![-1, 2, 99]);
    ModelRepositoryConfig {
        num_executors: 2,
        batch_size: 8,
        capacity: 4,
        allocator: AllocatorKind::CudaPinned,
        input_shapes,
        output_shapes,
        profiling: None,
    }
}

fn proxy(data: usize) -> ModelProxy {
    let inputs = vec![info("y", &[-1, 3]), info("x", &[-1, -1])];
    let outputs = vec![info("p", &[-1, -1])];
    describe_model("bert", data, &config(), &inputs, &outputs)
}

#[test]
fn overrides_are_replaced_and_found() {
    let mut overrides = ShapeOverrides::new();
    overrides.insert(String::from("x"), vec![1]);
    overrides.insert(String::from("y"), vec![2]);
    overrides.insert(String::from("x"), vec![3]);
    assert_eq!(overrides.get("x"), Some(&vec![3]));
    assert_eq!(overrides.get("y"), Some(&vec![2]));
    assert_eq!(overrides.get("z"), None);
}

#[test]
fn reported_shapes_and_memory_differ_only_in_the_batch() {
    let mut overrides = ShapeOverrides::new();
    overrides.insert(String::from("x"), vec![16, 4]);
    assert_eq!(report_shape(&vec![-1, -1, 3], &overrides, "x"), vec![16, 4, 3]);
    assert_eq!(shape_batch_tensor(&vec![-1, -1, 3], &overrides, "x"), vec![-1, 4, 3]);
    assert_eq!(report_shape(&vec![-1, -1], &overrides, "y"), vec![-1, -1]);
}

#[test]
fn a_model_is_described_by_its_session_and_its_configuration() {
    let model = proxy(3);
    assert_eq!(model.data, 3);
    let shown = &model.model_config;
    assert_eq!(shown.name, "bert");
    assert_eq!(shown.platform, "onnxruntime_onnx");
    assert_eq!(shown.backend, "onnxruntime");
    assert_eq!(shown.runtime, "onnxruntime");
    assert_eq!(shown.max_batch_size, 8);
    assert_eq!(shown.default_model_filename, "todo");
    assert_eq!(shown.input[0].name, "y");
    assert_eq!(shown.input[0].dims, vec![-1, 3]);
    assert_eq!(shown.input[1].name, "x");
    assert_eq!(shown.input[1].data_type, 11);
    assert_eq!(shown.input[1].dims, vec![-1, 4]);
    assert_eq!(shown.output[0].dims, vec![-1, 2]);
    let meta = &model.model_metadata;
    assert_eq!(meta.input_meta[1].name, "x");
    assert_eq!(meta.input_meta[1].datatype, "FP32");
    assert_eq!(meta.input_meta[1].shape, vec![-1, 4]);
    assert_eq!(meta.output_meta[0].shape, vec![-1, 2]);
}

#[test]
fn a_new_map_leaves_the_old_one_alone() {
    let before = ModelMap::new();
    let after = before.with_model("bert", Arc::new(proxy(1)));
    assert!(before.get("bert").is_none());
    assert_eq!(after.get("bert").unwrap().data, 1);
    assert!(after.get("gpt").is_none());
    let later = after.with_model("bert", Arc::new(proxy(2)));
    assert_eq!(after.get("bert").unwrap().data, 1);
    assert_eq!(later.get("bert").unwrap().data, 2);
    let both = later.with_model("gpt", Arc::new(proxy(5)));
    assert_eq!(both.get("bert").unwrap().data, 2);
    assert_eq!(both.get("gpt").unwrap().data, 5);
}

#[test]
fn memory_goes_where_the_configuration_says() {
    assert_eq!(allocation(AllocatorKind::Cpu), (AllocationDevice::Cpu, MemoryUse::CpuInput));
    assert_eq!(
        allocation(AllocatorKind::CudaPinned),
        (AllocationDevice::CudaPinned, MemoryUse::CpuInput)
    );
    assert_eq!(format!("{:?}", LoadError::SuperTensorBuild), "SuperTensorBuild");
}
