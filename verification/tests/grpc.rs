use std::sync::Arc;
use toutates::grpc::{
    error_message, infer_error_outcome, infer_error_to_status, infer_response, ordered_tensors,
    read_client_batch_size, slots_wanted, Code, InferError, InferInputTensor, ModelInferRequest, Outcome, OutputInfo,
    Status, TritonService,
};
use toutates::model::{describe_model, AllocatorKind, ModelMap, ModelRepositoryConfig};
use toutates::shapes::{ShapeOverrides, TensorInfo};

fn info(name: &str, shape: &[i64]) -> TensorInfo {
    TensorInfo {
        name: String::from(name),
        data_type: 11,
        datatype: String::from("FP32"),
        shape: shape.to_vec(),
    }
}

fn service() -> TritonService {
    let config = ModelRepositoryConfig {
        num_executors: 1,
        batch_size: 8,
        capacity: 4,
        allocator: AllocatorKind::Cpu,
        input_shapes: ShapeOverrides::new(),
        output_shapes: ShapeOverrides::new(),
        profiling: None,
    };
    let inputs = vec![info("ids", &[-1, 4]), info("mask", &[-1, 4]), info("scale", &[-1])];
    let outputs = vec![info("logits", &[-1, 2]), info("pooled", &[-1, 3])];
    let model = describe_model("bert", 0, &config, &inputs, &outputs);
    TritonService::new(ModelMap::new().with_model("bert", Arc::new(model)))
}

fn input(name: &str, shape: &[i64]) -> InferInputTensor {
    InferInputTensor {
        name: String::from(name),
        datatype: String::from("FP32"),
        shape: shape.to_vec(),
    }
}

fn request(model: &str, inputs: Vec<InferInputTensor>) -> ModelInferRequest {
    let raw_input_contents = inputs.iter().map(|_| Vec::new()).collect();
    ModelInferRequest {
        model_name: String::from(model),
        id: String::from("42"),
        inputs,
        raw_input_contents,
    }
}

fn refusal(inputs: Vec<InferInputTensor>) -> (Status, Option<Outcome>) {
    match service().model_infer(&request("bert", inputs)) {
        Ok(_) => panic!("expected a refusal"),
        Err(refusal) => refusal,
    }
}

#[test]
fn the_server_is_live_and_says_what_it_is() {
    let s = service();
    assert!(s.server_live());
    assert!(s.server_ready());
    assert!(!s.model_ready("bert"));
    assert!(s.repository_index().is_empty());
    let meta = s.server_metadata();
    assert_eq!(meta.name, "inference-server");
    assert_eq!(meta.version, "1.0.0-demo");
    assert_eq!(meta.extensions, vec!["classification", "model_repository"]);
}

#[test]
fn models_are_described_by_name() {
    let s = service();
    let meta = s.model_metadata("bert").ok().unwrap();
    assert_eq!(meta.name, "bert");
    assert_eq!(meta.versions, vec!["1"]);
    assert_eq!(meta.platform, "onnxruntime_onnx");
    assert_eq!(meta.inputs.len(), 3);
    assert_eq!(meta.outputs[1].name, "pooled");
    assert_eq!(s.model_config("bert").unwrap().max_batch_size, 8);
    let status = s.model_config("gpt").err().unwrap();
    assert_eq!((status.code, status.message), (Code::NotFound, String::from("Model gpt not found")));
    let status = s.model_metadata("gpt").err().unwrap();
    assert_eq!((status.code, status.message), (Code::NotFound, String::from("Model gpt not found")));
}

#[test]
fn unknown_models_are_refused_and_counted() {
    let s = service();
    match s.model_infer(&request("gpt", Vec::new())) {
        Err((status, outcome)) => {
            assert_eq!(status.code, Code::NotFound);
            assert_eq!(status.message, "Model gpt not found");
            assert_eq!(outcome, Some(Outcome::NotFound));
        }
        Ok(_) => panic!("expected a refusal"),
    };
}

#[test]
fn inputs_that_do_not_fit_are_refused() {
    let message = |inputs: Vec<InferInputTensor>| {
        let (status, outcome) = refusal(inputs);
        assert_eq!(status.code, Code::InvalidArgument);
        assert_eq!(outcome, None);
        status.message
    };
    assert_eq!(message(vec![input("nope", &[1, 4])]), "Unknown input 'nope' in request");
    assert_eq!(
        message(vec![input("ids", &[1, 4, 1])]),
        "Input 'ids' shape rank mismatch: expected 2, got 3"
    );
    assert_eq!(
        message(vec![input("ids", &[0, 4])]),
        "Input 'ids' batch size must be positive, got 0"
    );
    assert_eq!(
        message(vec![input("ids", &[-3, 5])]),
        "Input 'ids' batch size must be positive, got -3"
    );
    assert_eq!(
        message(vec![input("ids", &[1, -5])]),
        "Input 'ids' dimension 1 mismatch: expected 4, got -5"
    );
    // the first input that is wrong decides
    assert_eq!(
        message(vec![input("scale", &[2]), input("mask", &[2]), input("nope", &[])]),
        "Input 'mask' shape rank mismatch: expected 2, got 1"
    );
}

#[test]
fn inputs_are_put_in_the_order_of_the_model() {
    let s = service();
    let r = request(
        "bert",
        vec![input("scale", &[2]), input("ids", &[3, 4]), input("mask", &[2, 4]), input("ids", &[5, 4])],
    );
    let plan = s.model_infer(&r).ok().unwrap();
    assert_eq!(plan.order, vec![1, 3, 2, 0]);
    assert_eq!(plan.proxy.model_config.name, "bert");
    assert_eq!(slots_wanted(&r.inputs, &plan.order), 3);
    assert_eq!(read_client_batch_size(&r.inputs), Some(2));
    assert_eq!(read_client_batch_size(&Vec::new()), None);
    assert_eq!(read_client_batch_size(&vec![input("a", &[])]), None);
}

#[test]
fn bytes_go_with_their_inputs() {
    let s = service();
    let mut r = request("bert", vec![input("mask", &[2, 4]), input("scale", &[2]), input("ids", &[2, 4])]);
    r.inputs[1].datatype = String::from("FP16");
    r.raw_input_contents = vec![vec![1], vec![2, 2], vec![3]];
    let plan = s.model_infer(&r).ok().unwrap();
    assert_eq!(plan.order, vec![2, 0, 1]);
    let ordered = ordered_tensors(&r, &plan.order);
    let tensors: Vec<(&str, Vec<i64>, Vec<u8>)> = (0..ordered.len())
        .map(|i| ordered.get(i))
        .map(|t| (t.datatype, t.shape.clone(), t.data.clone()))
        .collect();
    assert_eq!(
        tensors,
        vec![
            ("FP32", vec![2, 4], vec![3]),
            ("FP32", vec![2, 4], vec![1]),
            ("FP16", vec![2], vec![2, 2]),
        ]
    );
}

#[test]
fn what_the_metadata_shows_is_let_in() {
    let s = service();
    let meta = s.model_metadata("bert").ok().unwrap();
    let inputs: Vec<InferInputTensor> = meta
        .inputs
        .iter()
        .map(|t| {
            let mut shape = t.shape.clone();
            shape[0] = 6;
            input(&t.name, &shape)
        })
        .collect();
    assert!(s.model_infer(&request("bert", inputs)).is_ok());
}

#[test]
fn answers_name_the_outputs() {
    let s = service();
    let proxy = s.loaded_models.get("bert").unwrap();
    let infos = vec![
        OutputInfo { datatype: String::from("TYPE_FP32"), shape: vec![3, 2] },
        OutputInfo { datatype: String::from("TYPE_FP16"), shape: vec![3, 3] },
        OutputInfo { datatype: String::from("TYPE_BOOL"), shape: vec![3] },
    ];
    let raw = vec![vec![1u8, 2], vec![3u8]];
    let r = infer_response(proxy, "42", &infos, raw.clone());
    assert_eq!(r.model_name, "bert");
    assert_eq!(r.model_version, "1");
    assert_eq!(r.id, "42");
    assert_eq!(r.raw_output_contents, raw);
    let outputs: Vec<(String, String, Vec<i64>)> =
        r.outputs.into_iter().map(|o| (o.name, o.datatype, o.shape)).collect();
    assert_eq!(
        outputs,
        vec![
            (String::from("logits"), String::from("TYPE_FP32"), vec![3, 2]),
            (String::from("pooled"), String::from("TYPE_FP16"), vec![3, 3]),
        ]
    );
}

#[test]
fn errors_have_their_codes() {
    let full = infer_error_to_status(&InferError::RingFull);
    assert_eq!(
        (full.code, full.message),
        (Code::ResourceExhausted, String::from("inference ring is full"))
    );
    let run = InferError::SessionRun(String::from("boom"));
    let failed = infer_error_to_status(&run);
    assert_eq!((failed.code, failed.message), (Code::Internal, String::from("boom")));
    assert_eq!(error_message(&run), "boom");
    assert_eq!(infer_error_outcome(&InferError::RingFull), Outcome::ResourceExhausted);
    assert_eq!(infer_error_outcome(&run), Outcome::Error);
}
