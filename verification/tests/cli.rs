use std::path::PathBuf;
use toutates::cli::{Args, ExecutionProviderKind, ModelSource};

fn args() -> Args {
    Args {
        processing_cores: 4,
        executor_cores: 1,
        ort_intra_threads: 5,
        ort_inter_threads: 5,
        model_repository: None,
        s3_endpoint: None,
        s3_bucket: None,
        s3_prefix: String::from("models/prod"),
        s3_region: String::from("us-east-1"),
        model_cache_dir: PathBuf::from("/tmp/model_cache"),
        load_models: None,
        execution_providers: vec![ExecutionProviderKind::TensorRT],
        custom_op_libraries: None,
        trt_op_types_to_exclude: None,
        trt_min_subgraph_size: None,
        grpc_addr: String::from("0.0.0.0:8001"),
        max_concurrent_connections: 100_000,
        max_concurrent_streams: 100_000,
        max_frame_size: 32 * 1024,
        cpu_pinning: false,
        sqpoll_enabled: false,
        sqpoll_idle_ms: 100,
        io_uring_capacity: 8096,
        buffer_pool_size: 4096,
        buffer_pool_buffer_len: 8 * 1024,
    }
}

#[test]
fn providers_are_read_in_any_case() {
    assert_eq!(ExecutionProviderKind::from_str("cpu"), Ok(ExecutionProviderKind::Cpu));
    assert_eq!(ExecutionProviderKind::from_str("CUDA"), Ok(ExecutionProviderKind::Cuda));
    assert_eq!(ExecutionProviderKind::from_str("TensorRT"), Ok(ExecutionProviderKind::TensorRT));
    assert_eq!(ExecutionProviderKind::from_str("tEnSoRrT"), Ok(ExecutionProviderKind::TensorRT));
    assert_eq!(ExecutionProviderKind::from_str("CpU"), Ok(ExecutionProviderKind::Cpu));
    assert_eq!(ExecutionProviderKind::from_str("trt"), Ok(ExecutionProviderKind::TensorRT));
    assert_eq!(ExecutionProviderKind::from_lowercase("trt"), Ok(ExecutionProviderKind::TensorRT));
    assert!(ExecutionProviderKind::from_lowercase("TRT").is_err());
}

#[test]
fn unknown_providers_are_named_in_lower_case() {
    assert_eq!(
        ExecutionProviderKind::from_str("RoCM").unwrap_err(),
        "unknown execution provider 'rocm'; expected one of: cpu, cuda, tensorrt (or trt)"
    );
    assert_eq!(
        ExecutionProviderKind::from_str("ÀB").unwrap_err(),
        "unknown execution provider 'àb'; expected one of: cpu, cuda, tensorrt (or trt)"
    );
}

#[test]
fn provider_names_read_back() {
    for kind in [
        ExecutionProviderKind::Cpu,
        ExecutionProviderKind::Cuda,
        ExecutionProviderKind::TensorRT,
    ] {
        assert_eq!(ExecutionProviderKind::from_str(kind.as_str()), Ok(kind));
    }
    assert_eq!(ExecutionProviderKind::TensorRT.as_str(), "tensorrt");
}

#[test]
fn a_local_directory_goes_first() {
    let mut a = args();
    a.model_repository = Some(PathBuf::from("/models"));
    a.s3_endpoint = Some(String::from("https://s3"));
    a.s3_bucket = Some(String::from("b"));
    match a.model_source() {
        Ok(ModelSource::Local(path)) => assert_eq!(path, PathBuf::from("/models")),
        _ => panic!("expected a local source"),
    }
}

#[test]
fn a_bucket_needs_its_endpoint() {
    let mut a = args();
    a.s3_endpoint = Some(String::from("https://s3"));
    assert_eq!(
        a.model_source().err().unwrap(),
        "error: either --model-repository or --s3-bucket + --s3-endpoint is required"
    );
    a.s3_bucket = Some(String::from("b"));
    match a.model_source() {
        Ok(ModelSource::S3 { endpoint, bucket, prefix, region, cache_dir }) => {
            assert_eq!(endpoint, "https://s3");
            assert_eq!(bucket, "b");
            assert_eq!(prefix, "models/prod");
            assert_eq!(region, "us-east-1");
            assert_eq!(cache_dir, PathBuf::from("/tmp/model_cache"));
        }
        _ => panic!("expected a bucket"),
    }
    a.s3_endpoint = None;
    assert!(a.model_source().is_err());
}
