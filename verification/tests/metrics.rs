use prometheus::{IntCounterVec, Opts, Registry};
use std::collections::HashMap;
use std::sync::Arc;
use toutates::grpc::Outcome;
use toutates::metrics::{
    flush_local_metrics, init_local_metrics, publish_model, Buckets,
    LocalMetrics, Metric, MetricKind, MetricsRegistry, ModelGauges,
};
use toutates::model::{
    describe_model, AllocatorKind, ModelMap, ModelProxy, ModelRepositoryConfig,
};
use toutates::shapes::ShapeOverrides;
use toutates::supertensor::SuperTensorMetricsSnapshot;

const ALL: [Metric; 21] = [
    Metric::RequestsTotal,
    Metric::BatchesTotal,
    Metric::BatchItems,
    Metric::ClientBatchSize,
    Metric::RequestDuration,
    Metric::BatchDuration,
    Metric::ModelExecution,
    Metric::ModelSessionRun,
    Metric::ModelH2dCopy,
    Metric::ModelD2hCopy,
    Metric::ModelProxyAquired,
    Metric::SerializationDone,
    Metric::InferenceInQueue,
    Metric::InferenceExecStart,
    Metric::InferenceExecEnd,
    Metric::OutputProcessed,
    Metric::Inflight,
    Metric::Capacity,
    Metric::ExecutorsInUse,
    Metric::ConfiguredBatchSize,
    Metric::LoadedModels,
];

/// The exported count of a model's requests that ended with a status.
fn exported(registry: &MetricsRegistry, model: &str, status: &str) -> Option<u64> {
    for family in registry.registry.gather() {
        if family.name() != "inference_requests_total" {
            continue;
        }
        for metric in family.get_metric() {
            let has = |name: &str, value: &str| {
                metric.get_label().iter().any(|l| l.name() == name && l.value() == value)
            };
            if has("model", model) && has("status", status) {
                return Some(metric.get_counter().get_value() as u64);
            }
        }
    }
    None
}

#[test]
fn every_metric_can_be_registered() {
    let registry = Registry::new();
    for metric in ALL {
        let labels = metric.labels();
        let names: Vec<&str> = labels.iter().map(|l| l.as_str()).collect();
        let vec = IntCounterVec::new(Opts::new(metric.name(), metric.help()), &names).unwrap();
        registry.register(Box::new(vec)).unwrap();
    }
}

#[test]
fn metrics_are_what_they_are() {
    assert_eq!(Metric::RequestsTotal.labels(), vec!["model", "status"]);
    assert_eq!(Metric::BatchItems.labels(), vec!["model"]);
    assert_eq!(Metric::LoadedModels.labels(), Vec::<String>::new());
    assert_eq!(Metric::RequestsTotal.kind(), MetricKind::Counter);
    assert_eq!(Metric::LoadedModels.kind(), MetricKind::Gauge);
    assert_eq!(
        Metric::BatchItems.kind(),
        MetricKind::Histogram(Buckets { start_ten_thousandths: 10_000, factor: 2, count: 12 })
    );
    assert_eq!(
        Metric::OutputProcessed.kind(),
        MetricKind::Histogram(Buckets { start_ten_thousandths: 1, factor: 2, count: 18 })
    );
    assert_eq!(
        Metric::ModelProxyAquired.name(),
        "inference_request_model_proxy_aquired_seconds"
    );
    assert_eq!(Metric::LoadedModels.help(), "Number of currently loaded models");
}

#[test]
fn counts_are_exported_when_they_are_handed_on() {
    let registry = Arc::new(MetricsRegistry::new());
    let mut local = LocalMetrics::new(registry.clone());
    local.inc_requests_ok("bert");
    local.inc_requests_ok("bert");
    local.inc_requests_not_found("gpt");
    local.inc_requests_error("bert");
    local.inc_requests_resource_exhausted("bert");
    local.count("bert", Outcome::ResourceExhausted);
    local.count("bert", Outcome::ResourceExhausted);
    // known, and not handed on yet
    assert_eq!(exported(&registry, "bert", "ok"), Some(0));
    local.flush();
    assert_eq!(exported(&registry, "bert", "ok"), Some(2));
    assert_eq!(exported(&registry, "bert", "not_found"), Some(0));
    assert_eq!(exported(&registry, "bert", "error"), Some(1));
    assert_eq!(exported(&registry, "bert", "resource_exhausted"), Some(3));
    assert_eq!(exported(&registry, "gpt", "not_found"), Some(1));
    assert_eq!(exported(&registry, "gpt", "ok"), Some(0));
    // nothing is handed on twice
    local.flush();
    assert_eq!(exported(&registry, "bert", "ok"), Some(2));
    local.inc_requests_ok("bert");
    local.flush();
    assert_eq!(exported(&registry, "bert", "ok"), Some(3));
}

#[test]
fn a_model_is_known_once_it_is_asked_for() {
    let registry = Arc::new(MetricsRegistry::new());
    let mut local = LocalMetrics::new(registry.clone());
    assert_eq!(exported(&registry, "bert", "ok"), None);
    local.ensure_model("bert");
    local.ensure_model("bert");
    assert_eq!(exported(&registry, "bert", "error"), Some(0));
    assert_eq!(local.models, vec!["bert"]);
}

#[test]
fn threads_add_up() {
    let registry = Arc::new(MetricsRegistry::new());
    let mut a = None;
    let mut b = None;
    flush_local_metrics(&mut a);
    assert!(a.is_none());
    init_local_metrics(&mut a, registry.clone());
    init_local_metrics(&mut b, registry.clone());
    a.as_mut().unwrap().inc_requests_ok("bert");
    b.as_mut().unwrap().inc_requests_ok("bert");
    flush_local_metrics(&mut a);
    assert_eq!(exported(&registry, "bert", "ok"), Some(1));
    flush_local_metrics(&mut b);
    assert_eq!(exported(&registry, "bert", "ok"), Some(2));
}

/// The hash of a name with the byte that ends it.
fn hash(name: &str) -> u64 {
    let mut hash = 0xcbf2_9ce4_8422_2325u64;
    for byte in name.bytes().chain([0xff]) {
        hash = (hash ^ byte as u64).wrapping_mul(0x100_0000_01b3);
    }
    hash
}

#[test]
fn ids_are_hashes_of_names() {
    for metric in ALL {
        let labels = metric.labels();
        let desc = prometheus::core::Desc::new(
            String::from(metric.name()),
            String::from(metric.help()),
            labels,
            HashMap::new(),
        )
        .unwrap();
        assert_eq!(desc.id, hash(metric.name()));
    }
    assert_eq!(hash("inference_requests_total"), 0x66be_0e3a_6502_67ef);
    assert_eq!(hash("loaded_models"), 0x6d30_3075_02d3_5a34);
}

#[test]
fn there_is_room_to_count() {
    let mut local = LocalMetrics::new(Arc::new(MetricsRegistry::new()));
    assert!(local.has_room("bert", Outcome::Answered));
    local.inc_requests_ok("bert");
    assert!(local.has_room("bert", Outcome::Answered));
    assert!(local.has_room("bert", Outcome::Error));
}

/// What a gauge shows of a model, or without one.
fn shown(registry: &MetricsRegistry, name: &str, model: Option<&str>) -> Option<i64> {
    for family in registry.registry.gather() {
        if family.name() != name {
            continue;
        }
        for metric in family.get_metric() {
            let values: Vec<&str> = metric.get_label().iter().map(|l| l.value()).collect();
            if values == model.into_iter().collect::<Vec<&str>>() {
                return Some(metric.get_gauge().get_value() as i64);
            }
        }
    }
    None
}

fn model(name: &str) -> Arc<ModelProxy> {
    let config = ModelRepositoryConfig {
        num_executors: 1,
        batch_size: 8,
        capacity: 4,
        allocator: AllocatorKind::Cpu,
        input_shapes: ShapeOverrides::new(),
        output_shapes: ShapeOverrides::new(),
        profiling: None,
    };
    Arc::new(describe_model(name, 0, &config, &Vec::new(), &Vec::new()))
}

#[test]
fn a_model_loaded_again_is_shown_once() {
    let metrics = MetricsRegistry::new();
    let (models, _) = publish_model(&metrics, &ModelMap::new(), "bert", model("bert"), 8);
    let (models, _) = publish_model(&metrics, &models, "bert", model("bert"), 32);
    assert_eq!(models.len(), 1);
    assert_eq!(shown(&metrics, "loaded_models", None), Some(1));
    assert_eq!(shown(&metrics, "inference_configured_batch_size", Some("bert")), Some(32));
    ModelGauges::new(&metrics, &ModelMap::new(), "bert", 8);
    assert_eq!(shown(&metrics, "loaded_models", None), Some(0));
}

#[test]
fn names_are_distinct() {
    for (i, a) in ALL.iter().enumerate() {
        for b in &ALL[i + 1..] {
            assert_ne!(a.name(), b.name());
        }
    }
}

#[test]
fn counters_that_are_replaced_are_handed_on() {
    let metrics = Arc::new(MetricsRegistry::new());
    let mut slot = None;
    assert!(init_local_metrics(&mut slot, metrics.clone()).is_none());
    slot.as_mut().unwrap().inc_requests_ok("bert");
    slot.as_mut().unwrap().inc_requests_ok("bert");
    slot.as_mut().unwrap().inc_requests_error("gpt");
    assert!(init_local_metrics(&mut slot, metrics.clone()).is_some());
    assert_eq!(exported(&metrics, "bert", "ok"), Some(2));
    assert_eq!(exported(&metrics, "gpt", "error"), Some(1));
    flush_local_metrics(&mut slot);
    flush_local_metrics(&mut slot);
    assert_eq!(exported(&metrics, "bert", "ok"), Some(2));
    slot.as_mut().unwrap().inc_requests_ok("bert");
    flush_local_metrics(&mut slot);
    flush_local_metrics(&mut slot);
    assert_eq!(exported(&metrics, "bert", "ok"), Some(3));
}

#[test]
fn gauges_show_what_they_are_told() {
    let metrics = MetricsRegistry::new();
    assert_eq!(shown(&metrics, "loaded_models", None), Some(0));
    assert_eq!(shown(&metrics, "inference_configured_batch_size", Some("bert")), None);
    let (models, mut bert) = publish_model(&metrics, &ModelMap::new(), "bert", model("bert"), 8);
    assert_eq!(shown(&metrics, "loaded_models", None), Some(1));
    let (models, _) = publish_model(&metrics, &models, "gpt", model("gpt"), 16);
    assert_eq!(shown(&metrics, "loaded_models", None), Some(2));
    assert_eq!(models.len(), 2);
    assert_eq!(shown(&metrics, "inference_configured_batch_size", Some("bert")), Some(8));
    assert_eq!(shown(&metrics, "inference_configured_batch_size", Some("gpt")), Some(16));
    assert_eq!(shown(&metrics, "inference_executors_in_use", Some("bert")), Some(0));
    bert.report(&SuperTensorMetricsSnapshot {
        tail_index: 1,
        in_use_index: 2,
        head_index: 3,
        executors_in_use: 4,
    });
    assert_eq!(shown(&metrics, "inference_executors_in_use", Some("bert")), Some(4));
    assert_eq!(shown(&metrics, "inference_executors_in_use", Some("gpt")), Some(0));
    assert_eq!(shown(&metrics, "inference_capacity", Some("bert")), None);
}

#[test]
fn every_whole_number_is_registered() {
    let metrics = MetricsRegistry::new();
    for metric in ALL {
        let labels = metric.labels();
        let names: Vec<&str> = labels.iter().map(|l| l.as_str()).collect();
        let again = IntCounterVec::new(Opts::new(metric.name(), metric.help()), &names).unwrap();
        let taken = metrics.registry.register(Box::new(again)).is_err();
        assert_eq!(taken, !matches!(metric.kind(), MetricKind::Histogram(_)));
    }
}
