//! What the server counts and measures.
//!
//! The numbers of requests are counted per thread and handed on from time to
//! time; gauges are set where they change. What is measured in fractions is kept
//! by the program around this library; its names are here.
use crate::grpc::Outcome;
use crate::manager;
use crate::metric_ids;
use crate::model::{ModelMap, ModelProxy};
use crate::supertensor::SuperTensorMetricsSnapshot;
use crate::text;
use hashbrown::HashMap;
use prometheus::local::LocalIntCounter;
use prometheus::{IntCounterVec, IntGauge, IntGaugeVec, Opts, Registry};
use std::sync::Arc;
use vstd::prelude::*;

verus! {

/// The boundaries of a histogram: `count` of them, the first at
/// `start_ten_thousandths`, each `factor` times the one before.
#[derive(Clone, Copy, Debug, PartialEq, Eq, Structural)]
pub struct Buckets {
    pub start_ten_thousandths: u64,
    pub factor: u64,
    pub count: usize,
}

/// What is kept of a metric.
#[derive(Clone, Copy, Debug, PartialEq, Eq, Structural)]
pub enum MetricKind {
    Counter,
    Gauge,
    Histogram(Buckets),
}

impl Buckets {
    /// Boundaries for numbers of items: from 1 on.
    pub open spec fn of_items() -> Buckets {
        Buckets { start_ten_thousandths: 10_000, factor: 2, count: 12 }
    }

    /// Boundaries for times in seconds: from a tenth of a millisecond on.
    pub open spec fn of_times() -> Buckets {
        Buckets { start_ten_thousandths: 1, factor: 2, count: 18 }
    }
}

/// Everything that is exported.
#[derive(Clone, Copy, Debug, PartialEq, Eq, Structural)]
pub enum Metric {
    RequestsTotal,
    BatchesTotal,
    BatchItems,
    ClientBatchSize,
    RequestDuration,
    BatchDuration,
    ModelExecution,
    ModelSessionRun,
    ModelH2dCopy,
    ModelD2hCopy,
    ModelProxyAquired,
    SerializationDone,
    InferenceInQueue,
    InferenceExecStart,
    InferenceExecEnd,
    OutputProcessed,
    Inflight,
    Capacity,
    ExecutorsInUse,
    ConfiguredBatchSize,
    LoadedModels,
}

impl Metric {
    /// The name it is exported under.
    pub open spec fn name_text(self) -> Seq<char> {
        match self {
            Metric::RequestsTotal => "inference_requests_total"@,
            Metric::BatchesTotal => "inference_batches_total"@,
            Metric::BatchItems => "inference_batch_items"@,
            Metric::ClientBatchSize => "inference_client_batch_size"@,
            Metric::RequestDuration => "inference_request_duration_seconds"@,
            Metric::BatchDuration => "inference_batch_duration_seconds"@,
            Metric::ModelExecution => "inference_model_execution_seconds"@,
            Metric::ModelSessionRun => "inference_model_session_run_seconds"@,
            Metric::ModelH2dCopy => "inference_model_h2d_copy_seconds"@,
            Metric::ModelD2hCopy => "inference_model_d2h_copy_seconds"@,
            Metric::ModelProxyAquired => "inference_request_model_proxy_aquired_seconds"@,
            Metric::SerializationDone => "inference_serialization_done_seconds"@,
            Metric::InferenceInQueue => "inference_inference_in_queue_seconds"@,
            Metric::InferenceExecStart => "inference_exec_start_seconds"@,
            Metric::InferenceExecEnd => "inference_exec_end_seconds"@,
            Metric::OutputProcessed => "inference_output_processed_seconds"@,
            Metric::Inflight => "inference_inflight"@,
            Metric::Capacity => "inference_capacity"@,
            Metric::ExecutorsInUse => "inference_executors_in_use"@,
            Metric::ConfiguredBatchSize => "inference_configured_batch_size"@,
            Metric::LoadedModels => "loaded_models"@,
        }
    }

    /// What it is said to be.
    pub open spec fn help_text(self) -> Seq<char> {
        match self {
            Metric::RequestsTotal => "Total number of inference requests"@,
            Metric::BatchesTotal => "Total number of inference batches"@,
            Metric::BatchItems => "Number of items in a batch before execution"@,
            Metric::ClientBatchSize => "Batch size requested by clients (input tensor dim 0)"@,
            Metric::RequestDuration => "Duration of inference requests in seconds"@,
            Metric::BatchDuration => "Duration of inference batches in seconds"@,
            Metric::ModelExecution => "Duration of model execution (ORT session run) in seconds"@,
            Metric::ModelSessionRun => "Duration of the ORT session run call only (excludes H2D/D2H copies) in seconds"@,
            Metric::ModelH2dCopy => "Duration of host-to-device input copy for GPU-bound executors in seconds"@,
            Metric::ModelD2hCopy => "Duration of device-to-host output copy for GPU-bound executors in seconds"@,
            Metric::ModelProxyAquired => "STEP 1: How long it took to fetch the reference the model"@,
            Metric::SerializationDone => "STEP 2: How long it took to deserialize from GRPC and serialize to the inner batch structure"@,
            Metric::InferenceInQueue => "STEP 3: How long it took to acquire a slot within the inner batch structure and copy data"@,
            Metric::InferenceExecStart => "STEP 4: How long request was queued"@,
            Metric::InferenceExecEnd => "STEP 5: How long request was executed"@,
            Metric::OutputProcessed => "STEP 6: how long after execution it was processed by the response thread"@,
            Metric::Inflight => "Total slots in the pipeline (queued + executing)"@,
            Metric::Capacity => "Total ring buffer capacity (batch_size * num_batches)"@,
            Metric::ExecutorsInUse => "Number of executors currently running a batch"@,
            Metric::ConfiguredBatchSize => "Configured batch size per model"@,
            Metric::LoadedModels => "Number of currently loaded models"@,
        }
    }

    /// What it is kept apart by.
    pub open spec fn label_names(self) -> Seq<Seq<char>> {
        match self {
            Metric::RequestsTotal => seq!["model"@, "status"@],
            Metric::LoadedModels => Seq::empty(),
            _ => seq!["model"@],
        }
    }

    /// The name it is exported under.
    pub fn name(&self) -> (r: &'static str)
        ensures
            r@ == self.name_text(),
    {
        match self {
            Metric::RequestsTotal => "inference_requests_total",
            Metric::BatchesTotal => "inference_batches_total",
            Metric::BatchItems => "inference_batch_items",
            Metric::ClientBatchSize => "inference_client_batch_size",
            Metric::RequestDuration => "inference_request_duration_seconds",
            Metric::BatchDuration => "inference_batch_duration_seconds",
            Metric::ModelExecution => "inference_model_execution_seconds",
            Metric::ModelSessionRun => "inference_model_session_run_seconds",
            Metric::ModelH2dCopy => "inference_model_h2d_copy_seconds",
            Metric::ModelD2hCopy => "inference_model_d2h_copy_seconds",
            Metric::ModelProxyAquired => "inference_request_model_proxy_aquired_seconds",
            Metric::SerializationDone => "inference_serialization_done_seconds",
            Metric::InferenceInQueue => "inference_inference_in_queue_seconds",
            Metric::InferenceExecStart => "inference_exec_start_seconds",
            Metric::InferenceExecEnd => "inference_exec_end_seconds",
            Metric::OutputProcessed => "inference_output_processed_seconds",
            Metric::Inflight => "inference_inflight",
            Metric::Capacity => "inference_capacity",
            Metric::ExecutorsInUse => "inference_executors_in_use",
            Metric::ConfiguredBatchSize => "inference_configured_batch_size",
            Metric::LoadedModels => "loaded_models",
        }
    }

    /// What it is said to be.
    pub fn help(&self) -> (r: &'static str)
        ensures
            r@ == self.help_text(),
    {
        match self {
            Metric::RequestsTotal => "Total number of inference requests",
            Metric::BatchesTotal => "Total number of inference batches",
            Metric::BatchItems => "Number of items in a batch before execution",
            Metric::ClientBatchSize => "Batch size requested by clients (input tensor dim 0)",
            Metric::RequestDuration => "Duration of inference requests in seconds",
            Metric::BatchDuration => "Duration of inference batches in seconds",
            Metric::ModelExecution => "Duration of model execution (ORT session run) in seconds",
            Metric::ModelSessionRun => "Duration of the ORT session run call only (excludes H2D/D2H copies) in seconds",
            Metric::ModelH2dCopy => "Duration of host-to-device input copy for GPU-bound executors in seconds",
            Metric::ModelD2hCopy => "Duration of device-to-host output copy for GPU-bound executors in seconds",
            Metric::ModelProxyAquired => "STEP 1: How long it took to fetch the reference the model",
            Metric::SerializationDone => "STEP 2: How long it took to deserialize from GRPC and serialize to the inner batch structure",
            Metric::InferenceInQueue => "STEP 3: How long it took to acquire a slot within the inner batch structure and copy data",
            Metric::InferenceExecStart => "STEP 4: How long request was queued",
            Metric::InferenceExecEnd => "STEP 5: How long request was executed",
            Metric::OutputProcessed => "STEP 6: how long after execution it was processed by the response thread",
            Metric::Inflight => "Total slots in the pipeline (queued + executing)",
            Metric::Capacity => "Total ring buffer capacity (batch_size * num_batches)",
            Metric::ExecutorsInUse => "Number of executors currently running a batch",
            Metric::ConfiguredBatchSize => "Configured batch size per model",
            Metric::LoadedModels => "Number of currently loaded models",
        }
    }

    /// What it is kept apart by.
    pub fn labels(&self) -> (r: Vec<String>)
        ensures
            text::contents(r@) == self.label_names(),
    {
        let mut r: Vec<String> = Vec::new();
        match self {
            Metric::LoadedModels => {},
            Metric::RequestsTotal => {
                r.push("model".to_owned());
                r.push("status".to_owned());
            },
            _ => {
                r.push("model".to_owned());
            },
        }
        assert(text::contents(r@) =~= self.label_names());
        r
    }

    /// What is kept of it.
    pub open spec fn is_kept_as(self) -> MetricKind {
        match self {
            Metric::RequestsTotal | Metric::BatchesTotal => MetricKind::Counter,
            Metric::BatchItems | Metric::ClientBatchSize => MetricKind::Histogram(Buckets::of_items()),
            Metric::Inflight | Metric::Capacity | Metric::ExecutorsInUse | Metric::ConfiguredBatchSize
            | Metric::LoadedModels => MetricKind::Gauge,
            _ => MetricKind::Histogram(Buckets::of_times()),
        }
    }

    /// What is kept of it.
    pub fn kind(&self) -> (r: MetricKind)
        ensures
            r == self.is_kept_as(),
    {
        match self {
            Metric::RequestsTotal | Metric::BatchesTotal => MetricKind::Counter,
            Metric::BatchItems | Metric::ClientBatchSize => MetricKind::Histogram(
                Buckets { start_ten_thousandths: 10_000, factor: 2, count: 12 },
            ),
            Metric::Inflight | Metric::Capacity | Metric::ExecutorsInUse | Metric::ConfiguredBatchSize
            | Metric::LoadedModels => MetricKind::Gauge,
            _ => MetricKind::Histogram(Buckets { start_ten_thousandths: 1, factor: 2, count: 18 }),
        }
    }
}

/// A letter of a name.
pub open spec fn is_name_char(c: char) -> bool {
    'a' <= c <= 'z' || 'A' <= c <= 'Z' || c == '_'
}

/// A name that labels can have: letters and underscores, and behind the first
/// of them digits.
pub open spec fn is_label_name(s: Seq<char>) -> bool {
    &&& s.len() > 0
    &&& is_name_char(s[0])
    &&& forall|i: int| 0 < i < s.len() ==> is_name_char(#[trigger] s[i]) || '0' <= s[i] <= '9'
}

/// A name that metrics can have: one with colons too.
pub open spec fn is_metric_name(s: Seq<char>) -> bool {
    &&& s.len() > 0
    &&& is_name_char(s[0]) || s[0] == ':'
    &&& forall|i: int| 0 < i < s.len() ==> is_name_char(#[trigger] s[i]) || s[i] == ':' || '0' <= s[i] <= '9'
}

/// What a set of counters is made with.
pub struct Definition {
    pub name: Seq<char>,
    pub help: Seq<char>,
    pub labels: Seq<Seq<char>>,
}

impl Definition {
    /// It can be made: it says something, its names are names, and no label is
    /// there twice.
    pub open spec fn is_valid(self) -> bool {
        &&& self.help.len() > 0
        &&& is_metric_name(self.name)
        &&& forall|i: int| 0 <= i < self.labels.len() ==> is_label_name(#[trigger] self.labels[i])
        &&& self.labels.no_duplicates()
    }
}

impl Metric {
    /// What the metric is made with.
    pub open spec fn definition(self) -> Definition {
        Definition { name: self.name_text(), help: self.help_text(), labels: self.label_names() }
    }
}

/// A registry of the metrics library; only carried through.
#[verifier::external_type_specification]
#[verifier::external_body]
pub struct ExRegistry(Registry);

/// An error of the metrics library; only carried through.
#[verifier::external_type_specification]
#[verifier::external_body]
pub struct ExError(prometheus::Error);

/// Counters that all threads share, one for each choice of label values.
#[verifier::external_body]
pub struct CounterVec {
    counters: IntCounterVec,
}

/// What a set of counters was made with.
pub uninterp spec fn definition_of(counters: CounterVec) -> Definition;

/// Calls [`IntCounterVec::new`]. It succeeds exactly on a valid definition,
/// and the counters are kept apart by its labels.
#[verifier::external_body]
fn new_counters(name: &str, help: &str, labels: &Vec<String>) -> (r: Result<CounterVec, prometheus::Error>)
    ensures
        match r {
            Ok(counters) => definition_of(counters).is_valid() && definition_of(counters) == (Definition {
                name: name@,
                help: help@,
                labels: text::contents(labels@),
            }),
            Err(_) => !(Definition { name: name@, help: help@, labels: text::contents(labels@) }).is_valid(),
        },
{
    let labels: Vec<&str> = labels.iter().map(|label| label.as_str()).collect();
    IntCounterVec::new(Opts::new(name, help), &labels).map(|counters| CounterVec { counters })
}

/// A counter of one thread, in front of one that all threads share.
#[verifier::external_body]
pub struct LocalCounter {
    counter: LocalIntCounter,
}

/// What a local counter has counted since it was last handed on.
pub uninterp spec fn count_of(counter: LocalCounter) -> u64;

/// The label values that a local counter was asked for with.
pub uninterp spec fn labels_of(counter: LocalCounter) -> Seq<Seq<char>>;

/// The counters that a local counter was asked of, to one of which it adds.
pub uninterp spec fn source_of(counter: LocalCounter) -> CounterVec;

/// What a local counter has added to the shared one. What other threads add is
/// not in it.
pub uninterp spec fn handed_on(counter: LocalCounter) -> int;

/// Calls [`IntCounterVec::with_label_values`] for the shared counter and
/// `local` on it, which starts at 0. The first panics where the number of
/// values is not that of the labels. It finds counters by a hash of the values;
/// that no other values have the same hash is not said.
#[verifier::external_body]
fn local_counter(counters: &CounterVec, model: &str, status: &str) -> (r: LocalCounter)
    requires
        definition_of(*counters).labels.len() == 2,
    ensures
        count_of(r) == 0,
        handed_on(r) == 0,
        labels_of(r) == seq![model@, status@],
        source_of(r) == *counters,
{
    LocalCounter { counter: counters.counters.with_label_values(&[model, status]).local() }
}

/// Calls [`LocalIntCounter::inc`], which adds 1.
#[verifier::external_body]
fn increase(counter: &mut LocalCounter)
    requires
        count_of(*old(counter)) < u64::MAX,
    ensures
        count_of(*final(counter)) == count_of(*old(counter)) + 1,
        handed_on(*final(counter)) == handed_on(*old(counter)),
        labels_of(*final(counter)) == labels_of(*old(counter)),
        source_of(*final(counter)) == source_of(*old(counter)),
{
    counter.counter.inc()
}

/// Calls [`LocalIntCounter::get`], which gives the count.
#[verifier::external_body]
fn read_count(counter: &LocalCounter) -> (r: u64)
    ensures
        r == count_of(*counter),
{
    counter.counter.get()
}

/// Calls [`LocalIntCounter::flush`], which adds the count to the shared
/// counter and starts again at 0.
#[verifier::external_body]
fn hand_on(counter: &mut LocalCounter)
    ensures
        count_of(*final(counter)) == 0,
        handed_on(*final(counter)) == handed_on(*old(counter)) + count_of(*old(counter)),
        labels_of(*final(counter)) == labels_of(*old(counter)),
        source_of(*final(counter)) == source_of(*old(counter)),
{
    counter.counter.flush()
}

/// Gauges that all threads share, one for each choice of label values.
#[verifier::external_body]
pub struct GaugeVec {
    gauges: IntGaugeVec,
}

/// What a set of gauges was made with.
pub uninterp spec fn definition_of_gauges(gauges: GaugeVec) -> Definition;

/// Calls [`IntGaugeVec::new`]. It succeeds exactly on a valid definition, and
/// the gauges are kept apart by its labels.
#[verifier::external_body]
fn new_gauges(name: &str, help: &str, labels: &Vec<String>) -> (r: Result<GaugeVec, prometheus::Error>)
    ensures
        match r {
            Ok(gauges) => definition_of_gauges(gauges).is_valid() && definition_of_gauges(gauges) == (Definition {
                name: name@,
                help: help@,
                labels: text::contents(labels@),
            }),
            Err(_) => !(Definition { name: name@, help: help@, labels: text::contents(labels@) }).is_valid(),
        },
{
    let labels: Vec<&str> = labels.iter().map(|label| label.as_str()).collect();
    IntGaugeVec::new(Opts::new(name, help), &labels).map(|gauges| GaugeVec { gauges })
}

/// A handle on one gauge.
#[verifier::external_body]
pub struct Gauge {
    gauge: IntGauge,
}

/// What the gauge behind a handle was made with.
pub uninterp spec fn family_of_gauge(gauge: Gauge) -> Definition;

/// The label values that a handle was asked for with.
pub uninterp spec fn labels_of_gauge(gauge: Gauge) -> Seq<Seq<char>>;

/// The gauges that a handle was asked of; none for a gauge that was made alone.
pub uninterp spec fn vector_of(gauge: Gauge) -> Option<GaugeVec>;

/// The handle with which the gauge of a handle was made alone, as it was then.
pub uninterp spec fn first_handle(gauge: Gauge) -> Gauge;

/// What the gauge was last set to through this handle, and 0 before that. What
/// other handles set it to is not in it.
pub uninterp spec fn given_to(gauge: Gauge) -> int;

/// Calls [`IntGauge::new`]. It succeeds exactly on a valid definition, without
/// labels.
#[verifier::external_body]
fn new_gauge(name: &str, help: &str) -> (r: Result<Gauge, prometheus::Error>)
    ensures
        match r {
            Ok(gauge) => {
                &&& family_of_gauge(gauge).is_valid()
                &&& family_of_gauge(gauge) == (Definition { name: name@, help: help@, labels: Seq::empty() })
                &&& labels_of_gauge(gauge).len() == 0
                &&& vector_of(gauge) is None
                &&& first_handle(gauge) == gauge
                &&& given_to(gauge) == 0
            },
            Err(_) => !(Definition { name: name@, help: help@, labels: Seq::empty() }).is_valid(),
        },
{
    IntGauge::new(name, help).map(|gauge| Gauge { gauge })
}

/// Calls [`IntGaugeVec::with_label_values`], which panics where the number of
/// values is not that of the labels. It finds gauges by a hash of the values;
/// that no other values have the same hash is not said.
#[verifier::external_body]
fn gauge_of(gauges: &GaugeVec, model: &str) -> (r: Gauge)
    requires
        definition_of_gauges(*gauges).labels.len() == 1,
    ensures
        family_of_gauge(r) == definition_of_gauges(*gauges),
        vector_of(r) == Some(*gauges),
        labels_of_gauge(r) == seq![model@],
        given_to(r) == 0,
{
    Gauge { gauge: gauges.gauges.with_label_values(&[model]) }
}

/// Calls [`IntGauge::clone`], which gives another handle on the same gauge.
#[verifier::external_body]
fn another_handle(gauge: &Gauge) -> (r: Gauge)
    ensures
        family_of_gauge(r) == family_of_gauge(*gauge),
        labels_of_gauge(r) == labels_of_gauge(*gauge),
        vector_of(r) == vector_of(*gauge),
        first_handle(r) == first_handle(*gauge),
        given_to(r) == 0,
{
    Gauge { gauge: gauge.gauge.clone() }
}

/// Calls [`IntGauge::set`], which gives the gauge that value.
#[verifier::external_body]
fn set_gauge(gauge: &mut Gauge, value: i64)
    ensures
        given_to(*final(gauge)) == value,
        family_of_gauge(*final(gauge)) == family_of_gauge(*old(gauge)),
        labels_of_gauge(*final(gauge)) == labels_of_gauge(*old(gauge)),
        vector_of(*final(gauge)) == vector_of(*old(gauge)),
        first_handle(*final(gauge)) == first_handle(*old(gauge)),
{
    gauge.gauge.set(value)
}

/// What can be registered.
pub enum Registered {
    Counters(CounterVec),
    Gauges(GaugeVec),
    Gauge(Gauge),
}

impl Registered {
    /// What it was made with.
    pub open spec fn definition(self) -> Definition {
        match self {
            Registered::Counters(counters) => definition_of(counters),
            Registered::Gauges(gauges) => definition_of_gauges(gauges),
            Registered::Gauge(gauge) => family_of_gauge(gauge),
        }
    }
}

/// A registry that nobody else has a hold of yet.
#[verifier::external_body]
pub struct MetricSet {
    registry: Registry,
}

/// What was registered, in order. It shares its values with what is exported.
pub uninterp spec fn metrics_in(set: MetricSet) -> Seq<Registered>;

/// What a registry held when it was handed out. What others register with it
/// later is not in it.
pub uninterp spec fn held_by(registry: Registry) -> Seq<Registered>;

/// A registry that holds `held` takes a metric of the definition `next`: none
/// that it holds has the same id.
pub open spec fn takes(held: Seq<Registered>, next: Definition) -> bool {
    forall|i: int|
        0 <= i < held.len() ==> metric_ids::metric_id((#[trigger] held[i]).definition().name)
            != metric_ids::metric_id(next.name)
}

/// Calls [`Registry::new`], which makes a registry with nothing in it.
#[verifier::external_body]
fn new_registry() -> (r: MetricSet)
    ensures
        metrics_in(r).len() == 0,
{
    MetricSet { registry: Registry::new() }
}

/// Moves the [`Registry`] out as it is, for others to register with and to
/// export.
#[verifier::external_body]
fn hand_out(set: MetricSet) -> (r: Registry)
    ensures
        held_by(r) == metrics_in(set),
{
    set.registry
}

/// Calls [`Registry::register`], which takes metrics by their ids: it refuses one
/// with the id of one that it holds, and is then as it was.
#[verifier::external_body]
fn register_counters(set: &mut MetricSet, counters: &CounterVec) -> (r: Result<(), prometheus::Error>)
    requires
        definition_of(*counters).is_valid(),
    ensures
        r is Ok <==> takes(metrics_in(*old(set)), definition_of(*counters)),
        metrics_in(*final(set)) == (if r is Ok {
            metrics_in(*old(set)).push(Registered::Counters(*counters))
        } else {
            metrics_in(*old(set))
        }),
{
    set.registry.register(Box::new(counters.counters.clone()))
}

/// Calls [`Registry::register`] as [`register_counters`] does.
#[verifier::external_body]
fn register_gauges(set: &mut MetricSet, gauges: &GaugeVec) -> (r: Result<(), prometheus::Error>)
    requires
        definition_of_gauges(*gauges).is_valid(),
    ensures
        r is Ok <==> takes(metrics_in(*old(set)), definition_of_gauges(*gauges)),
        metrics_in(*final(set)) == (if r is Ok {
            metrics_in(*old(set)).push(Registered::Gauges(*gauges))
        } else {
            metrics_in(*old(set))
        }),
{
    set.registry.register(Box::new(gauges.gauges.clone()))
}

/// Calls [`Registry::register`] as [`register_counters`] does.
#[verifier::external_body]
fn register_gauge(set: &mut MetricSet, gauge: &Gauge) -> (r: Result<(), prometheus::Error>)
    requires
        family_of_gauge(*gauge).is_valid(),
    ensures
        r is Ok <==> takes(metrics_in(*old(set)), family_of_gauge(*gauge)),
        metrics_in(*final(set)) == (if r is Ok {
            metrics_in(*old(set)).push(Registered::Gauge(*gauge))
        } else {
            metrics_in(*old(set))
        }),
{
    set.registry.register(Box::new(gauge.gauge.clone()))
}

/// The metrics that are counted in whole numbers, and where the others are
/// registered too.
pub struct MetricsRegistry {
    pub registry: Registry,
    pub inference_requests_total: CounterVec,
    pub inference_batches_total: CounterVec,
    pub inference_inflight: GaugeVec,
    pub inference_capacity: GaugeVec,
    pub inference_executors_in_use: GaugeVec,
    pub inference_configured_batch_size: GaugeVec,
    pub loaded_models: Gauge,
}

proof fn lemma_definitions_are_valid(metric: Metric)
    requires
        metric.is_kept_as() !is Histogram,
    ensures
        metric.definition().is_valid(),
{
    reveal_strlit("inference_requests_total");
    reveal_strlit("inference_batches_total");
    reveal_strlit("inference_inflight");
    reveal_strlit("inference_capacity");
    reveal_strlit("inference_executors_in_use");
    reveal_strlit("inference_configured_batch_size");
    reveal_strlit("loaded_models");
    reveal_strlit("Total number of inference requests");
    reveal_strlit("Total number of inference batches");
    reveal_strlit("Total slots in the pipeline (queued + executing)");
    reveal_strlit("Total ring buffer capacity (batch_size * num_batches)");
    reveal_strlit("Number of executors currently running a batch");
    reveal_strlit("Configured batch size per model");
    reveal_strlit("Number of currently loaded models");
    reveal_strlit("model");
    reveal_strlit("status");
    assert("model"@.len() != "status"@.len());
}

/// No two metrics are exported under one name.
pub proof fn metric_names_are_distinct(a: Metric, b: Metric)
    requires
        a != b,
    ensures
        a.name_text() != b.name_text(),
{
    reveal_strlit("inference_requests_total");
    reveal_strlit("inference_batches_total");
    reveal_strlit("inference_batch_items");
    reveal_strlit("inference_client_batch_size");
    reveal_strlit("inference_request_duration_seconds");
    reveal_strlit("inference_batch_duration_seconds");
    reveal_strlit("inference_model_execution_seconds");
    reveal_strlit("inference_model_session_run_seconds");
    reveal_strlit("inference_model_h2d_copy_seconds");
    reveal_strlit("inference_model_d2h_copy_seconds");
    reveal_strlit("inference_request_model_proxy_aquired_seconds");
    reveal_strlit("inference_serialization_done_seconds");
    reveal_strlit("inference_inference_in_queue_seconds");
    reveal_strlit("inference_exec_start_seconds");
    reveal_strlit("inference_exec_end_seconds");
    reveal_strlit("inference_output_processed_seconds");
    reveal_strlit("inference_inflight");
    reveal_strlit("inference_capacity");
    reveal_strlit("inference_executors_in_use");
    reveal_strlit("inference_configured_batch_size");
    reveal_strlit("loaded_models");
    if a.name_text() == b.name_text() {
        let x = a.name_text();
        let y = b.name_text();
        assert(x.len() == y.len());
        assert(x[10] == y[10] && x[14] == y[14] && x[16] == y[16]);
        assert(a == b);
    }
}

/// Makes and registers the counters of a metric.
fn make_counters(set: &mut MetricSet, metric: Metric) -> (r: CounterVec)
    requires
        metric.definition().is_valid(),
        takes(metrics_in(*old(set)), metric.definition()),
    ensures
        definition_of(r) == metric.definition(),
        metrics_in(*final(set)) == metrics_in(*old(set)).push(Registered::Counters(r)),
{
    let counters = new_counters(metric.name(), metric.help(), &metric.labels()).unwrap();
    register_counters(set, &counters).unwrap();
    counters
}

/// Makes and registers the gauges of a metric.
fn make_gauges(set: &mut MetricSet, metric: Metric) -> (r: GaugeVec)
    requires
        metric.definition().is_valid(),
        takes(metrics_in(*old(set)), metric.definition()),
    ensures
        definition_of_gauges(r) == metric.definition(),
        metrics_in(*final(set)) == metrics_in(*old(set)).push(Registered::Gauges(r)),
{
    let gauges = new_gauges(metric.name(), metric.help(), &metric.labels()).unwrap();
    register_gauges(set, &gauges).unwrap();
    gauges
}

/// Makes and registers the one gauge of a metric without labels.
fn make_gauge(set: &mut MetricSet, metric: Metric) -> (r: Gauge)
    requires
        metric.label_names().len() == 0,
        metric.definition().is_valid(),
        takes(metrics_in(*old(set)), metric.definition()),
    ensures
        is_own_gauge(r, metric),
        metrics_in(*final(set)) == metrics_in(*old(set)).push(Registered::Gauge(r)),
{
    assert(metric.label_names() =~= Seq::<Seq<char>>::empty());
    let gauge = new_gauge(metric.name(), metric.help()).unwrap();
    register_gauge(set, &gauge).unwrap();
    gauge
}

/// The gauge was made alone for the metric, and this handle has set it to
/// nothing: it shows 0.
pub open spec fn is_own_gauge(gauge: Gauge, metric: Metric) -> bool {
    &&& family_of_gauge(gauge) == metric.definition()
    &&& labels_of_gauge(gauge).len() == 0
    &&& first_handle(gauge) == gauge
    &&& given_to(gauge) == 0
}

/// The metrics that the library keeps itself, in the order in which they are
/// registered.
pub open spec fn kept_metrics() -> Seq<Metric> {
    seq![
        Metric::RequestsTotal,
        Metric::BatchesTotal,
        Metric::Inflight,
        Metric::Capacity,
        Metric::ExecutorsInUse,
        Metric::ConfiguredBatchSize,
        Metric::LoadedModels,
    ]
}

/// The first `k` of them are registered.
pub open spec fn are_first(held: Seq<Registered>, k: int) -> bool {
    &&& held.len() == k
    &&& forall|i: int| 0 <= i < k ==> (#[trigger] held[i]).definition() == kept_metrics()[i].definition()
}

proof fn lemma_ids_differ(i: int, j: int)
    requires
        0 <= i < j < kept_metrics().len(),
    ensures
        metric_ids::metric_id(kept_metrics()[i].name_text()) != metric_ids::metric_id(kept_metrics()[j].name_text()),
{
    metric_ids::lemma_id_of_requests_total();
    metric_ids::lemma_id_of_batches_total();
    metric_ids::lemma_id_of_inflight();
    metric_ids::lemma_id_of_capacity();
    metric_ids::lemma_id_of_executors_in_use();
    metric_ids::lemma_id_of_configured_batch_size();
    metric_ids::lemma_id_of_loaded_models();
}

/// The registry takes the next metric.
proof fn lemma_next_is_taken(held: Seq<Registered>, k: int)
    requires
        0 <= k < kept_metrics().len(),
        are_first(held, k),
    ensures
        kept_metrics()[k].definition().is_valid(),
        takes(held, kept_metrics()[k].definition()),
{
    lemma_definitions_are_valid(kept_metrics()[k]);
    assert forall|i: int| 0 <= i < held.len() implies metric_ids::metric_id((#[trigger] held[i]).definition().name)
        != metric_ids::metric_id(kept_metrics()[k].definition().name) by {
        lemma_ids_differ(i, k);
    }
}

impl MetricsRegistry {
    /// The fields are what is registered, in order.
    pub open spec fn registered(self) -> Seq<Registered> {
        seq![
            Registered::Counters(self.inference_requests_total),
            Registered::Counters(self.inference_batches_total),
            Registered::Gauges(self.inference_inflight),
            Registered::Gauges(self.inference_capacity),
            Registered::Gauges(self.inference_executors_in_use),
            Registered::Gauges(self.inference_configured_batch_size),
            Registered::Gauge(self.loaded_models),
        ]
    }

    /// Every field is a metric of its own definition, and is what is registered.
    /// The handle on the number of models is only copied.
    pub open spec fn wf(self) -> bool {
        &&& held_by(self.registry) == self.registered()
        &&& are_first(self.registered(), kept_metrics().len() as int)
        &&& is_own_gauge(self.loaded_models, Metric::LoadedModels)
    }

    /// Makes the metrics and registers them one behind the other. No two have one
    /// id, so the registry takes them all.
    pub fn new() -> (r: MetricsRegistry)
        ensures
            r.wf(),
    {
        let mut set = new_registry();
        proof {
            lemma_next_is_taken(metrics_in(set), 0);
        }
        let inference_requests_total = make_counters(&mut set, Metric::RequestsTotal);
        proof {
            lemma_next_is_taken(metrics_in(set), 1);
        }
        let inference_batches_total = make_counters(&mut set, Metric::BatchesTotal);
        proof {
            lemma_next_is_taken(metrics_in(set), 2);
        }
        let inference_inflight = make_gauges(&mut set, Metric::Inflight);
        proof {
            lemma_next_is_taken(metrics_in(set), 3);
        }
        let inference_capacity = make_gauges(&mut set, Metric::Capacity);
        proof {
            lemma_next_is_taken(metrics_in(set), 4);
        }
        let inference_executors_in_use = make_gauges(&mut set, Metric::ExecutorsInUse);
        proof {
            lemma_next_is_taken(metrics_in(set), 5);
        }
        let inference_configured_batch_size = make_gauges(&mut set, Metric::ConfiguredBatchSize);
        proof {
            lemma_next_is_taken(metrics_in(set), 6);
        }
        let loaded_models = make_gauge(&mut set, Metric::LoadedModels);
        let r = MetricsRegistry {
            registry: hand_out(set),
            inference_requests_total,
            inference_batches_total,
            inference_inflight,
            inference_capacity,
            inference_executors_in_use,
            inference_configured_batch_size,
            loaded_models,
        };
        assert(held_by(r.registry) =~= r.registered());
        r
    }
}

/// What is exported has names of its own: no two registered metrics share one.
pub proof fn registered_names_are_distinct(metrics: MetricsRegistry, i: int, j: int)
    requires
        metrics.wf(),
        0 <= i < j < held_by(metrics.registry).len(),
    ensures
        held_by(metrics.registry)[i].definition().name != held_by(metrics.registry)[j].definition().name,
{
    assert(metrics.registered()[i].definition() == kept_metrics()[i].definition());
    assert(metrics.registered()[j].definition() == kept_metrics()[j].definition());
    metric_names_are_distinct(kept_metrics()[i], kept_metrics()[j]);
}

/// The handle is on the gauge of the model among `gauges`, and has set it to
/// `value`.
pub open spec fn shows(gauge: Gauge, gauges: GaugeVec, model: Seq<char>, value: int) -> bool {
    &&& vector_of(gauge) == Some(gauges)
    &&& labels_of_gauge(gauge) == seq![model]
    &&& given_to(gauge) == value
}

/// The handle is on the gauge that was made with `made`, and has set it to
/// `value`.
pub open spec fn shows_alone(gauge: Gauge, made: Gauge, value: int) -> bool {
    &&& first_handle(gauge) == made
    &&& given_to(gauge) == value
}

/// What the gauges are told of one loaded model.
pub struct ModelGauges {
    pub loaded_models: Gauge,
    pub configured_batch_size: Gauge,
    pub executors_in_use: Gauge,
}

/// The number of models as a gauge shows it.
pub open spec fn shown_models(models: Map<Seq<char>, ModelProxy>) -> int {
    manager::gauge_value(models.dom().len() as usize) as int
}

/// Makes a model available to requests, and tells the gauges how many models
/// are loaded then, and its batch size.
pub fn publish_model(
    registry: &MetricsRegistry,
    models: &ModelMap,
    name: &str,
    model: Arc<ModelProxy>,
    batch_size: usize,
) -> (r: (ModelMap, ModelGauges))
    requires
        registry.wf(),
        models.wf(),
        model.wf(),
    ensures
        r.0.wf(),
        r.0@ == models@.insert(name@, *model),
        shows_alone(r.1.loaded_models, registry.loaded_models, shown_models(r.0@)),
        shows(
            r.1.configured_batch_size,
            registry.inference_configured_batch_size,
            name@,
            batch_size as i64 as int,
        ),
        shows(r.1.executors_in_use, registry.inference_executors_in_use, name@, 0),
{
    let published = models.with_model(name, model);
    let gauges = ModelGauges::new(registry, &published, name, batch_size);
    (published, gauges)
}

/// The number of loaded models that is shown stays the number of models that
/// can be asked for, whether a model is new or loaded again: it grows by one
/// with a new name, and stays where the name is there.
pub proof fn models_are_shown_once(models: Map<Seq<char>, ModelProxy>, name: Seq<char>, model: ModelProxy)
    requires
        models.dom().finite(),
        models.dom().len() < i64::MAX,
        models.dom().len() < usize::MAX,
    ensures
        shown_models(Map::empty()) == 0,
        shown_models(models) == models.dom().len(),
        shown_models(models.insert(name, model)) == models.insert(name, model).dom().len(),
        shown_models(models.insert(name, model)) == shown_models(models) + (if models.dom().contains(name) {
            0int
        } else {
            1int
        }),
{
    assert(models.insert(name, model).dom() =~= models.dom().insert(name));
}

impl ModelGauges {
    /// Tells the gauges how many models are loaded, and the batch size of one of
    /// them.
    pub fn new(registry: &MetricsRegistry, models: &ModelMap, model: &str, batch_size: usize) -> (r: ModelGauges)
        requires
            registry.wf(),
        ensures
            shows_alone(r.loaded_models, registry.loaded_models, shown_models(models@)),
            shows(
                r.configured_batch_size,
                registry.inference_configured_batch_size,
                model@,
                batch_size as i64 as int,
            ),
            shows(r.executors_in_use, registry.inference_executors_in_use, model@, 0),
    {
        let mut loaded_models = another_handle(&registry.loaded_models);
        set_gauge(&mut loaded_models, manager::to_gauge(models.len()));
        let mut configured_batch_size = gauge_of(&registry.inference_configured_batch_size, model);
        let shown = #[verifier::truncate] (batch_size as i64);
        set_gauge(&mut configured_batch_size, shown);
        let executors_in_use = gauge_of(&registry.inference_executors_in_use, model);
        ModelGauges { loaded_models, configured_batch_size, executors_in_use }
    }

    /// Tells the gauges what a snapshot of the model's ring shows.
    pub fn report(&mut self, snapshot: &SuperTensorMetricsSnapshot)
        ensures
            final(self).loaded_models == old(self).loaded_models,
            final(self).configured_batch_size == old(self).configured_batch_size,
            given_to(final(self).executors_in_use) == manager::gauge_value(snapshot.executors_in_use),
            vector_of(final(self).executors_in_use) == vector_of(old(self).executors_in_use),
            labels_of_gauge(final(self).executors_in_use) == labels_of_gauge(old(self).executors_in_use),
    {
        let gauges = manager::ring_gauges(snapshot);
        set_gauge(&mut self.executors_in_use, gauges.executors_in_use);
    }
}

/// The label that an outcome is counted under.
pub open spec fn status_label(outcome: Outcome) -> Seq<char> {
    match outcome {
        Outcome::Answered => "ok"@,
        Outcome::NotFound => "not_found"@,
        Outcome::ResourceExhausted => "resource_exhausted"@,
        Outcome::Error => "error"@,
    }
}

/// The counter was asked of `counters`, with the model's name and the outcome's
/// label.
pub open spec fn counts_requests(
    counter: LocalCounter,
    counters: CounterVec,
    model: Seq<char>,
    outcome: Outcome,
) -> bool {
    &&& source_of(counter) == counters
    &&& labels_of(counter) == seq![model, status_label(outcome)]
}

/// The counters of one model.
pub struct LocalModelMetrics {
    pub requests_ok: LocalCounter,
    pub requests_not_found: LocalCounter,
    pub requests_resource_exhausted: LocalCounter,
    pub requests_error: LocalCounter,
}

/// How many requests ended how.
pub struct Counts {
    pub ok: u64,
    pub not_found: u64,
    pub resource_exhausted: u64,
    pub error: u64,
}

impl Counts {
    pub open spec fn zero() -> Counts {
        Counts { ok: 0, not_found: 0, resource_exhausted: 0, error: 0 }
    }

    pub open spec fn of(self, outcome: Outcome) -> u64 {
        match outcome {
            Outcome::Answered => self.ok,
            Outcome::NotFound => self.not_found,
            Outcome::ResourceExhausted => self.resource_exhausted,
            Outcome::Error => self.error,
        }
    }

    /// One more of that outcome.
    pub open spec fn plus(self, outcome: Outcome) -> Counts {
        match outcome {
            Outcome::Answered => Counts { ok: (self.ok + 1) as u64, ..self },
            Outcome::NotFound => Counts { not_found: (self.not_found + 1) as u64, ..self },
            Outcome::ResourceExhausted => Counts { resource_exhausted: (self.resource_exhausted + 1) as u64, ..self },
            Outcome::Error => Counts { error: (self.error + 1) as u64, ..self },
        }
    }
}

impl View for LocalModelMetrics {
    type V = Counts;

    open spec fn view(&self) -> Counts {
        Counts {
            ok: count_of(self.requests_ok),
            not_found: count_of(self.requests_not_found),
            resource_exhausted: count_of(self.requests_resource_exhausted),
            error: count_of(self.requests_error),
        }
    }
}

impl LocalModelMetrics {
    /// Each counter was asked of `counters`, with the model's name and its own
    /// outcome.
    pub open spec fn is_of(self, counters: CounterVec, model: Seq<char>) -> bool {
        &&& counts_requests(self.requests_ok, counters, model, Outcome::Answered)
        &&& counts_requests(self.requests_not_found, counters, model, Outcome::NotFound)
        &&& counts_requests(self.requests_resource_exhausted, counters, model, Outcome::ResourceExhausted)
        &&& counts_requests(self.requests_error, counters, model, Outcome::Error)
    }

    /// The counter of an outcome.
    pub open spec fn counter(self, outcome: Outcome) -> LocalCounter {
        match outcome {
            Outcome::Answered => self.requests_ok,
            Outcome::NotFound => self.requests_not_found,
            Outcome::ResourceExhausted => self.requests_resource_exhausted,
            Outcome::Error => self.requests_error,
        }
    }

    fn new(registry: &MetricsRegistry, model: &str) -> (r: LocalModelMetrics)
        requires
            registry.wf(),
        ensures
            r.is_of(registry.inference_requests_total, model@),
            r@ == Counts::zero(),
            forall|outcome: Outcome| handed_on(#[trigger] r.counter(outcome)) == 0,
    {
        let counters = &registry.inference_requests_total;
        LocalModelMetrics {
            requests_ok: local_counter(counters, model, "ok"),
            requests_not_found: local_counter(counters, model, "not_found"),
            requests_resource_exhausted: local_counter(counters, model, "resource_exhausted"),
            requests_error: local_counter(counters, model, "error"),
        }
    }

    fn read(&self, outcome: Outcome) -> (r: u64)
        ensures
            r == self@.of(outcome),
    {
        match outcome {
            Outcome::Answered => read_count(&self.requests_ok),
            Outcome::NotFound => read_count(&self.requests_not_found),
            Outcome::ResourceExhausted => read_count(&self.requests_resource_exhausted),
            Outcome::Error => read_count(&self.requests_error),
        }
    }

    fn count(&mut self, outcome: Outcome)
        requires
            old(self)@.of(outcome) < u64::MAX,
        ensures
            final(self)@ == old(self)@.plus(outcome),
            forall|other: Outcome|
                handed_on(#[trigger] final(self).counter(other)) == handed_on(old(self).counter(other)),
            forall|counters: CounterVec, model: Seq<char>|
                old(self).is_of(counters, model) ==> final(self).is_of(counters, model),
    {
        match outcome {
            Outcome::Answered => increase(&mut self.requests_ok),
            Outcome::NotFound => increase(&mut self.requests_not_found),
            Outcome::ResourceExhausted => increase(&mut self.requests_resource_exhausted),
            Outcome::Error => increase(&mut self.requests_error),
        }
    }

    fn flush(&mut self)
        ensures
            final(self)@ == Counts::zero(),
            forall|outcome: Outcome|
                handed_on(#[trigger] final(self).counter(outcome)) == handed_on(old(self).counter(outcome))
                    + old(self)@.of(outcome),
            forall|counters: CounterVec, model: Seq<char>|
                old(self).is_of(counters, model) ==> final(self).is_of(counters, model),
    {
        hand_on(&mut self.requests_ok);
        hand_on(&mut self.requests_not_found);
        hand_on(&mut self.requests_resource_exhausted);
        hand_on(&mut self.requests_error);
    }
}

/// The counters of a thread by model.
#[verifier::external_body]
pub struct PerModel {
    models: HashMap<String, LocalModelMetrics>,
}

/// What is kept per model.
pub uninterp spec fn per_model(map: PerModel) -> Map<Seq<char>, LocalModelMetrics>;

/// Calls [`HashMap::new`], which makes a map with nothing in it.
#[verifier::external_body]
fn new_per_model() -> (r: PerModel)
    ensures
        per_model(r).dom() == Set::<Seq<char>>::empty(),
{
    PerModel { models: HashMap::new() }
}

/// Calls [`HashMap::insert`], which puts the value under the key, in place of
/// one that is there.
#[verifier::external_body]
fn insert_metrics(map: &mut PerModel, model: String, metrics: LocalModelMetrics)
    ensures
        per_model(*final(map)) == per_model(*old(map)).insert(model@, metrics),
{
    map.models.insert(model, metrics);
}

/// Calls [`HashMap::get_mut`], which gives the value under the key, if there
/// is one, to be changed in place.
#[verifier::external_body]
fn metrics_mut<'a>(map: &'a mut PerModel, model: &str) -> (r: Option<&'a mut LocalModelMetrics>)
    ensures
        match r {
            Some(metrics) => {
                &&& per_model(*old(map)).dom().contains(model@)
                &&& *metrics == per_model(*old(map))[model@]
                &&& per_model(*final(map)) == per_model(*old(map)).insert(model@, *final(metrics))
            },
            None => {
                &&& !per_model(*old(map)).dom().contains(model@)
                &&& per_model(*final(map)) == per_model(*old(map))
            },
        },
{
    map.models.get_mut(model)
}

/// The counters of one thread.
pub struct LocalMetrics {
    pub registry: Arc<MetricsRegistry>,
    /// The models that have counters.
    pub models: Vec<String>,
    pub per_model: PerModel,
}

impl View for LocalMetrics {
    type V = Map<Seq<char>, Counts>;

    /// What was counted of each model since it was last handed on.
    open spec fn view(&self) -> Map<Seq<char>, Counts> {
        per_model(self.per_model).map_values(|metrics: LocalModelMetrics| metrics@)
    }
}

/// `counts` with counters for the model.
pub open spec fn with_model(counts: Map<Seq<char>, Counts>, model: Seq<char>) -> Map<Seq<char>, Counts> {
    if counts.dom().contains(model) {
        counts
    } else {
        counts.insert(model, Counts::zero())
    }
}

/// `counts` with one more request for the model.
pub open spec fn counted(counts: Map<Seq<char>, Counts>, model: Seq<char>, outcome: Outcome) -> Map<Seq<char>, Counts> {
    with_model(counts, model).insert(model, with_model(counts, model)[model].plus(outcome))
}

impl LocalMetrics {
    pub open spec fn wf(self) -> bool {
        let kept = per_model(self.per_model);
        &&& self.registry.wf()
        &&& forall|model: Seq<char>|
            #[trigger] kept.dom().contains(model) ==> text::contents(self.models@).contains(model)
        &&& forall|model: Seq<char>| #[trigger] kept.dom().contains(model) ==> kept[model].is_of(
            self.registry.inference_requests_total,
            model,
        )
        &&& forall|i: int| 0 <= i < self.models@.len() ==> kept.dom().contains((#[trigger] self.models@[i])@)
    }

    /// What the thread has added to the shared counter of the model and outcome.
    pub open spec fn handed(self, model: Seq<char>, outcome: Outcome) -> int {
        if per_model(self.per_model).dom().contains(model) {
            handed_on(per_model(self.per_model)[model].counter(outcome))
        } else {
            0
        }
    }

    /// What the thread has counted and not handed on yet.
    pub open spec fn pending(self, model: Seq<char>, outcome: Outcome) -> int {
        if self@.dom().contains(model) {
            self@[model].of(outcome) as int
        } else {
            0
        }
    }

    /// Every model of `before` has the counters that it had, as they were.
    pub open spec fn keeps_entries(self, before: LocalMetrics) -> bool {
        forall|model: Seq<char>|
            #[trigger] per_model(before.per_model).dom().contains(model) ==> {
                &&& per_model(self.per_model).dom().contains(model)
                &&& per_model(self.per_model)[model] == per_model(before.per_model)[model]
            }
    }

    /// The thread has handed on the same as `before`.
    pub open spec fn handed_as(self, before: LocalMetrics) -> bool {
        forall|model: Seq<char>, outcome: Outcome|
            #[trigger] self.handed(model, outcome) == before.handed(model, outcome)
    }

    /// Every count of `before` is handed on, and nothing else.
    pub open spec fn is_flushed(self, before: LocalMetrics) -> bool {
        &&& self.wf()
        &&& self.registry == before.registry
        &&& self@ == before@.map_values(|counts: Counts| Counts::zero())
        &&& forall|model: Seq<char>, outcome: Outcome|
            #[trigger] self.handed(model, outcome) == before.handed(model, outcome) + before.pending(model, outcome)
    }

    /// There is room to count one more.
    pub open spec fn can_count(self, model: Seq<char>, outcome: Outcome) -> bool {
        self@.dom().contains(model) ==> self@[model].of(outcome) < u64::MAX
    }

    pub fn new(registry: Arc<MetricsRegistry>) -> (r: LocalMetrics)
        requires
            registry.wf(),
        ensures
            r.wf(),
            r.registry == registry,
            r@ == Map::<Seq<char>, Counts>::empty(),
            forall|model: Seq<char>, outcome: Outcome| #[trigger] r.handed(model, outcome) == 0,
    {
        let r = LocalMetrics { registry, models: Vec::new(), per_model: new_per_model() };
        assert(r@ =~= Map::<Seq<char>, Counts>::empty());
        r
    }

    /// Makes sure that the model has counters.
    pub fn ensure_model(&mut self, model: &str)
        requires
            old(self).wf(),
        ensures
            final(self).wf(),
            final(self).registry == old(self).registry,
            final(self)@ == with_model(old(self)@, model@),
            final(self).keeps_entries(*old(self)),
            final(self).handed_as(*old(self)),
    {
        if metrics_mut(&mut self.per_model, model).is_none() {
            let metrics = LocalModelMetrics::new(&self.registry, model);
            insert_metrics(&mut self.per_model, model.to_owned(), metrics);
            self.models.push(model.to_owned());
            proof {
                let names = text::contents(self.models@);
                let prev = text::contents(old(self).models@);
                assert(names =~= prev.push(model@));
                assert(names[prev.len() as int] == model@);
                assert forall|name: Seq<char>| prev.contains(name) implies names.contains(name) by {
                    let i = choose|i: int| 0 <= i < prev.len() && prev[i] == name;
                    assert(names[i] == name);
                }
            }
        }
        assert(self@ =~= with_model(old(self)@, model@));
    }

    /// Whether there is room to count one more.
    pub fn has_room(&mut self, model: &str, outcome: Outcome) -> (r: bool)
        requires
            old(self).wf(),
        ensures
            r == old(self).can_count(model@, outcome),
            final(self).wf(),
            final(self).registry == old(self).registry,
            final(self)@ == old(self)@,
            final(self).keeps_entries(*old(self)),
            final(self).handed_as(*old(self)),
    {
        let r = match metrics_mut(&mut self.per_model, model) {
            Some(metrics) => metrics.read(outcome) < u64::MAX,
            None => true,
        };
        assert(per_model(self.per_model) =~= per_model(old(self).per_model));
        r
    }

    /// Counts a request for the model.
    pub fn count(&mut self, model: &str, outcome: Outcome)
        requires
            old(self).wf(),
            old(self).can_count(model@, outcome),
        ensures
            final(self).wf(),
            final(self).registry == old(self).registry,
            final(self)@ == counted(old(self)@, model@, outcome),
            final(self).handed_as(*old(self)),
    {
        self.ensure_model(model);
        assert(self@.dom().contains(model@));
        assert(self@[model@] == per_model(self.per_model)[model@]@);
        assert(self@[model@].of(outcome) < u64::MAX);
        let ghost before = *self;
        if let Some(metrics) = metrics_mut(&mut self.per_model, model) {
            metrics.count(outcome);
        }
        proof {
            assert forall|name: Seq<char>, other: Outcome| #[trigger] self.handed(name, other) == old(self).handed(
                name,
                other,
            ) by {
                assert(before.handed(name, other) == old(self).handed(name, other));
                if name == model@ {
                    assert(handed_on(per_model(self.per_model)[name].counter(other)) == before.handed(name, other));
                }
            }
        }
        assert(self@ =~= counted(old(self)@, model@, outcome));
    }

    pub fn inc_requests_ok(&mut self, model: &str)
        requires
            old(self).wf(),
            old(self).can_count(model@, Outcome::Answered),
        ensures
            final(self).wf(),
            final(self).registry == old(self).registry,
            final(self)@ == counted(old(self)@, model@, Outcome::Answered),
            final(self).handed_as(*old(self)),
    {
        self.count(model, Outcome::Answered)
    }

    pub fn inc_requests_not_found(&mut self, model: &str)
        requires
            old(self).wf(),
            old(self).can_count(model@, Outcome::NotFound),
        ensures
            final(self).wf(),
            final(self).registry == old(self).registry,
            final(self)@ == counted(old(self)@, model@, Outcome::NotFound),
            final(self).handed_as(*old(self)),
    {
        self.count(model, Outcome::NotFound)
    }

    pub fn inc_requests_resource_exhausted(&mut self, model: &str)
        requires
            old(self).wf(),
            old(self).can_count(model@, Outcome::ResourceExhausted),
        ensures
            final(self).wf(),
            final(self).registry == old(self).registry,
            final(self)@ == counted(old(self)@, model@, Outcome::ResourceExhausted),
            final(self).handed_as(*old(self)),
    {
        self.count(model, Outcome::ResourceExhausted)
    }

    pub fn inc_requests_error(&mut self, model: &str)
        requires
            old(self).wf(),
            old(self).can_count(model@, Outcome::Error),
        ensures
            final(self).wf(),
            final(self).registry == old(self).registry,
            final(self)@ == counted(old(self)@, model@, Outcome::Error),
            final(self).handed_as(*old(self)),
    {
        self.count(model, Outcome::Error)
    }

    /// Hands every count on to the counters that all threads share.
    pub fn flush(&mut self)
        requires
            old(self).wf(),
        ensures
            final(self).is_flushed(*old(self)),
    {
        let n = self.models.len();
        for i in 0..n
            invariant
                n == self.models@.len(),
                self.wf(),
                self.registry == old(self).registry,
                self.models == old(self).models,
                self@.dom() == old(self)@.dom(),
                forall|j: int| 0 <= j < i ==> self@[(#[trigger] self.models@[j])@] == Counts::zero(),
                forall|model: Seq<char>, outcome: Outcome|
                    #[trigger] self.handed(model, outcome) + self.pending(model, outcome) == old(self).handed(
                        model,
                        outcome,
                    ) + old(self).pending(model, outcome),
        {
            let ghost before = *self;
            let name = self.models[i].clone();
            assert(per_model(self.per_model).dom().contains(self.models@[i as int]@));
            if let Some(metrics) = metrics_mut(&mut self.per_model, name.as_str()) {
                metrics.flush();
            }
            proof {
                assert(self@.dom() =~= before@.dom());
                assert forall|j: int| 0 <= j < i + 1 implies self@[(#[trigger] self.models@[j])@] == Counts::zero() by {
                    assert(per_model(self.per_model).dom().contains(self.models@[j]@));
                    assert(before@[before.models@[j]@] == Counts::zero() || j == i);
                }
                assert forall|model: Seq<char>, outcome: Outcome|
                    #[trigger] self.handed(model, outcome) + self.pending(model, outcome) == old(self).handed(
                        model,
                        outcome,
                    ) + old(self).pending(model, outcome) by {
                    assert(before.handed(model, outcome) + before.pending(model, outcome) == old(self).handed(
                        model,
                        outcome,
                    ) + old(self).pending(model, outcome));
                    if model == name@ {
                        let flushed = per_model(self.per_model)[model];
                        assert(handed_on(flushed.counter(outcome)) == before.handed(model, outcome) + before.pending(
                            model,
                            outcome,
                        ));
                    }
                }
            }
        }
        proof {
            assert forall|model: Seq<char>| #[trigger] self@.dom().contains(model) implies self@[model]
                == Counts::zero() by {
                assert(per_model(self.per_model).dom().contains(model));
                let names = text::contents(self.models@);
                let j = choose|j: int| 0 <= j < names.len() && names[j] == model;
                assert(self.models@[j]@ == model);
            }
            assert(self@ =~= old(self)@.map_values(|counts: Counts| Counts::zero()));
        }
    }
}

/// Gives the thread counters of its own. Those that it has are handed on, and
/// given back.
pub fn init_local_metrics(slot: &mut Option<LocalMetrics>, registry: Arc<MetricsRegistry>) -> (r: Option<LocalMetrics>)
    requires
        registry.wf(),
        *old(slot) matches Some(metrics) ==> metrics.wf(),
    ensures
        *final(slot) matches Some(metrics) && metrics.wf() && metrics.registry == registry && metrics@ == Map::<
            Seq<char>,
            Counts,
        >::empty() && forall|model: Seq<char>, outcome: Outcome| #[trigger] metrics.handed(model, outcome) == 0,
        match *old(slot) {
            Some(before) => r matches Some(flushed) && flushed.is_flushed(before),
            None => r is None,
        },
{
    flush_local_metrics(slot);
    let replaced = slot.take();
    *slot = Some(LocalMetrics::new(registry));
    replaced
}

/// Hands the counts of the thread on, if it has any.
pub fn flush_local_metrics(slot: &mut Option<LocalMetrics>)
    requires
        *old(slot) matches Some(metrics) ==> metrics.wf(),
    ensures
        match *old(slot) {
            Some(metrics) => *final(slot) matches Some(flushed) && flushed.is_flushed(metrics),
            None => *final(slot) is None,
        },
{
    match slot {
        Some(metrics) => metrics.flush(),
        None => {},
    }
}

/// A flush reaches what is exported: what a thread has counted of a model and an
/// outcome is added, once, to the requests that the registry of the thread
/// holds, under the model's name and the outcome's label.
pub proof fn flush_reaches_the_registry(before: LocalMetrics, after: LocalMetrics, model: Seq<char>, outcome: Outcome)
    requires
        before.wf(),
        after.is_flushed(before),
        before@.dom().contains(model),
    ensures
        ({
            let counter = per_model(after.per_model)[model].counter(outcome);
            let counters = before.registry.inference_requests_total;
            &&& after@.dom().contains(model)
            &&& counts_requests(counter, counters, model, outcome)
            &&& held_by(before.registry.registry)[0] == Registered::Counters(counters)
            &&& handed_on(counter) == before.handed(model, outcome) + before@[model].of(outcome)
            &&& count_of(counter) == 0
        }),
{
    assert(before.registry.registered()[0] == Registered::Counters(before.registry.inference_requests_total));
    assert(per_model(after.per_model).dom().contains(model)) by {
        assert(after@.dom() =~= before@.dom());
    }
    assert(after.handed(model, outcome) == before.handed(model, outcome) + before.pending(model, outcome));
    assert(after@[model] == Counts::zero());
    assert(after@[model] == per_model(after.per_model)[model]@);
}

/// What is handed on once is not handed on again: a flush right behind another
/// changes nothing.
pub proof fn second_flush_changes_nothing(
    before: LocalMetrics,
    once: LocalMetrics,
    twice: LocalMetrics,
    model: Seq<char>,
    outcome: Outcome,
)
    requires
        once.is_flushed(before),
        twice.is_flushed(once),
    ensures
        once.pending(model, outcome) == 0,
        twice@ == once@,
        twice.handed(model, outcome) == once.handed(model, outcome),
{
    assert(twice@ =~= once@);
}

/// Between two flushes nothing is lost: every request adds one to the count of
/// its model and outcome, and to no other.
pub proof fn every_request_counts_once(
    counts: Map<Seq<char>, Counts>,
    model: Seq<char>,
    outcome: Outcome,
    other_model: Seq<char>,
    other: Outcome,
)
    requires
        counts.dom().contains(model) ==> counts[model].of(outcome) < u64::MAX,
    ensures
        counted(counts, model, outcome).dom().contains(model),
        counted(counts, model, outcome)[model].of(outcome) == (if counts.dom().contains(model) {
            counts[model].of(outcome) + 1
        } else {
            1
        }),
        counts.dom().contains(other_model) && (other_model != model || other != outcome) ==> {
            &&& counted(counts, model, outcome).dom().contains(other_model)
            &&& counted(counts, model, outcome)[other_model].of(other) == counts[other_model].of(other)
        },
{
}

/// Outcomes are counted under labels of their own.
pub proof fn outcomes_have_labels_of_their_own(a: Outcome, b: Outcome)
    requires
        a != b,
    ensures
        status_label(a) != status_label(b),
{
    reveal_strlit("ok");
    reveal_strlit("not_found");
    reveal_strlit("resource_exhausted");
    reveal_strlit("error");
    assert(status_label(a).len() != status_label(b).len());
}

/// A model starts with nothing counted, whatever is counted of others, and one that
/// has counters keeps them.
pub proof fn new_models_start_at_zero(
    counts: Map<Seq<char>, Counts>,
    model: Seq<char>,
    outcome: Outcome,
    other: Outcome,
    other_model: Seq<char>,
)
    ensures
        with_model(counts, model).dom() == counts.dom().insert(model),
        !counts.dom().contains(model) ==> with_model(counts, model)[model].of(outcome) == 0,
        !counts.dom().contains(model) && other != outcome ==> counted(counts, model, outcome)[model].of(other) == 0,
        counted(counts, model, outcome).dom() == counts.dom().insert(model),
        counts.dom().contains(other_model) ==> with_model(counts, model)[other_model] == counts[other_model],
{
    assert(with_model(counts, model).dom() =~= counts.dom().insert(model));
    assert(counted(counts, model, outcome).dom() =~= counts.dom().insert(model));
}

/// A request that is counted adds one to what its thread has still to hand on, of its
/// model and its outcome and of no other, and nothing is handed on by it.
pub proof fn counted_requests_are_pending(
    metrics: &mut LocalMetrics,
    model: &str,
    outcome: Outcome,
    other_model: Seq<char>,
    other: Outcome,
)
    requires
        old(metrics).can_count(model@, outcome),
        call_ensures(LocalMetrics::count, (metrics, model, outcome), ()),
    ensures
        final(metrics).pending(model@, outcome) == old(metrics).pending(model@, outcome) + 1,
        other_model != model@ || other != outcome ==> final(metrics).pending(other_model, other) == old(
            metrics,
        ).pending(other_model, other),
        final(metrics).handed(other_model, other) == old(metrics).handed(other_model, other),
{
    every_request_counts_once(old(metrics)@, model@, outcome, other_model, other);
    new_models_start_at_zero(old(metrics)@, model@, outcome, other, other_model);
}

/// A flush hands on all that is pending, of every model and outcome, and leaves none.
pub proof fn flushes_hand_everything_on(metrics: &mut LocalMetrics, model: Seq<char>, outcome: Outcome)
    requires
        call_ensures(LocalMetrics::flush, (metrics,), ()),
    ensures
        final(metrics).pending(model, outcome) == 0,
        final(metrics).handed(model, outcome) == old(metrics).handed(model, outcome) + old(metrics).pending(
            model,
            outcome,
        ),
{
}

/// A model that is published can be asked for, the others stay, and the gauge shows
/// how many there are then.
pub proof fn published_models_are_shown(
    registry: &MetricsRegistry,
    models: &ModelMap,
    name: &str,
    model: Arc<ModelProxy>,
    batch_size: usize,
    r: (ModelMap, ModelGauges),
    other: Seq<char>,
)
    requires
        models.wf(),
        models@.dom().len() < i64::MAX,
        models@.dom().len() < usize::MAX,
        batch_size <= i64::MAX,
        call_ensures(publish_model, (registry, models, name, model, batch_size), r),
    ensures
        r.0@.dom().contains(name@),
        r.0@[name@] == *model,
        other != name@ ==> (r.0@.dom().contains(other) <==> models@.dom().contains(other)),
        other != name@ && models@.dom().contains(other) ==> r.0@[other] == models@[other],
        given_to(r.1.loaded_models) == r.0@.dom().len(),
        given_to(r.1.configured_batch_size) == batch_size,
        labels_of_gauge(r.1.configured_batch_size) == seq![name@],
        vector_of(r.1.configured_batch_size) == Some(registry.inference_configured_batch_size),
        given_to(r.1.executors_in_use) == 0,
        labels_of_gauge(r.1.executors_in_use) == seq![name@],
        vector_of(r.1.executors_in_use) == Some(registry.inference_executors_in_use),
{
    models_are_shown_once(models@, name@, r.0@[name@]);
}

/// The gauge of a model shows how many of its executors run.
pub proof fn running_executors_are_shown(gauges: &mut ModelGauges, snapshot: &SuperTensorMetricsSnapshot)
    requires
        call_ensures(ModelGauges::report, (gauges, snapshot), ()),
        snapshot.executors_in_use <= i64::MAX,
    ensures
        given_to(final(gauges).executors_in_use) == snapshot.executors_in_use,
        labels_of_gauge(final(gauges).executors_in_use) == labels_of_gauge(old(gauges).executors_in_use),
        final(gauges).loaded_models == old(gauges).loaded_models,
        final(gauges).configured_batch_size == old(gauges).configured_batch_size,
{
}

/// The name ends with `end`.
pub open spec fn ends_with(name: Seq<char>, end: Seq<char>) -> bool {
    &&& name.len() >= end.len()
    &&& forall|i: int| 0 <= i < end.len() ==> name[name.len() - end.len() + i] == #[trigger] end[i]
}

/// What is exported in seconds is measured in boundaries that double from a tenth of a
/// millisecond on, and what is exported in items in boundaries that double from 1 on.
pub proof fn seconds_are_measured(metric: &Metric, r: MetricKind)
    requires
        call_ensures(Metric::kind, (metric,), r),
    ensures
        ends_with(metric.name_text(), "_seconds"@) <==> r == MetricKind::Histogram(
            Buckets { start_ten_thousandths: 1, factor: 2, count: 18 },
        ),
        ends_with(metric.name_text(), "_total"@) <==> r == MetricKind::Counter,
        *metric == Metric::BatchItems || *metric == Metric::ClientBatchSize <==> r == MetricKind::Histogram(
            Buckets { start_ten_thousandths: 10_000, factor: 2, count: 12 },
        ),
        r == MetricKind::Gauge || r == MetricKind::Counter || r is Histogram,
{
    reveal_strlit("inference_requests_total");
    reveal_strlit("inference_batches_total");
    reveal_strlit("inference_batch_items");
    reveal_strlit("inference_client_batch_size");
    reveal_strlit("inference_request_duration_seconds");
    reveal_strlit("inference_batch_duration_seconds");
    reveal_strlit("inference_model_execution_seconds");
    reveal_strlit("inference_model_session_run_seconds");
    reveal_strlit("inference_model_h2d_copy_seconds");
    reveal_strlit("inference_model_d2h_copy_seconds");
    reveal_strlit("inference_request_model_proxy_aquired_seconds");
    reveal_strlit("inference_serialization_done_seconds");
    reveal_strlit("inference_inference_in_queue_seconds");
    reveal_strlit("inference_exec_start_seconds");
    reveal_strlit("inference_exec_end_seconds");
    reveal_strlit("inference_output_processed_seconds");
    reveal_strlit("inference_inflight");
    reveal_strlit("inference_capacity");
    reveal_strlit("inference_executors_in_use");
    reveal_strlit("inference_configured_batch_size");
    reveal_strlit("loaded_models");
    reveal_strlit("_seconds");
    reveal_strlit("_total");
    assert("_seconds"@[6] == 'd' && "_seconds"@[5] == 'n');
    assert("_total"@[5] == 'l' && "_total"@[4] == 'a');
}

/// Every metric is kept apart by the model, but for the number of models, and requests
/// are kept apart by how they ended as well.
pub proof fn metrics_are_kept_apart_by_model(metric: &Metric, r: Vec<String>)
    requires
        call_ensures(Metric::labels, (metric,), r),
    ensures
        r@.len() == 0 <==> *metric == Metric::LoadedModels,
        r@.len() > 0 ==> r@[0]@ == "model"@,
        r@.len() == 2 <==> *metric == Metric::RequestsTotal,
        r@.len() == 2 ==> r@[1]@ == "status"@,
        r@.len() <= 2,
{
    let labels = text::contents(r@);
    assert(labels.len() == r@.len());
    if r@.len() > 0 {
        assert(labels[0] == r@[0]@);
    }
    if r@.len() == 2 {
        assert(labels[1] == r@[1]@);
    }
}

/// Every whole number is exported under its own name: each field of the metrics is in
/// the registry, in the order of the fields.
pub proof fn every_whole_number_is_exported(metrics: MetricsRegistry)
    requires
        call_ensures(MetricsRegistry::new, (), metrics),
    ensures
        held_by(metrics.registry).len() == 7,
        held_by(metrics.registry)[0] == Registered::Counters(metrics.inference_requests_total),
        held_by(metrics.registry)[1] == Registered::Counters(metrics.inference_batches_total),
        held_by(metrics.registry)[2] == Registered::Gauges(metrics.inference_inflight),
        held_by(metrics.registry)[3] == Registered::Gauges(metrics.inference_capacity),
        held_by(metrics.registry)[4] == Registered::Gauges(metrics.inference_executors_in_use),
        held_by(metrics.registry)[5] == Registered::Gauges(metrics.inference_configured_batch_size),
        held_by(metrics.registry)[6] == Registered::Gauge(metrics.loaded_models),
        definition_of(metrics.inference_requests_total).name == "inference_requests_total"@,
        definition_of(metrics.inference_batches_total).name == "inference_batches_total"@,
        definition_of_gauges(metrics.inference_inflight).name == "inference_inflight"@,
        definition_of_gauges(metrics.inference_capacity).name == "inference_capacity"@,
        definition_of_gauges(metrics.inference_executors_in_use).name == "inference_executors_in_use"@,
        definition_of_gauges(metrics.inference_configured_batch_size).name == "inference_configured_batch_size"@,
        family_of_gauge(metrics.loaded_models).name == "loaded_models"@,
        given_to(metrics.loaded_models) == 0,
{
    let all = metrics.registered();
    assert(all[0].definition() == kept_metrics()[0].definition());
    assert(all[1].definition() == kept_metrics()[1].definition());
    assert(all[2].definition() == kept_metrics()[2].definition());
    assert(all[3].definition() == kept_metrics()[3].definition());
    assert(all[4].definition() == kept_metrics()[4].definition());
    assert(all[5].definition() == kept_metrics()[5].definition());
    assert(all[6].definition() == kept_metrics()[6].definition());
}

/// The measures are exported under names of the same kind.
pub proof fn measures_have_their_names(metric: &Metric, r: &str)
    requires
        call_ensures(Metric::name, (metric,), r),
    ensures
        *metric == Metric::BatchItems ==> r@ == "inference_batch_items"@,
        *metric == Metric::ClientBatchSize ==> r@ == "inference_client_batch_size"@,
        *metric == Metric::RequestDuration ==> r@ == "inference_request_duration_seconds"@,
        *metric == Metric::BatchDuration ==> r@ == "inference_batch_duration_seconds"@,
        *metric == Metric::ModelExecution ==> r@ == "inference_model_execution_seconds"@,
        *metric == Metric::ModelSessionRun ==> r@ == "inference_model_session_run_seconds"@,
        *metric == Metric::ModelH2dCopy ==> r@ == "inference_model_h2d_copy_seconds"@,
        *metric == Metric::ModelD2hCopy ==> r@ == "inference_model_d2h_copy_seconds"@,
        *metric == Metric::ModelProxyAquired ==> r@ == "inference_request_model_proxy_aquired_seconds"@,
        *metric == Metric::SerializationDone ==> r@ == "inference_serialization_done_seconds"@,
        *metric == Metric::InferenceInQueue ==> r@ == "inference_inference_in_queue_seconds"@,
        *metric == Metric::InferenceExecStart ==> r@ == "inference_exec_start_seconds"@,
        *metric == Metric::InferenceExecEnd ==> r@ == "inference_exec_end_seconds"@,
        *metric == Metric::OutputProcessed ==> r@ == "inference_output_processed_seconds"@,
{
}

/// There is room to count a request exactly while what is pending of its model and its
/// outcome is not the largest number; asking changes nothing.
pub proof fn room_is_told(metrics: &mut LocalMetrics, model: &str, outcome: Outcome, r: bool, other: Seq<char>)
    requires
        call_ensures(LocalMetrics::has_room, (metrics, model, outcome), r),
    ensures
        r <==> old(metrics).pending(model@, outcome) < u64::MAX,
        final(metrics).pending(other, outcome) == old(metrics).pending(other, outcome),
        final(metrics).handed(other, outcome) == old(metrics).handed(other, outcome),
{
}

/// A model that is made known is known from then on, with nothing pending that was
/// not before.
pub proof fn known_models_lose_nothing(metrics: &mut LocalMetrics, model: &str, outcome: Outcome, other: Seq<char>)
    requires
        call_ensures(LocalMetrics::ensure_model, (metrics, model), ()),
    ensures
        final(metrics)@.dom() == old(metrics)@.dom().insert(model@),
        final(metrics).pending(other, outcome) == old(metrics).pending(other, outcome),
        final(metrics).handed(other, outcome) == old(metrics).handed(other, outcome),
{
    new_models_start_at_zero(old(metrics)@, model@, outcome, outcome, other);
}

/// A thread that is given new counters has handed on all that the old ones had
/// pending, and starts at nothing.
pub proof fn replaced_counters_are_handed_on(
    slot: &mut Option<LocalMetrics>,
    registry: Arc<MetricsRegistry>,
    r: Option<LocalMetrics>,
    model: Seq<char>,
    outcome: Outcome,
)
    requires
        call_ensures(init_local_metrics, (slot, registry), r),
    ensures
        *final(slot) is Some,
        (*final(slot))->0.pending(model, outcome) == 0,
        (*final(slot))->0.handed(model, outcome) == 0,
        r is Some <==> *old(slot) is Some,
        *old(slot) matches Some(before) ==> {
            &&& r->0.pending(model, outcome) == 0
            &&& r->0.handed(model, outcome) == before.handed(model, outcome) + before.pending(model, outcome)
        },
{
}

/// A request can be counted while what is pending is not the largest number.
pub proof fn requests_can_be_counted(metrics: LocalMetrics, model: Seq<char>, outcome: Outcome)
    requires
        metrics.pending(model, outcome) < u64::MAX,
    ensures
        metrics.can_count(model, outcome),
{
}

/// Each way for a request to end is counted as that one: it adds one to what is pending
/// of it, and to nothing else.
pub proof fn answered_requests_are_counted(metrics: &mut LocalMetrics, model: &str, other_model: Seq<char>, other: Outcome)
    requires
        old(metrics).can_count(model@, Outcome::Answered),
        call_ensures(LocalMetrics::inc_requests_ok, (metrics, model), ()),
    ensures
        final(metrics).pending(other_model, other) == old(metrics).pending(other_model, other) + (if other_model
            == model@ && other == Outcome::Answered {
            1int
        } else {
            0int
        }),
{
    every_request_counts_once(old(metrics)@, model@, Outcome::Answered, other_model, other);
    new_models_start_at_zero(old(metrics)@, model@, Outcome::Answered, other, other_model);
}

/// So is a request for a model that is not loaded.
pub proof fn missing_requests_are_counted(metrics: &mut LocalMetrics, model: &str, other_model: Seq<char>, other: Outcome)
    requires
        old(metrics).can_count(model@, Outcome::NotFound),
        call_ensures(LocalMetrics::inc_requests_not_found, (metrics, model), ()),
    ensures
        final(metrics).pending(other_model, other) == old(metrics).pending(other_model, other) + (if other_model
            == model@ && other == Outcome::NotFound {
            1int
        } else {
            0int
        }),
{
    every_request_counts_once(old(metrics)@, model@, Outcome::NotFound, other_model, other);
    new_models_start_at_zero(old(metrics)@, model@, Outcome::NotFound, other, other_model);
}

/// So is one that finds the ring full.
pub proof fn exhausted_requests_are_counted(
    metrics: &mut LocalMetrics,
    model: &str,
    other_model: Seq<char>,
    other: Outcome,
)
    requires
        old(metrics).can_count(model@, Outcome::ResourceExhausted),
        call_ensures(LocalMetrics::inc_requests_resource_exhausted, (metrics, model), ()),
    ensures
        final(metrics).pending(other_model, other) == old(metrics).pending(other_model, other) + (if other_model
            == model@ && other == Outcome::ResourceExhausted {
            1int
        } else {
            0int
        }),
{
    every_request_counts_once(old(metrics)@, model@, Outcome::ResourceExhausted, other_model, other);
    new_models_start_at_zero(old(metrics)@, model@, Outcome::ResourceExhausted, other, other_model);
}

/// So is one that fails.
pub proof fn failed_requests_are_counted(metrics: &mut LocalMetrics, model: &str, other_model: Seq<char>, other: Outcome)
    requires
        old(metrics).can_count(model@, Outcome::Error),
        call_ensures(LocalMetrics::inc_requests_error, (metrics, model), ()),
    ensures
        final(metrics).pending(other_model, other) == old(metrics).pending(other_model, other) + (if other_model
            == model@ && other == Outcome::Error {
            1int
        } else {
            0int
        }),
{
    every_request_counts_once(old(metrics)@, model@, Outcome::Error, other_model, other);
    new_models_start_at_zero(old(metrics)@, model@, Outcome::Error, other, other_model);
}

/// A thread hands on all that it has pending, if it counts at all.
pub proof fn threads_hand_everything_on(slot: &mut Option<LocalMetrics>, model: Seq<char>, outcome: Outcome)
    requires
        call_ensures(flush_local_metrics, (slot,), ()),
    ensures
        *final(slot) is Some <==> *old(slot) is Some,
        *old(slot) matches Some(before) ==> {
            &&& (*final(slot))->0.pending(model, outcome) == 0
            &&& (*final(slot))->0.handed(model, outcome) == before.handed(model, outcome) + before.pending(
                model,
                outcome,
            )
        },
{
}

/// What is exported is said to be what it is.
pub proof fn metrics_are_explained(metric: &Metric, r: &str)
    requires
        call_ensures(Metric::help, (metric,), r),
    ensures
        *metric == Metric::RequestsTotal ==> r@ == "Total number of inference requests"@,
        *metric == Metric::BatchesTotal ==> r@ == "Total number of inference batches"@,
        *metric == Metric::BatchItems ==> r@ == "Number of items in a batch before execution"@,
        *metric == Metric::ClientBatchSize ==> r@ == "Batch size requested by clients (input tensor dim 0)"@,
        *metric == Metric::RequestDuration ==> r@ == "Duration of inference requests in seconds"@,
        *metric == Metric::BatchDuration ==> r@ == "Duration of inference batches in seconds"@,
        *metric == Metric::ModelExecution ==> r@ == "Duration of model execution (ORT session run) in seconds"@,
        *metric == Metric::ModelSessionRun ==> r@ == "Duration of the ORT session run call only (excludes H2D/D2H copies) in seconds"@,
        *metric == Metric::ModelH2dCopy ==> r@ == "Duration of host-to-device input copy for GPU-bound executors in seconds"@,
        *metric == Metric::ModelD2hCopy ==> r@ == "Duration of device-to-host output copy for GPU-bound executors in seconds"@,
        *metric == Metric::ModelProxyAquired ==> r@ == "STEP 1: How long it took to fetch the reference the model"@,
        *metric == Metric::SerializationDone ==> r@ == "STEP 2: How long it took to deserialize from GRPC and serialize to the inner batch structure"@,
        *metric == Metric::InferenceInQueue ==> r@ == "STEP 3: How long it took to acquire a slot within the inner batch structure and copy data"@,
        *metric == Metric::InferenceExecStart ==> r@ == "STEP 4: How long request was queued"@,
        *metric == Metric::InferenceExecEnd ==> r@ == "STEP 5: How long request was executed"@,
        *metric == Metric::OutputProcessed ==> r@ == "STEP 6: how long after execution it was processed by the response thread"@,
        *metric == Metric::Inflight ==> r@ == "Total slots in the pipeline (queued + executing)"@,
        *metric == Metric::Capacity ==> r@ == "Total ring buffer capacity (batch_size * num_batches)"@,
        *metric == Metric::ExecutorsInUse ==> r@ == "Number of executors currently running a batch"@,
        *metric == Metric::ConfiguredBatchSize ==> r@ == "Configured batch size per model"@,
        *metric == Metric::LoadedModels ==> r@ == "Number of currently loaded models"@,
{
}

}
