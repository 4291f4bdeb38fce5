//! Core of an inference server: how client batches are packed into a ring of
//! tensor batches, and the decisions around it.
use vstd::prelude::*;

pub mod cli;
pub mod executor;
pub mod gpu_binding;
pub mod grpc;
pub mod manager;
pub mod metric_ids;
pub mod metrics;
pub mod model;
pub mod placement;
pub mod protocol;
pub mod response;
pub mod ring;
pub mod shapes;
pub mod supertensor;
pub mod text;
pub mod topology;

verus! {

}
