//! What the server is told on its command line.
use crate::text;
use std::path::PathBuf;
use vstd::prelude::*;

verus! {

/// Where a session runs its graph.
#[derive(Clone, Copy, Debug, PartialEq, Eq, Structural)]
pub enum ExecutionProviderKind {
    Cpu,
    Cuda,
    TensorRT,
}

/// What [`str::to_lowercase`] makes of a text.
pub uninterp spec fn lowercase(s: Seq<char>) -> Seq<char>;

/// The lower-case form of an ASCII character.
pub open spec fn ascii_lower(c: char) -> char {
    if 'A' <= c <= 'Z' {
        (c as u32 + 32) as char
    } else {
        c
    }
}

/// Every character is in ASCII.
pub open spec fn is_ascii_text(s: Seq<char>) -> bool {
    forall|i: int| 0 <= i < s.len() ==> (#[trigger] s[i] as u32) < 128
}

/// The text with the letters `A` to `Z` in lower case.
pub open spec fn ascii_lowercase(s: Seq<char>) -> Seq<char> {
    s.map_values(|c: char| ascii_lower(c))
}

/// Calls [`str::to_lowercase`]. Its result depends on the text alone. Of a text
/// in ASCII it is that text with the letters `A` to `Z` in lower case; what it
/// is of other texts, which takes Unicode's tables, is not said.
#[verifier::external_body]
fn to_lowercase(s: &str) -> (r: String)
    ensures
        r@ == lowercase(s@),
        is_ascii_text(s@) ==> r@ == ascii_lowercase(s@),
{
    s.to_lowercase()
}

/// The provider that a lower-case name stands for.
pub open spec fn provider_named(name: Seq<char>) -> Option<ExecutionProviderKind> {
    if name == "cpu"@ {
        Some(ExecutionProviderKind::Cpu)
    } else if name == "cuda"@ {
        Some(ExecutionProviderKind::Cuda)
    } else if name == "tensorrt"@ || name == "trt"@ {
        Some(ExecutionProviderKind::TensorRT)
    } else {
        None
    }
}

/// What to tell the user of a name that stands for no provider.
pub open spec fn unknown_provider(name: Seq<char>) -> Seq<char> {
    "unknown execution provider '"@ + name + "'; expected one of: cpu, cuda, tensorrt (or trt)"@
}

impl ExecutionProviderKind {
    /// The name of the provider.
    pub open spec fn text(self) -> Seq<char> {
        match self {
            ExecutionProviderKind::Cpu => "cpu"@,
            ExecutionProviderKind::Cuda => "cuda"@,
            ExecutionProviderKind::TensorRT => "tensorrt"@,
        }
    }

    /// The name of the provider.
    pub fn as_str(&self) -> (r: &'static str)
        ensures
            r@ == self.text(),
    {
        match self {
            ExecutionProviderKind::Cpu => "cpu",
            ExecutionProviderKind::Cuda => "cuda",
            ExecutionProviderKind::TensorRT => "tensorrt",
        }
    }

    /// The provider that a name in lower case stands for.
    pub fn from_lowercase(name: &str) -> (r: Result<ExecutionProviderKind, String>)
        ensures
            match provider_named(name@) {
                Some(kind) => r == Ok::<ExecutionProviderKind, String>(kind),
                None => r matches Err(message) && message@ == unknown_provider(name@),
            },
    {
        if text::same_text(name, "cpu") {
            Ok(ExecutionProviderKind::Cpu)
        } else if text::same_text(name, "cuda") {
            Ok(ExecutionProviderKind::Cuda)
        } else if text::same_text(name, "tensorrt") || text::same_text(name, "trt") {
            Ok(ExecutionProviderKind::TensorRT)
        } else {
            let mut message = "unknown execution provider '".to_owned();
            message.append(name);
            message.append("'; expected one of: cpu, cuda, tensorrt (or trt)");
            Err(message)
        }
    }

    /// The provider that a name stands for, in upper case or lower case. The
    /// name of a provider stands for it in any mixture of the two.
    pub fn from_str(s: &str) -> (r: Result<ExecutionProviderKind, String>)
        ensures
            match provider_named(lowercase(s@)) {
                Some(kind) => r == Ok::<ExecutionProviderKind, String>(kind),
                None => r matches Err(message) && message@ == unknown_provider(lowercase(s@)),
            },
            is_ascii_text(s@) ==> lowercase(s@) == ascii_lowercase(s@),
            forall|kind: ExecutionProviderKind|
                #![trigger kind.text()]
                is_ascii_text(s@) && ascii_lowercase(s@) == kind.text() ==> r == Ok::<
                    ExecutionProviderKind,
                    String,
                >(kind),
            forall|kind: ExecutionProviderKind|
                #![trigger kind.text()]
                s@ == kind.text() ==> r == Ok::<ExecutionProviderKind, String>(kind),
    {
        let name = to_lowercase(s);
        proof {
            names_are_lowercase();
            assert forall|kind: ExecutionProviderKind| s@ == #[trigger] kind.text() implies name@ == s@ by {
                assert(s@.map_values(|c: char| ascii_lower(c)) =~= s@);
            }
            assert forall|kind: ExecutionProviderKind| #[trigger] provider_named(kind.text()) == Some(kind) by {
                provider_names_read_back(kind);
            }
        }
        ExecutionProviderKind::from_lowercase(name.as_str())
    }
}

proof fn names_are_lowercase()
    ensures
        forall|kind: ExecutionProviderKind, i: int|
            0 <= i < kind.text().len() ==> 'a' <= (#[trigger] kind.text()[i]) <= 'z',
{
    reveal_strlit("cpu");
    reveal_strlit("cuda");
    reveal_strlit("tensorrt");
}

/// The name of a provider stands for that provider.
pub proof fn provider_names_read_back(kind: ExecutionProviderKind)
    ensures
        provider_named(kind.text()) == Some(kind),
{
    reveal_strlit("cpu");
    reveal_strlit("cuda");
    reveal_strlit("tensorrt");
    reveal_strlit("trt");
    assert("cpu"@.len() == 3 && "cuda"@.len() == 4 && "tensorrt"@.len() == 8);
}

/// A path of the standard library; only carried through.
#[verifier::external_type_specification]
#[verifier::external_body]
pub struct ExPathBuf(PathBuf);

/// Calls [`PathBuf::clone`]. The copy is the same path.
#[verifier::external_body]
fn copy_path(path: &PathBuf) -> (r: PathBuf)
    ensures
        r == *path,
{
    path.clone()
}

/// What the command line says.
pub struct Args {
    /// Number of compio worker threads for gRPC processing.
    pub processing_cores: usize,
    /// Number of compio worker threads for model executors.
    pub executor_cores: usize,
    /// ORT intra-op thread pool size (parallelism within a single operator).
    pub ort_intra_threads: usize,
    /// ORT inter-op thread pool size (parallelism between independent operators).
    pub ort_inter_threads: usize,
    /// Path to a local model repository directory.
    pub model_repository: Option<PathBuf>,
    /// S3-compatible endpoint URL.
    pub s3_endpoint: Option<String>,
    /// S3 bucket containing the model repository.
    pub s3_bucket: Option<String>,
    /// Key prefix inside the bucket.
    pub s3_prefix: String,
    /// AWS region for the S3 bucket.
    pub s3_region: String,
    /// Local directory to cache downloaded S3 models.
    pub model_cache_dir: PathBuf,
    /// Names of the models to load at startup; all of them where none is given.
    pub load_models: Option<Vec<String>>,
    /// Execution providers in priority order.
    pub execution_providers: Vec<ExecutionProviderKind>,
    /// Paths to custom operator shared libraries (.so) to register.
    pub custom_op_libraries: Option<Vec<PathBuf>>,
    /// Op types to exclude from TensorRT execution.
    pub trt_op_types_to_exclude: Option<Vec<String>>,
    /// Minimum number of nodes in a subgraph for TensorRT partitioning.
    pub trt_min_subgraph_size: Option<usize>,
    /// gRPC listen address.
    pub grpc_addr: String,
    /// Maximum concurrent HTTP/2 connections.
    pub max_concurrent_connections: usize,
    /// Maximum concurrent HTTP/2 streams per connection.
    pub max_concurrent_streams: usize,
    /// Maximum HTTP/2 frame size in bytes.
    pub max_frame_size: usize,
    /// Pin each compio runtime thread to a CPU from the process cpuset.
    pub cpu_pinning: bool,
    /// Enable io_uring SQPOLL for gRPC processing cores.
    pub sqpoll_enabled: bool,
    /// SQPOLL kernel-thread idle timeout, in milliseconds.
    pub sqpoll_idle_ms: u32,
    /// io_uring SQ/CQ ring capacity (entries) per runtime.
    pub io_uring_capacity: u32,
    /// io_uring registered buffer pool: number of buffers per runtime.
    pub buffer_pool_size: u16,
    /// io_uring registered buffer pool: size of each buffer in bytes.
    pub buffer_pool_buffer_len: usize,
}

/// Where the models come from.
pub enum ModelSource {
    Local(PathBuf),
    S3 {
        endpoint: String,
        bucket: String,
        prefix: String,
        region: String,
        cache_dir: PathBuf,
    },
}

impl Args {
    /// What to tell the user who names no source.
    pub open spec fn no_source() -> Seq<char> {
        "error: either --model-repository or --s3-bucket + --s3-endpoint is required"@
    }

    /// Where to take the models from: a local directory where one is given,
    /// else a bucket where endpoint and bucket are given.
    pub fn model_source(&self) -> (r: Result<ModelSource, String>)
        ensures
            match self.model_repository {
                Some(path) => r == Ok::<ModelSource, String>(ModelSource::Local(path)),
                None => if self.s3_endpoint is Some && self.s3_bucket is Some {
                    &&& r matches Ok(ModelSource::S3 { endpoint, bucket, prefix, region, cache_dir })
                    &&& endpoint == self.s3_endpoint->0
                    &&& bucket == self.s3_bucket->0
                    &&& prefix == self.s3_prefix
                    &&& region == self.s3_region
                    &&& cache_dir == self.model_cache_dir
                } else {
                    r matches Err(message) && message@ == Args::no_source()
                },
            },
    {
        if let Some(path) = &self.model_repository {
            return Ok(ModelSource::Local(copy_path(path)));
        }
        if let Some(endpoint) = &self.s3_endpoint {
            if let Some(bucket) = &self.s3_bucket {
                return Ok(
                    ModelSource::S3 {
                        endpoint: endpoint.clone(),
                        bucket: bucket.clone(),
                        prefix: self.s3_prefix.clone(),
                        region: self.s3_region.clone(),
                        cache_dir: copy_path(&self.model_cache_dir),
                    },
                );
            }
        }
        Err("error: either --model-repository or --s3-bucket + --s3-endpoint is required".to_owned())
    }
}

/// Upper-case letters become the lower-case letters at the same place of the
/// alphabet, and every other character stays.
pub proof fn letters_are_lowered(s: Seq<char>, i: int)
    requires
        0 <= i < s.len(),
    ensures
        ascii_lowercase(s).len() == s.len(),
        'A' <= s[i] <= 'Z' ==> {
            &&& 'a' <= ascii_lowercase(s)[i] <= 'z'
            &&& ascii_lowercase(s)[i] as int - 'a' as int == s[i] as int - 'A' as int
        },
        !('A' <= s[i] <= 'Z') ==> ascii_lowercase(s)[i] == s[i],
{
}

/// A provider has its name, the last of them also the short one, and no provider
/// has another.
pub proof fn no_other_name_is_known(name: Seq<char>)
    ensures
        provider_named("trt"@) == Some(ExecutionProviderKind::TensorRT),
        provider_named(name) matches Some(kind) ==> name == kind.text() || name == "trt"@,
{
    reveal_strlit("cpu");
    reveal_strlit("cuda");
    reveal_strlit("tensorrt");
    reveal_strlit("trt");
    assert("trt"@[0] == 't' && "cpu"@[0] == 'c');
}

/// A name in lower case stands for the provider whose name it is, and for none where
/// it is no provider's; the user is told that name then.
pub proof fn provider_names_are_read(name: &str, kind: ExecutionProviderKind, r: Result<ExecutionProviderKind, String>)
    requires
        call_ensures(ExecutionProviderKind::from_lowercase, (name,), r),
    ensures
        name@ == kind.text() ==> r == Ok::<ExecutionProviderKind, String>(kind),
        name@ == "trt"@ ==> r == Ok::<ExecutionProviderKind, String>(ExecutionProviderKind::TensorRT),
        r == Ok::<ExecutionProviderKind, String>(kind) ==> name@ == kind.text() || name@ == "trt"@,
        r matches Err(message) ==> message@ == "unknown execution provider '"@ + name@
            + "'; expected one of: cpu, cuda, tensorrt (or trt)"@,
{
    provider_names_read_back(kind);
    no_other_name_is_known(name@);
}

/// The models come from the local directory where one is given, whatever else is,
/// and else from the bucket at the endpoint where both are given.
pub proof fn local_models_come_first(args: &Args, r: Result<ModelSource, String>)
    requires
        call_ensures(Args::model_source, (args,), r),
    ensures
        r is Ok <==> args.model_repository is Some || (args.s3_endpoint is Some && args.s3_bucket is Some),
        args.model_repository matches Some(path) ==> r == Ok::<ModelSource, String>(ModelSource::Local(path)),
        args.model_repository is None ==> (r matches Ok(source) ==> {
            &&& source matches ModelSource::S3 { endpoint, bucket, prefix, region, cache_dir }
            &&& Some(endpoint) == args.s3_endpoint
            &&& Some(bucket) == args.s3_bucket
            &&& prefix == args.s3_prefix
            &&& region == args.s3_region
            &&& cache_dir == args.model_cache_dir
        }),
{
}

/// A name is read in any mixture of cases: one in ASCII stands for the provider whose
/// name it is in lower case, and for none where it is no provider's.
pub proof fn names_are_read_in_any_case(s: &str, kind: ExecutionProviderKind, r: Result<ExecutionProviderKind, String>)
    requires
        call_ensures(ExecutionProviderKind::from_str, (s,), r),
        is_ascii_text(s@),
    ensures
        ascii_lowercase(s@) == kind.text() ==> r == Ok::<ExecutionProviderKind, String>(kind),
        ascii_lowercase(s@) == "trt"@ ==> r == Ok::<ExecutionProviderKind, String>(ExecutionProviderKind::TensorRT),
        r == Ok::<ExecutionProviderKind, String>(kind) ==> ascii_lowercase(s@) == kind.text() || ascii_lowercase(s@)
            == "trt"@,
        r matches Err(message) ==> message@ == "unknown execution provider '"@ + ascii_lowercase(s@)
            + "'; expected one of: cpu, cuda, tensorrt (or trt)"@,
{
    provider_names_read_back(kind);
    no_other_name_is_known(ascii_lowercase(s@));
}

/// A provider is read back from the name that is shown of it.
pub proof fn shown_providers_read_back(kind: &ExecutionProviderKind, name: &str, r: Result<ExecutionProviderKind, String>)
    requires
        call_ensures(ExecutionProviderKind::as_str, (kind,), name),
        call_ensures(ExecutionProviderKind::from_str, (name,), r),
    ensures
        r == Ok::<ExecutionProviderKind, String>(*kind),
{
    assert(name@ == kind.text());
}

}
