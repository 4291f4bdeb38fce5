//! What the server knows of a loaded model, and how it comes from the model's
//! session and configuration.
use crate::shapes;
use crate::shapes::{ShapeOverrides, TensorInfo};
use hashbrown::HashMap;
use std::sync::Arc;
use vstd::prelude::*;

verus! {

/// One input, as the model's configuration shows it.
pub struct ModelInput {
    pub name: String,
    pub data_type: i32,
    pub dims: Vec<i64>,
}

/// One output, as the model's configuration shows it.
pub struct ModelOutput {
    pub name: String,
    pub data_type: i32,
    pub dims: Vec<i64>,
}

/// One input or output, as the model's metadata shows it.
pub struct TensorMetadata {
    pub name: String,
    pub datatype: String,
    pub shape: Vec<i64>,
}

/// What the server looks up of an input: the shape of one item, and the place
/// of the input among the session's.
pub struct ModelInputMetadata {
    pub shape: Vec<i64>,
    pub order: usize,
}

/// What is looked up of an input, as a value.
pub struct InputPlace {
    pub shape: Seq<i64>,
    pub order: usize,
}

impl View for ModelInputMetadata {
    type V = InputPlace;

    open spec fn view(&self) -> InputPlace {
        InputPlace { shape: self.shape@, order: self.order }
    }
}

/// The inputs of a model by name.
#[verifier::external_body]
pub struct InputSet {
    inputs: HashMap<String, ModelInputMetadata>,
}

/// What an input set holds.
pub uninterp spec fn inputs_of(set: InputSet) -> Map<Seq<char>, InputPlace>;

impl View for InputSet {
    type V = Map<Seq<char>, InputPlace>;

    open spec fn view(&self) -> Map<Seq<char>, InputPlace> {
        inputs_of(*self)
    }
}

impl InputSet {
    /// Calls [`HashMap::new`], which makes a map with nothing in it.
    #[verifier::external_body]
    fn new() -> (r: InputSet)
        ensures
            inputs_of(r).dom() == Set::<Seq<char>>::empty(),
    {
        InputSet { inputs: HashMap::new() }
    }

    /// Calls [`HashMap::insert`], which puts the value under the key, in place
    /// of one that is there.
    #[verifier::external_body]
    fn insert(&mut self, name: String, metadata: ModelInputMetadata)
        ensures
            inputs_of(*final(self)) == inputs_of(*old(self)).insert(name@, metadata@),
    {
        self.inputs.insert(name, metadata);
    }

    /// Calls [`HashMap::get`], which gives the value under the key, if there is
    /// one.
    #[verifier::external_body]
    pub(crate) fn get(&self, name: &str) -> (r: Option<&ModelInputMetadata>)
        ensures
            match r {
                Some(metadata) => inputs_of(*self).dom().contains(name@) && metadata@ == inputs_of(*self)[name@],
                None => !inputs_of(*self).dom().contains(name@),
            },
    {
        self.inputs.get(name)
    }
}

/// A model's configuration.
pub struct ModelConfig {
    pub name: String,
    pub platform: String,
    pub backend: String,
    pub runtime: String,
    pub max_batch_size: i32,
    pub input: Vec<ModelInput>,
    pub output: Vec<ModelOutput>,
    pub default_model_filename: String,
}

/// A model's metadata.
pub struct ModelMetadata {
    pub input_meta: Vec<TensorMetadata>,
    pub output_meta: Vec<TensorMetadata>,
    pub input_set: InputSet,
}

/// A loaded model. `data` is the number of the ring that its requests go to.
pub struct ModelProxy {
    pub data: usize,
    pub model_config: ModelConfig,
    pub model_metadata: ModelMetadata,
}

impl ModelProxy {
    /// Every input that the configuration shows can be looked up.
    pub open spec fn wf(self) -> bool {
        forall|i: int|
            0 <= i < self.model_config.input@.len() ==> self.model_metadata.input_set@.dom().contains(
                (#[trigger] self.model_config.input@[i]).name@,
            )
    }
}

/// `input` is shown under the shape configured for it.
pub open spec fn is_config_input(input: ModelInput, info: TensorInfo, overrides: Map<Seq<char>, Seq<i64>>) -> bool {
    &&& input.name@ == info.name@
    &&& input.data_type == info.data_type
    &&& input.dims@ == shapes::reported_shape(info.shape@, overrides, info.name@)
}

/// `output` is shown under the shape configured for it.
pub open spec fn is_config_output(output: ModelOutput, info: TensorInfo, overrides: Map<Seq<char>, Seq<i64>>) -> bool {
    &&& output.name@ == info.name@
    &&& output.data_type == info.data_type
    &&& output.dims@ == shapes::reported_shape(info.shape@, overrides, info.name@)
}

/// The metadata shows the tensor under the shape configured for it.
pub open spec fn is_metadata(meta: TensorMetadata, info: TensorInfo, overrides: Map<Seq<char>, Seq<i64>>) -> bool {
    &&& meta.name@ == info.name@
    &&& meta.datatype@ == info.datatype@
    &&& meta.shape@ == shapes::reported_shape(info.shape@, overrides, info.name@)
}

/// What is looked up of the first `n` inputs: of each the shape of one item,
/// and its place. Of inputs with one name the last counts.
pub open spec fn input_places(
    infos: Seq<TensorInfo>,
    overrides: Map<Seq<char>, Seq<i64>>,
    n: nat,
) -> Map<Seq<char>, InputPlace>
    decreases n,
{
    if n == 0 {
        Map::empty()
    } else {
        let info = infos[n - 1];
        input_places(infos, overrides, (n - 1) as nat).insert(
            info.name@,
            InputPlace {
                shape: shapes::reported_shape(info.shape@, overrides, info.name@).update(0, 1),
                order: (n - 1) as usize,
            },
        )
    }
}

proof fn lemma_places_hold_every_name(infos: Seq<TensorInfo>, overrides: Map<Seq<char>, Seq<i64>>, n: nat)
    requires
        n <= infos.len(),
    ensures
        forall|i: int|
            0 <= i < n ==> input_places(infos, overrides, n).dom().contains((#[trigger] infos[i]).name@),
    decreases n,
{
    if n > 0 {
        lemma_places_hold_every_name(infos, overrides, (n - 1) as nat);
    }
}

/// The place of an input that no later one shares its name with is its number.
pub proof fn inputs_are_found_at_their_place(
    infos: Seq<TensorInfo>,
    overrides: Map<Seq<char>, Seq<i64>>,
    n: nat,
    i: int,
)
    requires
        0 <= i < n <= infos.len() <= usize::MAX,
        forall|j: int| i < j < n ==> (#[trigger] infos[j]).name@ != infos[i].name@,
    ensures
        input_places(infos, overrides, n).dom().contains(infos[i].name@),
        input_places(infos, overrides, n)[infos[i].name@].order == i,
    decreases n,
{
    if i < n - 1 {
        assert(infos[n - 1].name@ != infos[i].name@);
        inputs_are_found_at_their_place(infos, overrides, (n - 1) as nat, i);
    }
}

fn config_inputs(infos: &Vec<TensorInfo>, overrides: &ShapeOverrides) -> (r: Vec<ModelInput>)
    requires
        overrides.wf(),
    ensures
        r@.len() == infos@.len(),
        forall|i: int| 0 <= i < infos@.len() ==> is_config_input(#[trigger] r@[i], infos@[i], overrides@),
{
    let mut r: Vec<ModelInput> = Vec::new();
    for i in 0..infos.len()
        invariant
            overrides.wf(),
            r@.len() == i,
            forall|j: int| 0 <= j < i ==> is_config_input(#[trigger] r@[j], infos@[j], overrides@),
    {
        let info = &infos[i];
        let dims = shapes::report_shape(&info.shape, overrides, info.name.as_str());
        r.push(ModelInput { name: info.name.clone(), data_type: info.data_type, dims });
    }
    r
}

fn config_outputs(infos: &Vec<TensorInfo>, overrides: &ShapeOverrides) -> (r: Vec<ModelOutput>)
    requires
        overrides.wf(),
    ensures
        r@.len() == infos@.len(),
        forall|i: int| 0 <= i < infos@.len() ==> is_config_output(#[trigger] r@[i], infos@[i], overrides@),
{
    let mut r: Vec<ModelOutput> = Vec::new();
    for i in 0..infos.len()
        invariant
            overrides.wf(),
            r@.len() == i,
            forall|j: int| 0 <= j < i ==> is_config_output(#[trigger] r@[j], infos@[j], overrides@),
    {
        let info = &infos[i];
        let dims = shapes::report_shape(&info.shape, overrides, info.name.as_str());
        r.push(ModelOutput { name: info.name.clone(), data_type: info.data_type, dims });
    }
    r
}

fn metadata(infos: &Vec<TensorInfo>, overrides: &ShapeOverrides) -> (r: Vec<TensorMetadata>)
    requires
        overrides.wf(),
    ensures
        r@.len() == infos@.len(),
        forall|i: int| 0 <= i < infos@.len() ==> is_metadata(#[trigger] r@[i], infos@[i], overrides@),
{
    let mut r: Vec<TensorMetadata> = Vec::new();
    for i in 0..infos.len()
        invariant
            overrides.wf(),
            r@.len() == i,
            forall|j: int| 0 <= j < i ==> is_metadata(#[trigger] r@[j], infos@[j], overrides@),
    {
        let info = &infos[i];
        let shape = shapes::report_shape(&info.shape, overrides, info.name.as_str());
        r.push(TensorMetadata { name: info.name.clone(), datatype: info.datatype.clone(), shape });
    }
    r
}

fn input_set(infos: &Vec<TensorInfo>, overrides: &ShapeOverrides) -> (r: InputSet)
    requires
        overrides.wf(),
        forall|i: int| 0 <= i < infos@.len() ==> (#[trigger] infos@[i]).shape@.len() > 0,
    ensures
        r@ == input_places(infos@, overrides@, infos@.len()),
{
    let mut r = InputSet::new();
    assert(r@ =~= Map::<Seq<char>, InputPlace>::empty());
    for i in 0..infos.len()
        invariant
            overrides.wf(),
            forall|i: int| 0 <= i < infos@.len() ==> (#[trigger] infos@[i]).shape@.len() > 0,
            r@ == input_places(infos@, overrides@, i as nat),
    {
        let info = &infos[i];
        let mut shape = shapes::report_shape(&info.shape, overrides, info.name.as_str());
        shape.set(0, 1);
        r.insert(info.name.clone(), ModelInputMetadata { shape, order: i });
    }
    r
}

/// Where the memory of a ring is allocated.
#[derive(Clone, Copy, Debug, PartialEq, Eq, Structural)]
pub enum AllocatorKind {
    Cpu,
    CudaPinned,
}

/// When a session stops writing its profile.
pub struct Profiling {
    pub file_prefix: String,
    pub stop_after_batches: Option<u64>,
}

/// What the repository says of a model.
pub struct ModelRepositoryConfig {
    pub num_executors: usize,
    pub batch_size: usize,
    pub capacity: usize,
    pub allocator: AllocatorKind,
    pub input_shapes: ShapeOverrides,
    pub output_shapes: ShapeOverrides,
    pub profiling: Option<Profiling>,
}

/// `proxy` is the model `name` with the given inputs and outputs.
pub open spec fn is_model(
    proxy: ModelProxy,
    name: Seq<char>,
    config: ModelRepositoryConfig,
    inputs: Seq<TensorInfo>,
    outputs: Seq<TensorInfo>,
) -> bool {
    let shown = proxy.model_config;
    let meta = proxy.model_metadata;
    &&& shown.name@ == name
    &&& shown.platform@ == "onnxruntime_onnx"@
    &&& shown.backend@ == "onnxruntime"@
    &&& shown.runtime@ == "onnxruntime"@
    &&& shown.max_batch_size == config.batch_size as i32
    &&& shown.default_model_filename@ == "todo"@
    &&& shown.input@.len() == inputs.len()
    &&& forall|i: int|
        0 <= i < inputs.len() ==> is_config_input(#[trigger] shown.input@[i], inputs[i], config.input_shapes@)
    &&& shown.output@.len() == outputs.len()
    &&& forall|i: int|
        0 <= i < outputs.len() ==> is_config_output(#[trigger] shown.output@[i], outputs[i], config.output_shapes@)
    &&& meta.input_meta@.len() == inputs.len()
    &&& forall|i: int|
        0 <= i < inputs.len() ==> is_metadata(#[trigger] meta.input_meta@[i], inputs[i], config.input_shapes@)
    &&& meta.output_meta@.len() == outputs.len()
    &&& forall|i: int|
        0 <= i < outputs.len() ==> is_metadata(#[trigger] meta.output_meta@[i], outputs[i], config.output_shapes@)
    &&& meta.input_set@ == input_places(inputs, config.input_shapes@, inputs.len())
}

/// Describes the model `name`, whose requests go to ring number `data`, from
/// what its session tells of its inputs and outputs.
pub fn describe_model(
    name: &str,
    data: usize,
    config: &ModelRepositoryConfig,
    inputs: &Vec<TensorInfo>,
    outputs: &Vec<TensorInfo>,
) -> (r: ModelProxy)
    requires
        config.input_shapes.wf(),
        config.output_shapes.wf(),
        forall|i: int| 0 <= i < inputs@.len() ==> (#[trigger] inputs@[i]).shape@.len() > 0,
    ensures
        r.data == data,
        is_model(r, name@, *config, inputs@, outputs@),
        r.wf(),
{
    let model_metadata = ModelMetadata {
        input_meta: metadata(inputs, &config.input_shapes),
        output_meta: metadata(outputs, &config.output_shapes),
        input_set: input_set(inputs, &config.input_shapes),
    };
    let max_batch_size = #[verifier::truncate] (config.batch_size as i32);
    let model_config = ModelConfig {
        name: name.to_owned(),
        platform: "onnxruntime_onnx".to_owned(),
        backend: "onnxruntime".to_owned(),
        runtime: "onnxruntime".to_owned(),
        max_batch_size,
        input: config_inputs(inputs, &config.input_shapes),
        output: config_outputs(outputs, &config.output_shapes),
        default_model_filename: "todo".to_owned(),
    };
    proof {
        lemma_places_hold_every_name(inputs@, config.input_shapes@, inputs@.len());
        assert forall|i: int| 0 <= i < model_config.input@.len() implies model_metadata.input_set@.dom().contains(
            (#[trigger] model_config.input@[i]).name@,
        ) by {
            assert(is_config_input(model_config.input@[i], inputs@[i], config.input_shapes@));
        }
    }
    ModelProxy { data, model_config, model_metadata }
}

/// The loaded models by name.
#[verifier::external_body]
pub struct ModelMap {
    models: HashMap<String, Arc<ModelProxy>>,
}

/// What a model map holds.
pub uninterp spec fn models_of(map: ModelMap) -> Map<Seq<char>, ModelProxy>;

impl View for ModelMap {
    type V = Map<Seq<char>, ModelProxy>;

    open spec fn view(&self) -> Map<Seq<char>, ModelProxy> {
        models_of(*self)
    }
}

/// Calls [`HashMap::new`], which makes a map with nothing in it.
#[verifier::external_body]
fn new_map() -> (r: ModelMap)
    ensures
        models_of(r).dom() == Set::<Seq<char>>::empty(),
{
    ModelMap { models: HashMap::new() }
}

/// Calls [`HashMap::clone`], which makes a map with the same contents: a copy
/// of an [`Arc`] leads to the same model.
#[verifier::external_body]
fn clone_map(map: &ModelMap) -> (r: ModelMap)
    ensures
        models_of(r) == models_of(*map),
{
    ModelMap { models: map.models.clone() }
}

/// Calls [`HashMap::insert`], which puts the value under the key, in place of
/// one that is there.
#[verifier::external_body]
fn insert_model(map: &mut ModelMap, name: String, model: Arc<ModelProxy>)
    ensures
        models_of(*final(map)) == models_of(*old(map)).insert(name@, *model),
{
    map.models.insert(name, model);
}

/// Calls [`HashMap::get`], which gives the value under the key, if there is
/// one.
#[verifier::external_body]
fn find_model<'a>(map: &'a ModelMap, name: &str) -> (r: Option<&'a Arc<ModelProxy>>)
    ensures
        match r {
            Some(model) => models_of(*map).dom().contains(name@) && **model == models_of(*map)[name@],
            None => !models_of(*map).dom().contains(name@),
        },
{
    map.models.get(name)
}

/// Calls [`HashMap::len`], which gives the number of entries.
#[verifier::external_body]
fn count_models(map: &ModelMap) -> (r: usize)
    ensures
        r == models_of(*map).dom().len(),
{
    map.models.len()
}

impl ModelMap {
    /// The models are finitely many, and every one is whole.
    pub open spec fn wf(self) -> bool {
        &&& self@.dom().finite()
        &&& forall|name: Seq<char>| #[trigger] self@.dom().contains(name) ==> self@[name].wf()
    }

    /// No model is loaded.
    pub fn new() -> (r: ModelMap)
        ensures
            r.wf(),
            r@ == Map::<Seq<char>, ModelProxy>::empty(),
    {
        let r = new_map();
        assert(r@ =~= Map::<Seq<char>, ModelProxy>::empty());
        r
    }

    /// The number of models.
    pub fn len(&self) -> (r: usize)
        ensures
            r == self@.dom().len(),
    {
        count_models(self)
    }

    /// The model of that name.
    pub fn get(&self, name: &str) -> (r: Option<&ModelProxy>)
        ensures
            match r {
                Some(model) => self@.dom().contains(name@) && *model == self@[name@],
                None => !self@.dom().contains(name@),
            },
    {
        match find_model(self, name) {
            Some(model) => Some(&**model),
            None => None,
        }
    }

    /// The models loaded once `model` is there too. Requests that hold on to
    /// the map they started with are not disturbed.
    pub fn with_model(&self, name: &str, model: Arc<ModelProxy>) -> (r: ModelMap)
        requires
            self.wf(),
            model.wf(),
        ensures
            r.wf(),
            r@ == self@.insert(name@, *model),
    {
        let mut r = clone_map(self);
        insert_model(&mut r, name.to_owned(), model);
        r
    }
}

/// Why a model could not be loaded.
#[derive(Debug)]
pub enum LoadError {
    SessionBuild(String),
    AllocatorCreate(String),
    SuperTensorBuild,
    DispatchFailed(String),
}

/// The device of an allocator.
#[derive(Clone, Copy, Debug, PartialEq, Eq, Structural)]
pub enum AllocationDevice {
    Cpu,
    CudaPinned,
}

/// The use of allocated memory.
#[derive(Clone, Copy, Debug, PartialEq, Eq, Structural)]
pub enum MemoryUse {
    CpuInput,
}

/// Device and use of the memory of a ring.
pub fn allocation(kind: AllocatorKind) -> (r: (AllocationDevice, MemoryUse))
    ensures
        r.0 == (match kind {
            AllocatorKind::Cpu => AllocationDevice::Cpu,
            AllocatorKind::CudaPinned => AllocationDevice::CudaPinned,
        }),
        r.1 == MemoryUse::CpuInput,
{
    match kind {
        AllocatorKind::Cpu => (AllocationDevice::Cpu, MemoryUse::CpuInput),
        AllocatorKind::CudaPinned => (AllocationDevice::CudaPinned, MemoryUse::CpuInput),
    }
}

/// Every name of an input is found, and no other. What is found is the last input
/// with that name: its place, and the shape of one item, with 1 for the batch, the
/// configured dimensions behind it as far as they reach, and the declared ones
/// behind those.
pub proof fn inputs_are_found_with_their_shape(
    infos: Seq<TensorInfo>,
    overrides: Map<Seq<char>, Seq<i64>>,
    n: nat,
    name: Seq<char>,
    i: int,
    d: int,
)
    requires
        n <= infos.len() <= usize::MAX,
        0 <= i < n,
        infos[i].name@ == name,
        forall|j: int| i < j < n ==> (#[trigger] infos[j]).name@ != name,
        infos[i].shape@.len() > 0,
    ensures
        ({
            let found = input_places(infos, overrides, n)[name];
            let configured = overrides.dom().contains(name) && d < overrides[name].len();
            &&& input_places(infos, overrides, n).dom().contains(name)
            &&& found.order == i
            &&& found.shape.len() == infos[i].shape@.len()
            &&& found.shape[0] == 1
            &&& 0 < d < infos[i].shape@.len() && configured ==> found.shape[d] == overrides[name][d]
            &&& 0 < d < infos[i].shape@.len() && !configured ==> found.shape[d] == infos[i].shape@[d]
        }),
    decreases n,
{
    if i < n - 1 {
        assert(infos[n - 1].name@ != name);
        inputs_are_found_with_their_shape(infos, overrides, (n - 1) as nat, name, i, d);
    } else if 0 < d < infos[i].shape@.len() {
        shapes::configured_dimensions_are_taken(infos[i].shape@, overrides, name, d);
    }
}

/// A name that no input has is not found.
pub proof fn other_names_are_not_found(
    infos: Seq<TensorInfo>,
    overrides: Map<Seq<char>, Seq<i64>>,
    n: nat,
    name: Seq<char>,
)
    requires
        n <= infos.len(),
        forall|j: int| 0 <= j < n ==> (#[trigger] infos[j]).name@ != name,
    ensures
        !input_places(infos, overrides, n).dom().contains(name),
    decreases n,
{
    if n > 0 {
        other_names_are_not_found(infos, overrides, (n - 1) as nat, name);
        assert(infos[n - 1].name@ != name);
    }
}

/// `dims` are the dimensions of the tensor: as configured, as far as that reaches,
/// and otherwise as the session tells them.
pub open spec fn are_dims(dims: Seq<i64>, info: TensorInfo, overrides: Map<Seq<char>, Seq<i64>>) -> bool {
    let name = info.name@;
    &&& dims.len() == info.shape@.len()
    &&& forall|d: int|
        0 <= d < dims.len() ==> (#[trigger] dims[d]) == (if overrides.dom().contains(name) && d
            < overrides[name].len() {
            overrides[name][d]
        } else {
            info.shape@[d]
        })
}

proof fn lemma_are_dims(info: TensorInfo, overrides: Map<Seq<char>, Seq<i64>>)
    ensures
        are_dims(shapes::reported_shape(info.shape@, overrides, info.name@), info, overrides),
{
    let dims = shapes::reported_shape(info.shape@, overrides, info.name@);
    assert forall|d: int| 0 <= d < info.shape@.len() implies (#[trigger] dims[d]) == (if overrides.dom().contains(
        info.name@,
    ) && d < overrides[info.name@].len() {
        overrides[info.name@][d]
    } else {
        info.shape@[d]
    }) by {
        shapes::configured_dimensions_are_taken(info.shape@, overrides, info.name@, d);
    }
}

/// A model shows every input that its session has, in the order of the session,
/// under the same name and type and with its dimensions, in its configuration as in
/// its metadata.
pub proof fn every_input_is_described(
    proxy: ModelProxy,
    name: Seq<char>,
    config: ModelRepositoryConfig,
    inputs: Seq<TensorInfo>,
    outputs: Seq<TensorInfo>,
    i: int,
)
    requires
        is_model(proxy, name, config, inputs, outputs),
        0 <= i < inputs.len(),
    ensures
        ({
            let shown = proxy.model_config.input@;
            let meta = proxy.model_metadata.input_meta@;
            &&& shown.len() == inputs.len()
            &&& meta.len() == inputs.len()
            &&& shown[i].name@ == inputs[i].name@
            &&& meta[i].name@ == inputs[i].name@
            &&& shown[i].data_type == inputs[i].data_type
            &&& meta[i].datatype@ == inputs[i].datatype@
            &&& are_dims(shown[i].dims@, inputs[i], config.input_shapes@)
            &&& are_dims(meta[i].shape@, inputs[i], config.input_shapes@)
        }),
{
    assert(is_config_input(proxy.model_config.input@[i], inputs[i], config.input_shapes@));
    assert(is_metadata(proxy.model_metadata.input_meta@[i], inputs[i], config.input_shapes@));
    lemma_are_dims(inputs[i], config.input_shapes@);
}

/// The same of the outputs.
pub proof fn every_output_is_described(
    proxy: ModelProxy,
    name: Seq<char>,
    config: ModelRepositoryConfig,
    inputs: Seq<TensorInfo>,
    outputs: Seq<TensorInfo>,
    i: int,
)
    requires
        is_model(proxy, name, config, inputs, outputs),
        0 <= i < outputs.len(),
    ensures
        ({
            let shown = proxy.model_config.output@;
            let meta = proxy.model_metadata.output_meta@;
            &&& shown.len() == outputs.len()
            &&& meta.len() == outputs.len()
            &&& shown[i].name@ == outputs[i].name@
            &&& meta[i].name@ == outputs[i].name@
            &&& shown[i].data_type == outputs[i].data_type
            &&& meta[i].datatype@ == outputs[i].datatype@
            &&& are_dims(shown[i].dims@, outputs[i], config.output_shapes@)
            &&& are_dims(meta[i].shape@, outputs[i], config.output_shapes@)
        }),
{
    assert(is_config_output(proxy.model_config.output@[i], outputs[i], config.output_shapes@));
    assert(is_metadata(proxy.model_metadata.output_meta@[i], outputs[i], config.output_shapes@));
    lemma_are_dims(outputs[i], config.output_shapes@);
}

/// A model goes by the name it is loaded under, and shows the batch size that is
/// configured for it.
pub proof fn models_show_their_batch_size(
    proxy: ModelProxy,
    name: Seq<char>,
    config: ModelRepositoryConfig,
    inputs: Seq<TensorInfo>,
    outputs: Seq<TensorInfo>,
)
    requires
        is_model(proxy, name, config, inputs, outputs),
        config.batch_size <= i32::MAX,
    ensures
        proxy.model_config.name@ == name,
        proxy.model_config.max_batch_size == config.batch_size,
{
}

/// A description is of the model that it was made for: it goes to the same ring, and
/// every input and output of the session is in it.
pub proof fn descriptions_are_complete(
    name: &str,
    data: usize,
    config: &ModelRepositoryConfig,
    inputs: &Vec<TensorInfo>,
    outputs: &Vec<TensorInfo>,
    r: ModelProxy,
    i: int,
)
    requires
        call_ensures(describe_model, (name, data, config, inputs, outputs), r),
    ensures
        r.data == data,
        r.model_config.name@ == name@,
        config.batch_size <= i32::MAX ==> r.model_config.max_batch_size == config.batch_size,
        r.model_config.input@.len() == inputs@.len(),
        r.model_config.output@.len() == outputs@.len(),
        0 <= i < inputs@.len() ==> {
            &&& r.model_config.input@[i].name@ == inputs@[i].name@
            &&& r.model_config.input@[i].data_type == inputs@[i].data_type
            &&& are_dims(r.model_config.input@[i].dims@, inputs@[i], config.input_shapes@)
            &&& r.model_metadata.input_meta@[i].name@ == inputs@[i].name@
            &&& r.model_metadata.input_meta@[i].datatype@ == inputs@[i].datatype@
            &&& are_dims(r.model_metadata.input_meta@[i].shape@, inputs@[i], config.input_shapes@)
            &&& r.model_metadata.input_set@.dom().contains(inputs@[i].name@)
        },
        0 <= i < outputs@.len() ==> {
            &&& r.model_config.output@[i].name@ == outputs@[i].name@
            &&& r.model_config.output@[i].data_type == outputs@[i].data_type
            &&& are_dims(r.model_config.output@[i].dims@, outputs@[i], config.output_shapes@)
            &&& r.model_metadata.output_meta@[i].name@ == outputs@[i].name@
            &&& r.model_metadata.output_meta@[i].datatype@ == outputs@[i].datatype@
            &&& are_dims(r.model_metadata.output_meta@[i].shape@, outputs@[i], config.output_shapes@)
        },
{
    if 0 <= i < inputs@.len() {
        every_input_is_described(r, name@, *config, inputs@, outputs@, i);
        lemma_places_hold_every_name(inputs@, config.input_shapes@, inputs@.len());
    }
    if 0 <= i < outputs@.len() {
        every_output_is_described(r, name@, *config, inputs@, outputs@, i);
    }
}

/// A model that is added is found under its name, and the other models stay as they
/// were, those in the map that it was added to included.
pub proof fn added_models_are_found(
    models: &ModelMap,
    name: &str,
    model: Arc<ModelProxy>,
    r: ModelMap,
    asked: &str,
    found: Option<&ModelProxy>,
)
    requires
        call_ensures(ModelMap::with_model, (models, name, model), r),
        call_ensures(ModelMap::get, (&r, asked), found),
    ensures
        asked@ == name@ ==> found == Some(&*model),
        asked@ != name@ ==> (found is Some <==> models@.dom().contains(asked@)),
        asked@ != name@ && models@.dom().contains(asked@) ==> *found->0 == models@[asked@],
{
}

/// The memory of a ring is where its configuration says, and for inputs.
pub proof fn memory_is_where_it_is_configured(kind: AllocatorKind, r: (AllocationDevice, MemoryUse))
    requires
        call_ensures(allocation, (kind,), r),
    ensures
        r.0 == AllocationDevice::Cpu <==> kind == AllocatorKind::Cpu,
        r.0 == AllocationDevice::CudaPinned <==> kind == AllocatorKind::CudaPinned,
        r.1 == MemoryUse::CpuInput,
{
}

}
