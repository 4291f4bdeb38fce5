//! The inference service: what each request is answered.
use crate::model::{ModelConfig, ModelInput, ModelMap, ModelMetadata, ModelProxy, TensorMetadata};
use crate::text;
use smallvec::SmallVec;
use vstd::prelude::*;

verus! {

/// Why a request fails, as the protocol numbers it.
#[derive(Clone, Copy, Debug, PartialEq, Eq, Structural)]
pub enum Code {
    InvalidArgument,
    NotFound,
    ResourceExhausted,
    Internal,
}

/// The answer to a request that fails.
#[derive(Debug)]
pub struct Status {
    pub code: Code,
    pub message: String,
}

impl Status {
    pub open spec fn is(self, code: Code, message: Seq<char>) -> bool {
        self.code == code && self.message@ == message
    }
}

/// Why a batch was not run.
#[derive(Clone, Debug)]
pub enum InferError {
    /// The ring takes no more requests.
    RingFull,
    /// The session failed, with what it said.
    SessionRun(String),
}

/// How a request ended, as it is counted.
#[derive(Clone, Copy, Debug, PartialEq, Eq, Structural)]
pub enum Outcome {
    Answered,
    NotFound,
    ResourceExhausted,
    Error,
}

/// The code that an error is answered with.
pub open spec fn error_code(err: InferError) -> Code {
    match err {
        InferError::RingFull => Code::ResourceExhausted,
        InferError::SessionRun(_) => Code::Internal,
    }
}

/// What an error is counted as.
pub open spec fn error_outcome(err: InferError) -> Outcome {
    match err {
        InferError::RingFull => Outcome::ResourceExhausted,
        InferError::SessionRun(_) => Outcome::Error,
    }
}

/// What a client is told of an error.
pub open spec fn error_text(err: InferError) -> Seq<char> {
    match err {
        InferError::RingFull => "inference ring is full"@,
        InferError::SessionRun(message) => message@,
    }
}

/// What a client is told of an error.
pub fn error_message(err: &InferError) -> (r: String)
    ensures
        r@ == error_text(*err),
{
    match err {
        InferError::RingFull => "inference ring is full".to_owned(),
        InferError::SessionRun(message) => message.clone(),
    }
}

/// The answer to an error.
pub fn infer_error_to_status(err: &InferError) -> (r: Status)
    ensures
        r.is(error_code(*err), error_text(*err)),
{
    let code = match err {
        InferError::RingFull => Code::ResourceExhausted,
        InferError::SessionRun(_) => Code::Internal,
    };
    Status { code, message: error_message(err) }
}

/// What an error is counted as.
pub fn infer_error_outcome(err: &InferError) -> (r: Outcome)
    ensures
        r == error_outcome(*err),
{
    match err {
        InferError::RingFull => Outcome::ResourceExhausted,
        InferError::SessionRun(_) => Outcome::Error,
    }
}

/// What a request for a model that is not loaded is told.
pub open spec fn not_found(name: Seq<char>) -> Seq<char> {
    "Model "@ + name + " not found"@
}

fn not_found_status(name: &str) -> (r: Status)
    ensures
        r.is(Code::NotFound, not_found(name@)),
{
    let mut message = "Model ".to_owned();
    message.append(name);
    message.append(" not found");
    Status { code: Code::NotFound, message }
}

/// One input of a request.
pub struct InferInputTensor {
    pub name: String,
    pub datatype: String,
    pub shape: Vec<i64>,
}

/// A request to run a model. The bytes of input `i` are `raw_input_contents[i]`.
pub struct ModelInferRequest {
    pub model_name: String,
    pub id: String,
    pub inputs: Vec<InferInputTensor>,
    pub raw_input_contents: Vec<Vec<u8>>,
}

/// One output of a response.
pub struct InferOutputTensor {
    pub name: String,
    pub datatype: String,
    pub shape: Vec<i64>,
}

/// The answer to a request that was run.
pub struct ModelInferResponse {
    pub model_name: String,
    pub model_version: String,
    pub id: String,
    pub outputs: Vec<InferOutputTensor>,
    pub raw_output_contents: Vec<Vec<u8>>,
}

/// What is wrong with dimension `i` of an input: the batch has to be positive,
/// any other dimension has to be the model's.
pub open spec fn dim_error(name: Seq<char>, shape: Seq<i64>, dims: Seq<i64>, i: int) -> Option<Seq<char>> {
    if i == 0 {
        if shape[0] <= 0 {
            Some(
                "Input '"@ + name + "' batch size must be positive, got "@ + text::signed_decimal(shape[0] as int),
            )
        } else {
            None
        }
    } else if shape[i] != dims[i] {
        Some(
            "Input '"@ + name + "' dimension "@ + text::decimal(i as nat) + " mismatch: expected "@
                + text::signed_decimal(dims[i] as int) + ", got "@ + text::signed_decimal(shape[i] as int),
        )
    } else {
        None
    }
}

/// What is wrong with the first of the leading `n` dimensions that is wrong.
pub open spec fn first_dim_error(name: Seq<char>, shape: Seq<i64>, dims: Seq<i64>, n: nat) -> Option<Seq<char>>
    decreases n,
{
    if n == 0 {
        None
    } else {
        match first_dim_error(name, shape, dims, (n - 1) as nat) {
            Some(error) => Some(error),
            None => dim_error(name, shape, dims, n - 1),
        }
    }
}

/// What is wrong with the shape of an input.
pub open spec fn shape_error(name: Seq<char>, shape: Seq<i64>, dims: Seq<i64>) -> Option<Seq<char>> {
    if shape.len() != dims.len() {
        Some(
            "Input '"@ + name + "' shape rank mismatch: expected "@ + text::decimal(dims.len()) + ", got "@
                + text::decimal(shape.len()),
        )
    } else {
        first_dim_error(name, shape, dims, shape.len())
    }
}

/// The first of the model's inputs with that name, among those from `i` on.
pub open spec fn input_named(model: Seq<ModelInput>, name: Seq<char>, i: int) -> Option<int>
    decreases model.len() - i,
{
    if i >= model.len() {
        None
    } else if model[i].name@ == name {
        Some(i)
    } else {
        input_named(model, name, i + 1)
    }
}

/// What is wrong with an input of a request.
pub open spec fn input_error(input: InferInputTensor, model: Seq<ModelInput>) -> Option<Seq<char>> {
    match input_named(model, input.name@, 0) {
        None => Some("Unknown input '"@ + input.name@ + "' in request"@),
        Some(i) => shape_error(input.name@, input.shape@, model[i].dims@),
    }
}

/// What is wrong with the first of the leading `n` inputs that is wrong.
pub open spec fn first_input_error(inputs: Seq<InferInputTensor>, model: Seq<ModelInput>, n: nat) -> Option<Seq<char>>
    decreases n,
{
    if n == 0 {
        None
    } else {
        match first_input_error(inputs, model, (n - 1) as nat) {
            Some(error) => Some(error),
            None => input_error(inputs[n - 1], model),
        }
    }
}

proof fn lemma_dim_error_stays(name: Seq<char>, shape: Seq<i64>, dims: Seq<i64>, n: nat, m: nat)
    requires
        n <= m,
        first_dim_error(name, shape, dims, n) is Some,
    ensures
        first_dim_error(name, shape, dims, m) == first_dim_error(name, shape, dims, n),
    decreases m,
{
    if n < m {
        lemma_dim_error_stays(name, shape, dims, n, (m - 1) as nat);
    }
}

proof fn lemma_input_error_stays(inputs: Seq<InferInputTensor>, model: Seq<ModelInput>, n: nat, m: nat)
    requires
        n <= m,
        first_input_error(inputs, model, n) is Some,
    ensures
        first_input_error(inputs, model, m) == first_input_error(inputs, model, n),
    decreases m,
{
    if n < m {
        lemma_input_error_stays(inputs, model, n, (m - 1) as nat);
    }
}

fn invalid(message: String) -> (r: Status)
    ensures
        r.is(Code::InvalidArgument, message@),
{
    Status { code: Code::InvalidArgument, message }
}

/// Looks for what is wrong with dimension `i` of an input.
fn check_dim(name: &str, shape: &Vec<i64>, dims: &Vec<i64>, i: usize) -> (r: Option<String>)
    requires
        i < shape@.len(),
        shape@.len() == dims@.len(),
    ensures
        match dim_error(name@, shape@, dims@, i as int) {
            Some(error) => r matches Some(message) && message@ == error,
            None => r is None,
        },
{
    if i == 0 {
        if shape[0] <= 0 {
            let mut message = "Input '".to_owned();
            message.append(name);
            message.append("' batch size must be positive, got ");
            text::push_signed(&mut message, shape[0]);
            Some(message)
        } else {
            None
        }
    } else if shape[i] != dims[i] {
        let mut message = "Input '".to_owned();
        message.append(name);
        message.append("' dimension ");
        text::push_decimal(&mut message, i as u64);
        message.append(" mismatch: expected ");
        text::push_signed(&mut message, dims[i]);
        message.append(", got ");
        text::push_signed(&mut message, shape[i]);
        Some(message)
    } else {
        None
    }
}

/// Looks for what is wrong with the shape of an input.
fn check_shape(name: &str, shape: &Vec<i64>, dims: &Vec<i64>) -> (r: Option<String>)
    ensures
        match shape_error(name@, shape@, dims@) {
            Some(error) => r matches Some(message) && message@ == error,
            None => r is None,
        },
{
    if shape.len() != dims.len() {
        let mut message = "Input '".to_owned();
        message.append(name);
        message.append("' shape rank mismatch: expected ");
        text::push_decimal(&mut message, dims.len() as u64);
        message.append(", got ");
        text::push_decimal(&mut message, shape.len() as u64);
        return Some(message);
    }
    for i in 0..shape.len()
        invariant
            shape@.len() == dims@.len(),
            first_dim_error(name@, shape@, dims@, i as nat) is None,
    {
        if let Some(message) = check_dim(name, shape, dims, i) {
            proof {
                lemma_dim_error_stays(name@, shape@, dims@, (i + 1) as nat, shape@.len());
            }
            return Some(message);
        }
    }
    None
}

fn find_input(model: &Vec<ModelInput>, name: &str) -> (r: Option<usize>)
    ensures
        match r {
            Some(i) => i < model@.len() && input_named(model@, name@, 0) == Some(i as int),
            None => input_named(model@, name@, 0) is None,
        },
{
    for i in 0..model.len()
        invariant
            input_named(model@, name@, 0) == input_named(model@, name@, i as int),
    {
        if text::same_text(model[i].name.as_str(), name) {
            return Some(i);
        }
    }
    None
}

/// Looks for what is wrong with an input of a request.
fn check_input(input: &InferInputTensor, model: &Vec<ModelInput>) -> (r: Option<String>)
    ensures
        match input_error(*input, model@) {
            Some(error) => r matches Some(message) && message@ == error,
            None => r is None,
        },
{
    match find_input(model, input.name.as_str()) {
        None => {
            let mut message = "Unknown input '".to_owned();
            message.append(input.name.as_str());
            message.append("' in request");
            Some(message)
        },
        Some(i) => check_shape(input.name.as_str(), &input.shape, &model[i].dims),
    }
}

/// Validates the inputs of a request against the model's configuration, but
/// for dimension 0, the batch.
pub fn validate_inputs(inputs: &Vec<InferInputTensor>, model: &Vec<ModelInput>) -> (r: Result<(), Status>)
    ensures
        match first_input_error(inputs@, model@, inputs@.len()) {
            Some(error) => r matches Err(status) && status.is(Code::InvalidArgument, error),
            None => r is Ok,
        },
{
    for i in 0..inputs.len()
        invariant
            first_input_error(inputs@, model@, i as nat) is None,
    {
        if let Some(message) = check_input(&inputs[i], model) {
            proof {
                lemma_input_error_stays(inputs@, model@, (i + 1) as nat, inputs@.len());
            }
            return Err(invalid(message));
        }
    }
    Ok(())
}

/// An input that nothing is wrong with is one of the model's.
proof fn lemma_valid_input_is_known(inputs: Seq<InferInputTensor>, model: Seq<ModelInput>, n: nat, i: int)
    requires
        0 <= i < n <= inputs.len(),
        first_input_error(inputs, model, n) is None,
    ensures
        input_error(inputs[i], model) is None,
        exists|j: int| 0 <= j < model.len() && (#[trigger] model[j]).name@ == inputs[i].name@,
    decreases n,
{
    if i < n - 1 {
        lemma_valid_input_is_known(inputs, model, (n - 1) as nat, i);
    } else {
        lemma_named_input(model, inputs[i].name@, 0);
    }
}

proof fn lemma_named_input(model: Seq<ModelInput>, name: Seq<char>, i: int)
    requires
        0 <= i,
    ensures
        input_named(model, name, i) matches Some(j) ==> i <= j < model.len() && model[j].name@ == name,
    decreases model.len() - i,
{
    if i < model.len() && model[i].name@ != name {
        lemma_named_input(model, name, i + 1);
    }
}

/// A request that is let in fits the model: every input is one of the model's,
/// of the same rank, with a positive batch and otherwise the model's
/// dimensions.
pub proof fn valid_inputs_fit_the_model(inputs: Seq<InferInputTensor>, model: Seq<ModelInput>, i: int)
    requires
        first_input_error(inputs, model, inputs.len()) is None,
        0 <= i < inputs.len(),
    ensures
        exists|j: int|
            0 <= j < model.len() && fits(inputs[i], #[trigger] model[j]),
{
    lemma_valid_input_is_known(inputs, model, inputs.len(), i);
    lemma_named_input(model, inputs[i].name@, 0);
    let j = input_named(model, inputs[i].name@, 0)->0;
    let shape = inputs[i].shape@;
    let dims = model[j].dims@;
    assert forall|d: int| 0 <= d < shape.len() implies dim_error(inputs[i].name@, shape, dims, d) is None by {
        lemma_no_dim_error(inputs[i].name@, shape, dims, shape.len(), d);
    }
    assert(shape.len() > 0 ==> dim_error(inputs[i].name@, shape, dims, 0) is None);
    assert forall|d: int| 0 < d < shape.len() implies #[trigger] shape[d] == dims[d] by {
        assert(dim_error(inputs[i].name@, shape, dims, d) is None);
    }
    assert(fits(inputs[i], model[j]));
}

proof fn lemma_no_dim_error(name: Seq<char>, shape: Seq<i64>, dims: Seq<i64>, n: nat, d: int)
    requires
        0 <= d < n,
        first_dim_error(name, shape, dims, n) is None,
    ensures
        dim_error(name, shape, dims, d) is None,
    decreases n,
{
    if d < n - 1 {
        lemma_no_dim_error(name, shape, dims, (n - 1) as nat, d);
    }
}

/// An input of a request is the given one of the model.
pub open spec fn fits(input: InferInputTensor, model: ModelInput) -> bool {
    &&& input.name@ == model.name@
    &&& input.shape@.len() == model.dims@.len()
    &&& input.shape@.len() > 0 ==> input.shape@[0] > 0
    &&& forall|d: int| 0 < d < input.shape@.len() ==> #[trigger] input.shape@[d] == model.dims@[d]
}

/// The place of each input of a request among the model's.
pub open spec fn places(inputs: Seq<InferInputTensor>, proxy: ModelProxy) -> Seq<usize> {
    Seq::new(inputs.len(), |i: int| proxy.model_metadata.input_set@[inputs[i].name@].order)
}

/// Input `i` goes before input `j`: by place, and as they stand in the request
/// where the places are the same.
pub open spec fn goes_before(places: Seq<usize>, i: usize, j: usize) -> bool {
    places[i as int] < places[j as int] || (places[i as int] == places[j as int] && i < j)
}

/// `order` holds the number of every input, in the order in which they go.
pub open spec fn is_input_order(order: Seq<usize>, places: Seq<usize>) -> bool {
    &&& order.len() == places.len()
    &&& forall|k: int| 0 <= k < order.len() ==> (#[trigger] order[k]) < places.len()
    &&& forall|k: int, l: int| 0 <= k < l < order.len() ==> goes_before(places, #[trigger] order[k], #[trigger] order[l])
}

proof fn lemma_order_holds_every_input(order: Seq<usize>, places: Seq<usize>)
    requires
        is_input_order(order, places),
        places.len() <= usize::MAX,
    ensures
        order.no_duplicates(),
        forall|i: usize| order.contains(i) <==> i < places.len(),
{
    let n = places.len();
    let all = Seq::new(n, |i: int| i as usize);
    assert(order.no_duplicates()) by {
        assert forall|k: int, l: int| 0 <= k < order.len() && 0 <= l < order.len() && k != l implies order[k]
            != order[l] by {
            if k < l {
                assert(goes_before(places, order[k], order[l]));
            } else {
                assert(goes_before(places, order[l], order[k]));
            }
        }
    }
    order.unique_seq_to_set();
    all.unique_seq_to_set();
    assert forall|i: usize| all.contains(i) <==> i < n by {
        if i < n {
            assert(all[i as int] == i);
        }
    }
    assert(order.to_set().subset_of(all.to_set())) by {
        assert forall|i: usize| order.to_set().contains(i) implies all.to_set().contains(i) by {
            let k = choose|k: int| 0 <= k < order.len() && order[k] == i;
            assert(all.contains(order[k]));
        }
    }
    vstd::set_lib::lemma_subset_equality(order.to_set(), all.to_set());
    assert forall|i: usize| order.contains(i) <==> i < n by {
        assert(order.contains(i) <==> order.to_set().contains(i));
        assert(all.contains(i) <==> all.to_set().contains(i));
    }
}

/// There is one order for the inputs of a request, and it holds each of them
/// once.
pub proof fn input_order_is_unique(a: Seq<usize>, b: Seq<usize>, places: Seq<usize>)
    requires
        places.len() <= usize::MAX,
        is_input_order(a, places),
        is_input_order(b, places),
    ensures
        a == b,
        a.no_duplicates(),
        forall|i: usize| a.contains(i) <==> i < places.len(),
{
    lemma_order_holds_every_input(a, places);
    lemma_order_holds_every_input(b, places);
    let leq = |i: usize, j: usize| goes_before(places, i, j) || i == j;
    assert(vstd::relations::total_ordering(leq));
    a.lemma_multiset_has_no_duplicates();
    b.lemma_multiset_has_no_duplicates();
    assert(a.to_multiset() =~= b.to_multiset()) by {
        broadcast use vstd::seq_lib::group_to_multiset_ensures;

        assert forall|i: usize| a.to_multiset().count(i) == b.to_multiset().count(i) by {
            assert(a.contains(i) <==> b.contains(i));
        }
    }
    vstd::seq_lib::lemma_sorted_unique(a, b, leq);
}

/// The input is sent as the metadata shows it, with a positive batch.
pub open spec fn as_shown(input: InferInputTensor, meta: TensorMetadata) -> bool {
    &&& input.name@ == meta.name@
    &&& input.shape@.len() == meta.shape@.len()
    &&& input.shape@.len() > 0 ==> input.shape@[0] > 0
    &&& forall|d: int| 0 < d < input.shape@.len() ==> #[trigger] input.shape@[d] == meta.shape@[d]
}

/// A client that sends what a model's metadata shows is let in.
pub proof fn requests_as_shown_are_valid(
    proxy: ModelProxy,
    name: Seq<char>,
    config: crate::model::ModelRepositoryConfig,
    infos: Seq<crate::shapes::TensorInfo>,
    outputs: Seq<crate::shapes::TensorInfo>,
    inputs: Seq<InferInputTensor>,
    n: nat,
)
    requires
        crate::model::is_model(proxy, name, config, infos, outputs),
        forall|i: int, j: int|
            0 <= i < j < infos.len() ==> (#[trigger] infos[i]).name@ != (#[trigger] infos[j]).name@,
        n <= inputs.len(),
        forall|i: int|
            0 <= i < inputs.len() ==> exists|j: int|
                0 <= j < proxy.model_metadata.input_meta@.len() && as_shown(
                    #[trigger] inputs[i],
                    #[trigger] proxy.model_metadata.input_meta@[j],
                ),
    ensures
        first_input_error(inputs, proxy.model_config.input@, n) is None,
    decreases n,
{
    if n > 0 {
        requests_as_shown_are_valid(proxy, name, config, infos, outputs, inputs, (n - 1) as nat);
        let input = inputs[n - 1];
        let model = proxy.model_config.input@;
        let shown = proxy.model_metadata.input_meta@;
        let j = choose|j: int| 0 <= j < shown.len() && as_shown(inputs[n - 1], #[trigger] shown[j]);
        assert(crate::model::is_metadata(shown[j], infos[j], config.input_shapes@));
        assert(crate::model::is_config_input(model[j], infos[j], config.input_shapes@));
        lemma_named_input(model, input.name@, 0);
        lemma_name_is_found(model, input.name@, 0, j);
        let k = input_named(model, input.name@, 0)->0;
        assert(crate::model::is_config_input(model[k], infos[k], config.input_shapes@));
        assert(k == j);
        lemma_shape_is_valid(input.name@, input.shape@, model[j].dims@, input.shape@.len());
    }
}

proof fn lemma_name_is_found(model: Seq<ModelInput>, name: Seq<char>, i: int, j: int)
    requires
        0 <= i <= j < model.len(),
        model[j].name@ == name,
    ensures
        input_named(model, name, i) is Some,
    decreases model.len() - i,
{
    if model[i].name@ != name {
        lemma_name_is_found(model, name, i + 1, j);
    }
}

proof fn lemma_shape_is_valid(name: Seq<char>, shape: Seq<i64>, dims: Seq<i64>, n: nat)
    requires
        n <= shape.len(),
        shape.len() == dims.len(),
        shape.len() > 0 ==> shape[0] > 0,
        forall|d: int| 0 < d < shape.len() ==> #[trigger] shape[d] == dims[d],
    ensures
        first_dim_error(name, shape, dims, n) is None,
    decreases n,
{
    if n > 0 {
        lemma_shape_is_valid(name, shape, dims, (n - 1) as nat);
    }
}

/// Of a valid request with every name once, the places are those of the
/// session's inputs.
proof fn lemma_place_of_input(
    proxy: ModelProxy,
    name: Seq<char>,
    config: crate::model::ModelRepositoryConfig,
    infos: Seq<crate::shapes::TensorInfo>,
    outputs: Seq<crate::shapes::TensorInfo>,
    inputs: Seq<InferInputTensor>,
    i: int,
)
    requires
        crate::model::is_model(proxy, name, config, infos, outputs),
        infos.len() <= usize::MAX,
        forall|a: int, b: int|
            0 <= a < b < infos.len() ==> (#[trigger] infos[a]).name@ != (#[trigger] infos[b]).name@,
        first_input_error(inputs, proxy.model_config.input@, inputs.len()) is None,
        0 <= i < inputs.len(),
    ensures
        places(inputs, proxy)[i] < infos.len(),
        infos[places(inputs, proxy)[i] as int].name@ == inputs[i].name@,
{
    let model = proxy.model_config.input@;
    lemma_valid_input_is_known(inputs, model, inputs.len(), i);
    let j = choose|j: int| 0 <= j < model.len() && (#[trigger] model[j]).name@ == inputs[i].name@;
    assert(crate::model::is_config_input(model[j], infos[j], config.input_shapes@));
    crate::model::inputs_are_found_at_their_place(infos, config.input_shapes@, infos.len(), j);
}

proof fn lemma_counts_up(values: Seq<int>, k: int)
    requires
        forall|a: int, b: int| 0 <= a < b < values.len() ==> #[trigger] values[a] < #[trigger] values[b],
        forall|a: int| 0 <= a < values.len() ==> 0 <= #[trigger] values[a],
        0 <= k < values.len(),
    ensures
        values[k] >= k,
    decreases k,
{
    if k > 0 {
        lemma_counts_up(values, k - 1);
    }
}

proof fn lemma_counts_down(values: Seq<int>, k: int)
    requires
        forall|a: int, b: int| 0 <= a < b < values.len() ==> #[trigger] values[a] < #[trigger] values[b],
        forall|a: int| 0 <= a < values.len() ==> #[trigger] values[a] < values.len(),
        0 <= k < values.len(),
    ensures
        values[k] <= k,
    decreases values.len() - k,
{
    if k + 1 < values.len() {
        lemma_counts_down(values, k + 1);
    }
}

/// Where a valid request names every input of the model once, the one that goes
/// to place `k` is the session's input `k`.
pub proof fn inputs_go_to_their_place(
    proxy: ModelProxy,
    name: Seq<char>,
    config: crate::model::ModelRepositoryConfig,
    infos: Seq<crate::shapes::TensorInfo>,
    outputs: Seq<crate::shapes::TensorInfo>,
    inputs: Seq<InferInputTensor>,
    order: Seq<usize>,
    k: int,
)
    requires
        crate::model::is_model(proxy, name, config, infos, outputs),
        infos.len() <= usize::MAX,
        forall|a: int, b: int|
            0 <= a < b < infos.len() ==> (#[trigger] infos[a]).name@ != (#[trigger] infos[b]).name@,
        first_input_error(inputs, proxy.model_config.input@, inputs.len()) is None,
        inputs.len() == infos.len(),
        forall|a: int, b: int|
            0 <= a < b < inputs.len() ==> (#[trigger] inputs[a]).name@ != (#[trigger] inputs[b]).name@,
        is_input_order(order, places(inputs, proxy)),
        0 <= k < order.len(),
    ensures
        inputs[order[k] as int].name@ == infos[k].name@,
{
    let all = places(inputs, proxy);
    let values = Seq::new(order.len(), |l: int| all[order[l] as int] as int);
    assert forall|a: int, b: int| 0 <= a < b < values.len() implies #[trigger] values[a] < #[trigger] values[b] by {
        assert(goes_before(all, order[a], order[b]));
        lemma_place_of_input(proxy, name, config, infos, outputs, inputs, order[a] as int);
        lemma_place_of_input(proxy, name, config, infos, outputs, inputs, order[b] as int);
    }
    assert forall|a: int| 0 <= a < values.len() implies 0 <= #[trigger] values[a] < values.len() by {
        assert(order[a] < all.len());
        lemma_place_of_input(proxy, name, config, infos, outputs, inputs, order[a] as int);
    }
    lemma_counts_up(values, k);
    lemma_counts_down(values, k);
    assert(values[k] == k);
    lemma_place_of_input(proxy, name, config, infos, outputs, inputs, order[k] as int);
}

/// A place for the next number in a sequence that is in order.
proof fn lemma_insert_in_order(order: Seq<usize>, places: Seq<usize>, at: int, i: usize)
    requires
        forall|k: int| 0 <= k < order.len() ==> (#[trigger] order[k]) < i,
        forall|k: int, l: int| 0 <= k < l < order.len() ==> goes_before(places, #[trigger] order[k], #[trigger] order[l]),
        0 <= at <= order.len(),
        at > 0 ==> places[order[at - 1] as int] <= places[i as int],
        at < order.len() ==> places[order[at] as int] > places[i as int],
    ensures
        forall|k: int| 0 <= k <= order.len() ==> (#[trigger] order.insert(at, i)[k]) <= i,
        forall|k: int, l: int|
            0 <= k < l <= order.len() ==> goes_before(
                places,
                #[trigger] order.insert(at, i)[k],
                #[trigger] order.insert(at, i)[l],
            ),
{
    let after = order.insert(at, i);
    assert forall|k: int, l: int| 0 <= k < l <= order.len() implies goes_before(
        places,
        #[trigger] after[k],
        #[trigger] after[l],
    ) by {
        if l < at {
            assert(goes_before(places, order[k], order[l]));
        } else if k >= at + 1 {
            assert(goes_before(places, order[k - 1], order[l - 1]));
        } else if k < at && l > at {
            assert(goes_before(places, order[k], order[l - 1]));
        } else if l == at {
            if k < at - 1 {
                assert(goes_before(places, order[k], order[at - 1]));
            }
        } else {
            assert(k == at);
            if l - 1 > at {
                assert(goes_before(places, order[at], order[l - 1]));
            }
        }
    }
}

/// Puts the inputs of a request in the order of the model's.
fn order_inputs(inputs: &Vec<InferInputTensor>, metadata: &ModelMetadata, Ghost(proxy): Ghost<ModelProxy>) -> (r: Vec<
    usize,
>)
    requires
        *metadata == proxy.model_metadata,
        forall|i: int|
            0 <= i < inputs@.len() ==> metadata.input_set@.dom().contains((#[trigger] inputs@[i]).name@),
    ensures
        is_input_order(r@, places(inputs@, proxy)),
{
    let ghost all = places(inputs@, proxy);
    let mut known: Vec<usize> = Vec::new();
    let mut r: Vec<usize> = Vec::new();
    for i in 0..inputs.len()
        invariant
            *metadata == proxy.model_metadata,
            all == places(inputs@, proxy),
            forall|i: int|
                0 <= i < inputs@.len() ==> metadata.input_set@.dom().contains((#[trigger] inputs@[i]).name@),
            known@ == all.take(i as int),
            r@.len() == i,
            forall|k: int| 0 <= k < r@.len() ==> (#[trigger] r@[k]) < i,
            forall|k: int, l: int| 0 <= k < l < r@.len() ==> goes_before(all, #[trigger] r@[k], #[trigger] r@[l]),
    {
        assert(metadata.input_set@.dom().contains(inputs@[i as int].name@));
        let place = match metadata.input_set.get(inputs[i].name.as_str()) {
            Some(input) => input.order,
            None => 0,
        };
        assert(place == all[i as int]);
        known.push(place);
        assert(known@ =~= all.take(i + 1));
        let mut at: usize = r.len();
        while at > 0 && known[r[at - 1]] > place
            invariant
                at <= r@.len(),
                r@.len() == i,
                i < all.len(),
                place == all[i as int],
                known@ == all.take(i + 1),
                forall|k: int| 0 <= k < r@.len() ==> (#[trigger] r@[k]) < i,
                at < r@.len() ==> all[r@[at as int] as int] > place,
            decreases at,
        {
            at = at - 1;
        }
        proof {
            lemma_insert_in_order(r@, all, at as int, i);
        }
        r.insert(at, i);
    }
    r
}

/// A request that is ready for the model's ring.
pub struct InferPlan<'a> {
    pub proxy: &'a ModelProxy,
    /// The inputs of the request in the order of the model's.
    pub order: Vec<usize>,
}

/// The batch size that a request says it has: dimension 0 of its first input.
pub open spec fn client_batch_size(inputs: Seq<InferInputTensor>) -> Option<i64> {
    if inputs.len() > 0 && inputs[0].shape@.len() > 0 {
        Some(inputs[0].shape@[0])
    } else {
        None
    }
}

/// The batch size that a request says it has, to be counted where it is run.
pub fn read_client_batch_size(inputs: &Vec<InferInputTensor>) -> (r: Option<i64>)
    ensures
        r == client_batch_size(inputs@),
{
    if inputs.len() > 0 && inputs[0].shape.len() > 0 {
        Some(inputs[0].shape[0])
    } else {
        None
    }
}

/// One input of a request with its bytes.
pub struct TensorBytes<'a> {
    pub datatype: &'a str,
    pub shape: &'a Vec<i64>,
    pub data: &'a Vec<u8>,
}

/// The inputs of a request with their bytes.
#[verifier::external_body]
pub struct TensorList<'a> {
    tensors: SmallVec<[TensorBytes<'a>; 6]>,
}

/// What a list of inputs holds.
pub uninterp spec fn tensors_of(list: TensorList) -> Seq<TensorBytes>;

impl<'a> View for TensorList<'a> {
    type V = Seq<TensorBytes<'a>>;

    open spec fn view(&self) -> Seq<TensorBytes<'a>> {
        tensors_of(*self)
    }
}

/// Calls [`SmallVec::with_capacity`], which makes a vector with nothing in it.
#[verifier::external_body]
fn new_tensors<'a>(capacity: usize) -> (r: TensorList<'a>)
    ensures
        tensors_of(r).len() == 0,
{
    TensorList { tensors: SmallVec::with_capacity(capacity) }
}

/// Calls [`SmallVec::push`], which puts the item behind the others.
#[verifier::external_body]
fn push_tensor<'a>(list: &mut TensorList<'a>, tensor: TensorBytes<'a>)
    ensures
        tensors_of(*final(list)) == tensors_of(*old(list)).push(tensor),
{
    list.tensors.push(tensor);
}

/// Calls [`SmallVec::len`], which gives the number of items.
#[verifier::external_body]
fn count_tensors(list: &TensorList) -> (r: usize)
    ensures
        r == tensors_of(*list).len(),
{
    list.tensors.len()
}

/// Indexes a [`SmallVec`], which gives the item at that place.
#[verifier::external_body]
fn tensor_at<'b, 'a>(list: &'b TensorList<'a>, i: usize) -> (r: &'b TensorBytes<'a>)
    requires
        i < tensors_of(*list).len(),
    ensures
        *r == tensors_of(*list)[i as int],
{
    &list.tensors[i]
}

impl<'a> TensorList<'a> {
    /// The number of inputs.
    pub fn len(&self) -> (r: usize)
        ensures
            r == self@.len(),
    {
        count_tensors(self)
    }

    /// The input at place `i`.
    pub fn get(&self, i: usize) -> (r: &TensorBytes<'a>)
        requires
            i < self@.len(),
        ensures
            *r == self@[i as int],
    {
        tensor_at(self, i)
    }
}

/// `tensor` is input `i` of the request.
pub open spec fn is_tensor(tensor: TensorBytes, request: ModelInferRequest, i: int) -> bool {
    &&& tensor.datatype@ == request.inputs@[i].datatype@
    &&& *tensor.shape == request.inputs@[i].shape
    &&& *tensor.data == request.raw_input_contents@[i]
}

/// The inputs of a request with their bytes, in the given order.
pub fn ordered_tensors<'a>(request: &'a ModelInferRequest, order: &Vec<usize>) -> (r: TensorList<'a>)
    requires
        forall|k: int|
            0 <= k < order@.len() ==> (#[trigger] order@[k]) < request.inputs@.len() && order@[k]
                < request.raw_input_contents@.len(),
    ensures
        r@.len() == order@.len(),
        forall|k: int| 0 <= k < order@.len() ==> is_tensor(#[trigger] r@[k], *request, order@[k] as int),
{
    let mut r = new_tensors(order.len());
    for k in 0..order.len()
        invariant
            forall|k: int|
                0 <= k < order@.len() ==> (#[trigger] order@[k]) < request.inputs@.len() && order@[k]
                    < request.raw_input_contents@.len(),
            r@.len() == k,
            forall|l: int| 0 <= l < k ==> is_tensor(#[trigger] r@[l], *request, order@[l] as int),
    {
        let i = order[k];
        let input = &request.inputs[i];
        push_tensor(
            &mut r,
            TensorBytes {
                datatype: input.datatype.as_str(),
                shape: &input.shape,
                data: &request.raw_input_contents[i],
            },
        );
    }
    r
}

/// The number of slots that a request takes: dimension 0 of the input that
/// goes first.
pub fn slots_wanted(inputs: &Vec<InferInputTensor>, order: &Vec<usize>) -> (r: usize)
    requires
        order@.len() > 0,
        order@[0] < inputs@.len(),
        inputs@[order@[0] as int].shape@.len() > 0,
        inputs@[order@[0] as int].shape@[0] >= 0,
    ensures
        r == inputs@[order@[0] as int].shape@[0] as usize,
{
    #[verifier::truncate]
    (inputs[order[0]].shape[0] as usize)
}

/// What a session tells of one output of a run.
pub struct OutputInfo {
    pub datatype: String,
    pub shape: Vec<i64>,
}

/// The answer shows the outputs under the names of the model's, as far as both
/// reach.
pub open spec fn are_outputs(
    outputs: Seq<InferOutputTensor>,
    infos: Seq<OutputInfo>,
    meta: Seq<TensorMetadata>,
) -> bool {
    &&& outputs.len() == (if infos.len() <= meta.len() {
        infos.len()
    } else {
        meta.len()
    })
    &&& forall|i: int|
        0 <= i < outputs.len() ==> {
            &&& (#[trigger] outputs[i]).name@ == meta[i].name@
            &&& outputs[i].datatype@ == infos[i].datatype@
            &&& outputs[i].shape@ == infos[i].shape@
        }
}

/// The answer to a request that was run on the model.
pub fn infer_response(proxy: &ModelProxy, id: &str, infos: &Vec<OutputInfo>, raw_output: Vec<Vec<u8>>) -> (r:
    ModelInferResponse)
    ensures
        r.model_name@ == proxy.model_config.name@,
        r.model_version@ == "1"@,
        r.id@ == id@,
        are_outputs(r.outputs@, infos@, proxy.model_metadata.output_meta@),
        r.raw_output_contents == raw_output,
{
    let meta = &proxy.model_metadata.output_meta;
    let n = if infos.len() <= meta.len() {
        infos.len()
    } else {
        meta.len()
    };
    let mut outputs: Vec<InferOutputTensor> = Vec::new();
    for i in 0..n
        invariant
            n <= infos@.len(),
            n <= meta@.len(),
            outputs@.len() == i,
            forall|j: int|
                0 <= j < i ==> {
                    &&& (#[trigger] outputs@[j]).name@ == meta@[j].name@
                    &&& outputs@[j].datatype@ == infos@[j].datatype@
                    &&& outputs@[j].shape@ == infos@[j].shape@
                },
    {
        outputs.push(
            InferOutputTensor {
                name: meta[i].name.clone(),
                datatype: infos[i].datatype.clone(),
                shape: crate::shapes::copy_shape(&infos[i].shape),
            },
        );
    }
    ModelInferResponse {
        model_name: proxy.model_config.name.clone(),
        model_version: "1".to_owned(),
        id: id.to_owned(),
        outputs,
        raw_output_contents: raw_output,
    }
}

/// What the server says of itself.
pub struct ServerMetadataResponse {
    pub name: String,
    pub version: String,
    pub extensions: Vec<String>,
}

/// What the server says of a model.
pub struct ModelMetadataResponse<'a> {
    pub name: String,
    pub versions: Vec<String>,
    pub platform: String,
    pub inputs: &'a Vec<TensorMetadata>,
    pub outputs: &'a Vec<TensorMetadata>,
}

/// The service, with the models as they are loaded when a request comes.
pub struct TritonService {
    pub loaded_models: ModelMap,
}

impl TritonService {
    pub open spec fn wf(self) -> bool {
        self.loaded_models.wf()
    }

    pub fn new(model_map: ModelMap) -> (r: TritonService)
        ensures
            r.loaded_models == model_map,
    {
        TritonService { loaded_models: model_map }
    }

    /// The server is always live.
    pub fn server_live(&self) -> (live: bool)
        ensures
            live,
    {
        true
    }

    /// The server is always ready.
    pub fn server_ready(&self) -> (ready: bool)
        ensures
            ready,
    {
        true
    }

    /// No model is reported as ready.
    pub fn model_ready(&self, name: &str) -> (ready: bool)
        ensures
            !ready,
    {
        false
    }

    /// What the server says of itself.
    pub fn server_metadata(&self) -> (r: ServerMetadataResponse)
        ensures
            r.name@ == "inference-server"@,
            r.version@ == "1.0.0-demo"@,
            text::contents(r.extensions@) == seq!["classification"@, "model_repository"@],
    {
        let mut extensions: Vec<String> = Vec::new();
        extensions.push("classification".to_owned());
        extensions.push("model_repository".to_owned());
        assert(text::contents(extensions@) =~= seq!["classification"@, "model_repository"@]);
        ServerMetadataResponse {
            name: "inference-server".to_owned(),
            version: "1.0.0-demo".to_owned(),
            extensions,
        }
    }

    /// What the server says of a model.
    pub fn model_metadata(&self, model_name: &str) -> (r: Result<ModelMetadataResponse, Status>)
        ensures
            if self.loaded_models@.dom().contains(model_name@) {
                let proxy = self.loaded_models@[model_name@];
                &&& r matches Ok(response)
                &&& response.name@ == model_name@
                &&& text::contents(response.versions@) == seq!["1"@]
                &&& response.platform@ == "onnxruntime_onnx"@
                &&& *response.inputs == proxy.model_metadata.input_meta
                &&& *response.outputs == proxy.model_metadata.output_meta
            } else {
                r matches Err(status) && status.is(Code::NotFound, not_found(model_name@))
            },
    {
        match self.loaded_models.get(model_name) {
            Some(proxy) => {
                let mut versions: Vec<String> = Vec::new();
                versions.push("1".to_owned());
                assert(text::contents(versions@) =~= seq!["1"@]);
                Ok(
                    ModelMetadataResponse {
                        name: model_name.to_owned(),
                        versions,
                        platform: "onnxruntime_onnx".to_owned(),
                        inputs: &proxy.model_metadata.input_meta,
                        outputs: &proxy.model_metadata.output_meta,
                    },
                )
            },
            None => Err(not_found_status(model_name)),
        }
    }

    /// The configuration of a model.
    pub fn model_config(&self, model_name: &str) -> (r: Result<&ModelConfig, Status>)
        ensures
            if self.loaded_models@.dom().contains(model_name@) {
                r matches Ok(config) && *config == self.loaded_models@[model_name@].model_config
            } else {
                r matches Err(status) && status.is(Code::NotFound, not_found(model_name@))
            },
    {
        match self.loaded_models.get(model_name) {
            Some(proxy) => Ok(&proxy.model_config),
            None => Err(not_found_status(model_name)),
        }
    }

    /// Lets a request in: finds its model, validates its inputs and puts them
    /// in order. Says with a refusal what it is counted as; one for inputs that
    /// are not valid is not counted.
    pub fn model_infer(&self, request: &ModelInferRequest) -> (r: Result<InferPlan, (Status, Option<Outcome>)>)
        requires
            self.wf(),
        ensures
            if !self.loaded_models@.dom().contains(request.model_name@) {
                &&& r matches Err(refusal)
                &&& refusal.0.is(Code::NotFound, not_found(request.model_name@))
                &&& refusal.1 == Some(Outcome::NotFound)
            } else {
                let proxy = self.loaded_models@[request.model_name@];
                match first_input_error(request.inputs@, proxy.model_config.input@, request.inputs@.len()) {
                    Some(error) => {
                        &&& r matches Err(refusal)
                        &&& refusal.0.is(Code::InvalidArgument, error)
                        &&& refusal.1 is None
                    },
                    None => {
                        &&& r matches Ok(plan)
                        &&& *plan.proxy == proxy
                        &&& is_input_order(plan.order@, places(request.inputs@, proxy))
                    },
                }
            },
    {
        let proxy = match self.loaded_models.get(request.model_name.as_str()) {
            Some(proxy) => proxy,
            None => {
                return Err((not_found_status(request.model_name.as_str()), Some(Outcome::NotFound)));
            },
        };
        match validate_inputs(&request.inputs, &proxy.model_config.input) {
            Ok(()) => {},
            Err(status) => {
                return Err((status, None));
            },
        }
        proof {
            let inputs = request.inputs@;
            let model = proxy.model_config.input@;
            assert(self.loaded_models@.dom().contains(request.model_name@));
            assert forall|i: int| 0 <= i < inputs.len() implies proxy.model_metadata.input_set@.dom().contains(
                (#[trigger] inputs[i]).name@,
            ) by {
                lemma_valid_input_is_known(inputs, model, inputs.len(), i);
                let j = choose|j: int| 0 <= j < model.len() && (#[trigger] model[j]).name@ == inputs[i].name@;
                assert(proxy.model_metadata.input_set@.dom().contains(model[j].name@));
            }
        }
        let order = order_inputs(&request.inputs, &proxy.model_metadata, Ghost(*proxy));
        Ok(InferPlan { proxy, order })
    }

    /// No model is listed.
    pub fn repository_index(&self) -> (models: Vec<String>)
        ensures
            models@.len() == 0,
    {
        Vec::new()
    }
}

/// Input `j` is the first of the model's with that name.
pub open spec fn is_first_named(model: Seq<ModelInput>, name: Seq<char>, j: int) -> bool {
    &&& 0 <= j < model.len()
    &&& model[j].name@ == name
    &&& forall|k: int| 0 <= k < j ==> (#[trigger] model[k]).name@ != name
}

/// An input of a request is the first of the model's with its name.
pub open spec fn is_valid(input: InferInputTensor, model: Seq<ModelInput>) -> bool {
    exists|j: int| #[trigger] is_first_named(model, input.name@, j) && fits(input, model[j])
}

proof fn lemma_first_named(model: Seq<ModelInput>, name: Seq<char>, i: int, j: int)
    requires
        0 <= i <= j,
        is_first_named(model, name, j),
    ensures
        input_named(model, name, i) == Some(j),
    decreases j - i,
{
    if i < j {
        assert(model[i].name@ != name);
        lemma_first_named(model, name, i + 1, j);
    }
}

proof fn lemma_named_is_first(model: Seq<ModelInput>, name: Seq<char>, i: int)
    requires
        0 <= i <= model.len(),
        forall|k: int| 0 <= k < i ==> (#[trigger] model[k]).name@ != name,
    ensures
        input_named(model, name, i) matches Some(j) ==> is_first_named(model, name, j),
        input_named(model, name, i) is None ==> forall|k: int|
            0 <= k < model.len() ==> (#[trigger] model[k]).name@ != name,
    decreases model.len() - i,
{
    if i < model.len() && model[i].name@ != name {
        lemma_named_is_first(model, name, i + 1);
    }
}

proof fn lemma_valid_is_no_error(input: InferInputTensor, model: Seq<ModelInput>)
    ensures
        is_valid(input, model) <==> input_error(input, model) is None,
{
    lemma_named_is_first(model, input.name@, 0);
    let shape = input.shape@;
    if is_valid(input, model) {
        let j = choose|j: int| #[trigger] is_first_named(model, input.name@, j) && fits(input, model[j]);
        lemma_first_named(model, input.name@, 0, j);
        lemma_shape_is_valid(input.name@, shape, model[j].dims@, shape.len());
    } else if input_error(input, model) is None {
        let j = input_named(model, input.name@, 0)->0;
        let dims = model[j].dims@;
        assert forall|d: int| 0 <= d < shape.len() implies dim_error(input.name@, shape, dims, d) is None by {
            lemma_no_dim_error(input.name@, shape, dims, shape.len(), d);
        }
        assert(shape.len() > 0 ==> dim_error(input.name@, shape, dims, 0) is None);
        assert forall|d: int| 0 < d < shape.len() implies #[trigger] shape[d] == dims[d] by {
            assert(dim_error(input.name@, shape, dims, d) is None);
        }
        assert(is_first_named(model, input.name@, j) && fits(input, model[j]));
    }
}

proof fn lemma_errors_so_far(inputs: Seq<InferInputTensor>, model: Seq<ModelInput>, n: nat)
    requires
        n <= inputs.len(),
    ensures
        first_input_error(inputs, model, n) is None <==> forall|i: int|
            0 <= i < n ==> is_valid(#[trigger] inputs[i], model),
    decreases n,
{
    if n > 0 {
        lemma_errors_so_far(inputs, model, (n - 1) as nat);
        lemma_valid_is_no_error(inputs[n - 1], model);
        if forall|i: int| 0 <= i < n ==> is_valid(#[trigger] inputs[i], model) {
            assert(is_valid(inputs[n - 1], model));
            assert forall|i: int| 0 <= i < n - 1 implies is_valid(#[trigger] inputs[i], model) by {}
        }
        if first_input_error(inputs, model, n) is None {
            assert forall|i: int| 0 <= i < n implies is_valid(#[trigger] inputs[i], model) by {
                if i < n - 1 {
                    assert(is_valid(inputs[i], model));
                }
            }
        }
    }
}

/// A request is let in exactly when each of its inputs fits the first of the
/// model's with that name.
pub proof fn what_fits_is_let_in(inputs: Seq<InferInputTensor>, model: Seq<ModelInput>)
    ensures
        first_input_error(inputs, model, inputs.len()) is None <==> forall|i: int|
            0 <= i < inputs.len() ==> is_valid(#[trigger] inputs[i], model),
{
    lemma_errors_so_far(inputs, model, inputs.len());
}

proof fn lemma_first_wrong_input(inputs: Seq<InferInputTensor>, model: Seq<ModelInput>, i: int)
    requires
        0 <= i < inputs.len(),
        forall|h: int| 0 <= h < i ==> is_valid(#[trigger] inputs[h], model),
        input_error(inputs[i], model) is Some,
    ensures
        first_input_error(inputs, model, inputs.len()) == input_error(inputs[i], model),
{
    lemma_errors_so_far(inputs, model, i as nat);
    lemma_input_error_stays(inputs, model, (i + 1) as nat, inputs.len());
}

/// A request is refused for the first input that is wrong, wherever it stands: an
/// input that the model does not have is told by its name.
pub proof fn unknown_inputs_are_told(inputs: Seq<InferInputTensor>, model: Seq<ModelInput>, i: int)
    requires
        0 <= i < inputs.len(),
        forall|h: int| 0 <= h < i ==> is_valid(#[trigger] inputs[h], model),
        forall|j: int| 0 <= j < model.len() ==> (#[trigger] model[j]).name@ != inputs[i].name@,
    ensures
        first_input_error(inputs, model, inputs.len()) == Some("Unknown input '"@ + inputs[i].name@ + "' in request"@),
{
    lemma_named_input(model, inputs[i].name@, 0);
    lemma_first_wrong_input(inputs, model, i);
}

/// An input with too many or too few dimensions is told with both numbers.
pub proof fn wrong_ranks_are_told(inputs: Seq<InferInputTensor>, model: Seq<ModelInput>, i: int, j: int)
    requires
        0 <= i < inputs.len(),
        forall|h: int| 0 <= h < i ==> is_valid(#[trigger] inputs[h], model),
        is_first_named(model, inputs[i].name@, j),
        inputs[i].shape@.len() != model[j].dims@.len(),
    ensures
        first_input_error(inputs, model, inputs.len()) == Some(
            "Input '"@ + inputs[i].name@ + "' shape rank mismatch: expected "@ + text::decimal(model[j].dims@.len())
                + ", got "@ + text::decimal(inputs[i].shape@.len()),
        ),
{
    lemma_first_named(model, inputs[i].name@, 0, j);
    lemma_first_wrong_input(inputs, model, i);
}

/// An input with a batch that is not positive is told with it.
pub proof fn empty_batches_are_told(inputs: Seq<InferInputTensor>, model: Seq<ModelInput>, i: int, j: int)
    requires
        0 <= i < inputs.len(),
        forall|h: int| 0 <= h < i ==> is_valid(#[trigger] inputs[h], model),
        is_first_named(model, inputs[i].name@, j),
        inputs[i].shape@.len() == model[j].dims@.len(),
        inputs[i].shape@.len() > 0,
        inputs[i].shape@[0] <= 0,
    ensures
        first_input_error(inputs, model, inputs.len()) == Some(
            "Input '"@ + inputs[i].name@ + "' batch size must be positive, got "@ + text::signed_decimal(
                inputs[i].shape@[0] as int,
            ),
        ),
{
    let name = inputs[i].name@;
    let shape = inputs[i].shape@;
    let dims = model[j].dims@;
    lemma_first_named(model, name, 0, j);
    assert(first_dim_error(name, shape, dims, 0) is None);
    assert(first_dim_error(name, shape, dims, 1) is Some);
    lemma_dim_error_stays(name, shape, dims, 1, shape.len());
    lemma_first_wrong_input(inputs, model, i);
}

/// Of an input with other dimensions than the model's, the first that differs is
/// told, with what it should be and what it is.
pub proof fn wrong_dimensions_are_told(inputs: Seq<InferInputTensor>, model: Seq<ModelInput>, i: int, j: int, d: int)
    requires
        0 <= i < inputs.len(),
        forall|h: int| 0 <= h < i ==> is_valid(#[trigger] inputs[h], model),
        is_first_named(model, inputs[i].name@, j),
        inputs[i].shape@.len() == model[j].dims@.len(),
        0 < d < inputs[i].shape@.len(),
        inputs[i].shape@[0] > 0,
        forall|e: int| 0 < e < d ==> #[trigger] inputs[i].shape@[e] == model[j].dims@[e],
        inputs[i].shape@[d] != model[j].dims@[d],
    ensures
        first_input_error(inputs, model, inputs.len()) == Some(
            "Input '"@ + inputs[i].name@ + "' dimension "@ + text::decimal(d as nat) + " mismatch: expected "@
                + text::signed_decimal(model[j].dims@[d] as int) + ", got "@ + text::signed_decimal(
                inputs[i].shape@[d] as int,
            ),
        ),
{
    let name = inputs[i].name@;
    let shape = inputs[i].shape@;
    let dims = model[j].dims@;
    lemma_first_named(model, name, 0, j);
    lemma_no_error_before(name, shape, dims, d as nat);
    assert(first_dim_error(name, shape, dims, (d + 1) as nat) is Some);
    lemma_dim_error_stays(name, shape, dims, (d + 1) as nat, shape.len());
    lemma_first_wrong_input(inputs, model, i);
}

proof fn lemma_no_error_before(name: Seq<char>, shape: Seq<i64>, dims: Seq<i64>, n: nat)
    requires
        n <= shape.len(),
        n > 0 ==> shape[0] > 0,
        forall|e: int| 0 < e < n ==> #[trigger] shape[e] == dims[e],
    ensures
        first_dim_error(name, shape, dims, n) is None,
    decreases n,
{
    if n > 0 {
        lemma_no_error_before(name, shape, dims, (n - 1) as nat);
        if n > 1 {
            assert(shape[n - 1] == dims[n - 1]);
        }
    }
}

/// The inputs of a request go by the places that the model has for their names,
/// and those with the same place in the order in which they were sent. None is
/// left out.
pub proof fn inputs_go_by_place(
    inputs: Seq<InferInputTensor>,
    proxy: ModelProxy,
    order: Seq<usize>,
    k: int,
    l: int,
)
    requires
        inputs.len() <= usize::MAX,
        is_input_order(order, places(inputs, proxy)),
        0 <= k < l < inputs.len(),
    ensures
        ({
            let set = proxy.model_metadata.input_set@;
            let a = order[k];
            let b = order[l];
            &&& order.len() == inputs.len()
            &&& a < inputs.len()
            &&& b < inputs.len()
            &&& a != b
            &&& set[inputs[a as int].name@].order <= set[inputs[b as int].name@].order
            &&& set[inputs[a as int].name@].order == set[inputs[b as int].name@].order ==> a < b
            &&& order.contains(k as usize)
        }),
{
    assert(goes_before(places(inputs, proxy), order[k], order[l]));
    lemma_order_holds_every_input(order, places(inputs, proxy));
}

/// A request says its batch size with dimension 0 of its first input.
pub proof fn first_inputs_say_the_batch_size(inputs: Seq<InferInputTensor>)
    ensures
        client_batch_size(inputs) is Some <==> inputs.len() > 0 && inputs[0].shape@.len() > 0,
        client_batch_size(inputs) matches Some(n) ==> n == inputs[0].shape@[0],
{
}

/// A full ring is told from a session that failed, by the code, by what is counted
/// and by the words, and a session is quoted.
pub proof fn errors_are_told_apart(message: String)
    ensures
        error_code(InferError::RingFull) == Code::ResourceExhausted,
        error_code(InferError::SessionRun(message)) == Code::Internal,
        error_outcome(InferError::RingFull) == Outcome::ResourceExhausted,
        error_outcome(InferError::SessionRun(message)) == Outcome::Error,
        error_text(InferError::SessionRun(message)) == message@,
{
}

/// A refusal for a model that is not loaded quotes its name.
pub proof fn missing_models_are_named(status: Status, code: Code, name: Seq<char>)
    requires
        status.is(code, not_found(name)),
    ensures
        status.code == code,
        status.message@ == "Model "@ + name + " not found"@,
{
}

/// Every output that the session gives and the model has a name for is shown, under
/// that name, with the type and the shape that the session tells.
pub proof fn every_output_is_shown(
    outputs: Seq<InferOutputTensor>,
    infos: Seq<OutputInfo>,
    meta: Seq<TensorMetadata>,
    i: int,
)
    requires
        are_outputs(outputs, infos, meta),
        0 <= i,
    ensures
        i < outputs.len() <==> i < infos.len() && i < meta.len(),
        i < outputs.len() ==> {
            &&& outputs[i].name@ == meta[i].name@
            &&& outputs[i].datatype@ == infos[i].datatype@
            &&& outputs[i].shape@ == infos[i].shape@
        },
{
}

/// An input is handed on with its own type, shape and bytes.
pub proof fn inputs_keep_their_bytes(tensor: TensorBytes, request: ModelInferRequest, i: int)
    requires
        is_tensor(tensor, request, i),
    ensures
        tensor.datatype@ == request.inputs@[i].datatype@,
        tensor.shape@ == request.inputs@[i].shape@,
        tensor.data@ == request.raw_input_contents@[i]@,
{
}

/// Inputs are found valid exactly when each fits the first of the model's with its
/// name, however many there are, and otherwise refused as an invalid argument.
pub proof fn inputs_are_checked(inputs: &Vec<InferInputTensor>, model: &Vec<ModelInput>, r: Result<(), Status>)
    requires
        call_ensures(validate_inputs, (inputs, model), r),
    ensures
        r is Ok <==> forall|i: int| 0 <= i < inputs@.len() ==> is_valid(#[trigger] inputs@[i], model@),
        r matches Err(status) ==> status.code == Code::InvalidArgument && Some(status.message@) == first_input_error(
            inputs@,
            model@,
            inputs@.len(),
        ),
{
    what_fits_is_let_in(inputs@, model@);
}

/// A request is let in exactly when its model is loaded and each of its inputs fits
/// the model. It is planned for that model, with its inputs by place. A request for
/// another model is refused as not found and counted so, and one with an input that
/// does not fit is refused as an invalid argument and not counted.
pub proof fn requests_are_let_in_for_their_model<'a>(
    service: &'a TritonService,
    request: &'a ModelInferRequest,
    r: Result<InferPlan<'a>, (Status, Option<Outcome>)>,
    k: int,
    l: int,
)
    requires
        call_ensures(TritonService::model_infer, (service, request), r),
        request.inputs@.len() <= usize::MAX,
    ensures
        ({
            let loaded = service.loaded_models@.dom().contains(request.model_name@);
            let proxy = service.loaded_models@[request.model_name@];
            let inputs = request.inputs@;
            let valid = forall|i: int|
                0 <= i < inputs.len() ==> is_valid(#[trigger] inputs[i], proxy.model_config.input@);
            &&& r is Ok <==> loaded && valid
            &&& r matches Ok(plan) ==> {
                &&& *plan.proxy == proxy
                &&& plan.order@.len() == inputs.len()
                &&& plan.order@.no_duplicates()
                &&& 0 <= k < inputs.len() ==> plan.order@[k] < inputs.len()
                &&& 0 <= k < l < inputs.len() ==> proxy.model_metadata.input_set@[inputs[plan.order@[k] as int].name@].order
                    <= proxy.model_metadata.input_set@[inputs[plan.order@[l] as int].name@].order
            }
            &&& r matches Err(refusal) ==> {
                &&& !loaded ==> refusal.0.code == Code::NotFound && refusal.1 == Some(Outcome::NotFound)
                &&& !loaded ==> refusal.0.message@ == "Model "@ + request.model_name@ + " not found"@
                &&& loaded ==> refusal.0.code == Code::InvalidArgument && refusal.1 is None
            }
        }),
{
    let proxy = service.loaded_models@[request.model_name@];
    what_fits_is_let_in(request.inputs@, proxy.model_config.input@);
    if let Ok(plan) = r {
        lemma_order_holds_every_input(plan.order@, places(request.inputs@, proxy));
        if 0 <= k < request.inputs@.len() {
            assert(plan.order@[k] < request.inputs@.len());
        }
        if 0 <= k < l < request.inputs@.len() {
            inputs_go_by_place(request.inputs@, proxy, plan.order@, k, l);
        }
    }
}

/// The inputs are handed on in the order of the plan, each with its own type, shape
/// and bytes.
pub proof fn every_input_is_handed_on<'a>(
    request: &'a ModelInferRequest,
    order: &Vec<usize>,
    r: TensorList<'a>,
    k: int,
)
    requires
        call_ensures(ordered_tensors, (request, order), r),
    ensures
        r@.len() == order@.len(),
        0 <= k < order@.len() ==> {
            &&& r@[k].datatype@ == request.inputs@[order@[k] as int].datatype@
            &&& r@[k].shape@ == request.inputs@[order@[k] as int].shape@
            &&& r@[k].data@ == request.raw_input_contents@[order@[k] as int]@
        },
{
    if 0 <= k < order@.len() {
        assert(is_tensor(r@[k], *request, order@[k] as int));
    }
}

/// A request takes as many slots as the batch of the input that goes first.
pub proof fn requests_take_their_batch(inputs: &Vec<InferInputTensor>, order: &Vec<usize>, r: usize)
    requires
        call_ensures(slots_wanted, (inputs, order), r),
        0 <= inputs@[order@[0] as int].shape@[0] <= usize::MAX,
    ensures
        r == inputs@[order@[0] as int].shape@[0],
{
}

/// An answer is that of the model to the request of that id: it has every output that
/// the session gives and the model has a name for, and the bytes as they are.
pub proof fn answers_are_those_of_the_model(
    proxy: &ModelProxy,
    id: &str,
    infos: &Vec<OutputInfo>,
    raw_output: Vec<Vec<u8>>,
    r: ModelInferResponse,
    i: int,
)
    requires
        call_ensures(infer_response, (proxy, id, infos, raw_output), r),
        0 <= i,
    ensures
        r.model_name@ == proxy.model_config.name@,
        r.model_version@ == "1"@,
        r.id@ == id@,
        r.raw_output_contents@ == raw_output@,
        i < r.outputs@.len() <==> i < infos@.len() && i < proxy.model_metadata.output_meta@.len(),
        i < r.outputs@.len() ==> {
            &&& r.outputs@[i].name@ == proxy.model_metadata.output_meta@[i].name@
            &&& r.outputs@[i].datatype@ == infos@[i].datatype@
            &&& r.outputs@[i].shape@ == infos@[i].shape@
        },
{
    every_output_is_shown(r.outputs@, infos@, proxy.model_metadata.output_meta@, i);
}

/// A model that is loaded is shown with its own inputs, outputs and configuration,
/// and one that is not is told by its name.
pub proof fn loaded_models_are_shown<'a>(
    service: &'a TritonService,
    name: &'a str,
    meta: Result<ModelMetadataResponse<'a>, Status>,
    config: Result<&'a ModelConfig, Status>,
)
    requires
        call_ensures(TritonService::model_metadata, (service, name), meta),
        call_ensures(TritonService::model_config, (service, name), config),
    ensures
        ({
            let loaded = service.loaded_models@.dom().contains(name@);
            let proxy = service.loaded_models@[name@];
            &&& meta is Ok <==> loaded
            &&& config is Ok <==> loaded
            &&& meta matches Ok(response) ==> response.name@ == name@ && *response.inputs
                == proxy.model_metadata.input_meta && *response.outputs == proxy.model_metadata.output_meta
            &&& config matches Ok(shown) ==> *shown == proxy.model_config
            &&& meta matches Err(status) ==> status.code == Code::NotFound && status.message@ == "Model "@ + name@
                + " not found"@
            &&& config matches Err(status) ==> status.code == Code::NotFound && status.message@ == "Model "@ + name@
                + " not found"@
        }),
{
}

/// A client is told of an error in the words of the session, with a code of its own,
/// and a full ring is told apart from it.
pub proof fn errors_are_answered(err: &InferError, status: Status, outcome: Outcome)
    requires
        call_ensures(infer_error_to_status, (err,), status),
        call_ensures(infer_error_outcome, (err,), outcome),
    ensures
        *err matches InferError::SessionRun(message) ==> {
            &&& status.code == Code::Internal
            &&& status.message@ == message@
            &&& outcome == Outcome::Error
        },
        *err == InferError::RingFull ==> status.code == Code::ResourceExhausted && outcome
            == Outcome::ResourceExhausted,
{
}

/// The batch size that is counted is dimension 0 of the first input.
pub proof fn batch_sizes_are_read(inputs: &Vec<InferInputTensor>, r: Option<i64>)
    requires
        call_ensures(read_client_batch_size, (inputs,), r),
    ensures
        r is Some <==> inputs@.len() > 0 && inputs@[0].shape@.len() > 0,
        r matches Some(n) ==> n == inputs@[0].shape@[0],
{
}

}
