//! Sessions whose inputs and outputs stay on the device: what is bound, and how
//! the outputs of a run come back.
use crate::response::OutputMeta;
use crate::shapes;
use smallvec::SmallVec;
use vstd::prelude::*;

verus! {

/// A tensor to be bound under a name.
pub struct BoundTensor {
    pub name: String,
    pub data_type: i32,
    pub shape: Vec<i64>,
}

/// Tensors to be bound, in order.
#[verifier::external_body]
pub struct BoundList {
    tensors: SmallVec<[BoundTensor; 6]>,
}

/// What a list of tensors holds.
pub uninterp spec fn bound_of(list: BoundList) -> Seq<BoundTensor>;

impl View for BoundList {
    type V = Seq<BoundTensor>;

    open spec fn view(&self) -> Seq<BoundTensor> {
        bound_of(*self)
    }
}

/// Calls [`SmallVec::new`], which makes a vector with nothing in it.
#[verifier::external_body]
fn new_bound() -> (r: BoundList)
    ensures
        bound_of(r).len() == 0,
{
    BoundList { tensors: SmallVec::new() }
}

/// Calls [`SmallVec::push`], which puts the item behind the others.
#[verifier::external_body]
fn push_bound(list: &mut BoundList, item: BoundTensor)
    ensures
        bound_of(*final(list)) == bound_of(*old(list)).push(item),
{
    list.tensors.push(item);
}

/// Calls [`SmallVec::len`], which gives the number of items.
#[verifier::external_body]
fn count_bound(list: &BoundList) -> (r: usize)
    ensures
        r == bound_of(*list).len(),
{
    list.tensors.len()
}

/// Indexes a [`SmallVec`], which gives the item at that place.
#[verifier::external_body]
fn bound_at(list: &BoundList, i: usize) -> (r: &BoundTensor)
    requires
        i < bound_of(*list).len(),
    ensures
        *r == bound_of(*list)[i as int],
{
    &list.tensors[i]
}

impl BoundList {
    /// No tensors.
    pub fn new() -> (r: BoundList)
        ensures
            r@ == Seq::<BoundTensor>::empty(),
    {
        let r = new_bound();
        assert(r@ =~= Seq::<BoundTensor>::empty());
        r
    }

    pub fn push(&mut self, item: BoundTensor)
        ensures
            final(self)@ == old(self)@.push(item),
    {
        push_bound(self, item);
    }

    pub fn len(&self) -> (r: usize)
        ensures
            r == self@.len(),
    {
        count_bound(self)
    }

    pub fn get(&self, i: usize) -> (r: &BoundTensor)
        requires
            i < self@.len(),
        ensures
            *r == self@[i as int],
    {
        bound_at(self, i)
    }
}

/// Type and shape of each tensor that an output lands in, in order.
#[verifier::external_body]
pub struct LandingList {
    landings: SmallVec<[OutputMeta; 4]>,
}

/// What a list of landing tensors holds.
pub uninterp spec fn landings_of(list: LandingList) -> Seq<OutputMeta>;

impl View for LandingList {
    type V = Seq<OutputMeta>;

    open spec fn view(&self) -> Seq<OutputMeta> {
        landings_of(*self)
    }
}

/// Calls [`SmallVec::new`], which makes a vector with nothing in it.
#[verifier::external_body]
fn new_landings() -> (r: LandingList)
    ensures
        landings_of(r).len() == 0,
{
    LandingList { landings: SmallVec::new() }
}

/// Calls [`SmallVec::push`], which puts the item behind the others.
#[verifier::external_body]
fn push_landing(list: &mut LandingList, item: OutputMeta)
    ensures
        landings_of(*final(list)) == landings_of(*old(list)).push(item),
{
    list.landings.push(item);
}

/// Calls [`SmallVec::len`], which gives the number of items.
#[verifier::external_body]
fn count_landings(list: &LandingList) -> (r: usize)
    ensures
        r == landings_of(*list).len(),
{
    list.landings.len()
}

/// Indexes a [`SmallVec`], which gives the item at that place.
#[verifier::external_body]
fn landing_at(list: &LandingList, i: usize) -> (r: &OutputMeta)
    requires
        i < landings_of(*list).len(),
    ensures
        *r == landings_of(*list)[i as int],
{
    &list.landings[i]
}

impl LandingList {
    /// No landing tensors.
    pub fn new() -> (r: LandingList)
        ensures
            r@ == Seq::<OutputMeta>::empty(),
    {
        let r = new_landings();
        assert(r@ =~= Seq::<OutputMeta>::empty());
        r
    }

    pub fn push(&mut self, item: OutputMeta)
        ensures
            final(self)@ == old(self)@.push(item),
    {
        push_landing(self, item);
    }

    pub fn len(&self) -> (r: usize)
        ensures
            r == self@.len(),
    {
        count_landings(self)
    }

    pub fn get(&self, i: usize) -> (r: &OutputMeta)
        requires
            i < self@.len(),
        ensures
            *r == self@[i as int],
    {
        landing_at(self, i)
    }
}

/// The tensors of a session, in the order of the session's inputs and outputs.
pub struct GpuBoundIoSpec {
    pub inputs: BoundList,
    pub outputs: BoundList,
}

/// Which of the session's tensors to bind.
#[derive(Clone, Copy, Debug, PartialEq, Eq, Structural)]
pub enum BindStep {
    Input(usize),
    Output(usize),
}

/// Every input in order, and then every output.
pub open spec fn bind_order(inputs: nat, outputs: nat) -> Seq<BindStep> {
    Seq::new(inputs, |i: int| BindStep::Input(i as usize)) + Seq::new(outputs, |i: int| BindStep::Output(i as usize))
}

impl GpuBoundIoSpec {
    /// In which order the tensors are made and bound.
    pub fn bind_steps(&self) -> (r: Vec<BindStep>)
        ensures
            r@ == bind_order(self.inputs@.len(), self.outputs@.len()),
    {
        let mut r: Vec<BindStep> = Vec::new();
        let inputs = self.inputs.len();
        let outputs = self.outputs.len();
        assert(r@ =~= bind_order(0, 0));
        for i in 0..inputs
            invariant
                r@ == bind_order(i as nat, 0),
        {
            r.push(BindStep::Input(i));
            assert(r@ =~= bind_order((i + 1) as nat, 0));
        }
        for i in 0..outputs
            invariant
                r@ == bind_order(inputs as nat, i as nat),
        {
            r.push(BindStep::Output(i));
            assert(r@ =~= bind_order(inputs as nat, (i + 1) as nat));
        }
        r
    }

    /// Type and shape of the tensors that the outputs land in.
    pub fn output_dtypes_shapes(&self) -> (r: LandingList)
        ensures
            r@.len() == self.outputs@.len(),
            forall|i: int|
                0 <= i < r@.len() ==> (#[trigger] r@[i]).data_type == self.outputs@[i].data_type && r@[i].shape@
                    == self.outputs@[i].shape@,
    {
        let mut r = LandingList::new();
        let n = self.outputs.len();
        for i in 0..n
            invariant
                n == self.outputs@.len(),
                r@.len() == i,
                forall|j: int|
                    0 <= j < i ==> (#[trigger] r@[j]).data_type == self.outputs@[j].data_type && r@[j].shape@
                        == self.outputs@[j].shape@,
        {
            let output = self.outputs.get(i);
            r.push(OutputMeta { data_type: output.data_type, shape: shapes::copy_shape(&output.shape) });
        }
        r
    }
}

/// How one output is copied from the device.
#[derive(Clone, Copy, Debug, PartialEq, Eq, Structural)]
pub enum CopyMode {
    /// Queued on the stream.
    Queued,
    /// Waited for, and with it all that is queued before.
    Waited,
}

/// How the outputs of a run are copied: as many as there are outputs and
/// landing shapes; the last of the outputs is waited for.
pub open spec fn copy_modes(outputs: nat, shapes: nat) -> Seq<CopyMode> {
    let n = if outputs <= shapes {
        outputs
    } else {
        shapes
    };
    Seq::new(
        n,
        |i: int|
            if i + 1 == outputs {
                CopyMode::Waited
            } else {
                CopyMode::Queued
            },
    )
}

/// Plans the copies of the outputs of a run from the device.
pub fn plan_output_copies(outputs: usize, shapes: usize) -> (r: Vec<CopyMode>)
    ensures
        r@ == copy_modes(outputs as nat, shapes as nat),
{
    let n = if outputs <= shapes {
        outputs
    } else {
        shapes
    };
    let mut r: Vec<CopyMode> = Vec::new();
    for i in 0..n
        invariant
            n <= outputs,
            n <= shapes,
            r@ == copy_modes(outputs as nat, shapes as nat).take(i as int),
            n == copy_modes(outputs as nat, shapes as nat).len(),
    {
        r.push(
            if i + 1 == outputs {
                CopyMode::Waited
            } else {
                CopyMode::Queued
            },
        );
        assert(r@ =~= copy_modes(outputs as nat, shapes as nat).take(i + 1));
    }
    assert(copy_modes(outputs as nat, shapes as nat).take(n as int) =~= copy_modes(outputs as nat, shapes as nat));
    r
}

/// Where every output has a landing shape, a run waits once, behind all its
/// copies.
pub proof fn copies_are_waited_for_once(outputs: nat, shapes: nat)
    requires
        0 < outputs <= shapes,
    ensures
        copy_modes(outputs, shapes).len() == outputs,
        forall|i: int|
            0 <= i < outputs ==> ((#[trigger] copy_modes(outputs, shapes)[i]) == CopyMode::Waited <==> i == outputs - 1),
{
}

/// Every input is bound once, at its place, and every output once, behind all
/// inputs, however many there are.
pub proof fn every_tensor_is_bound(tensors: &GpuBoundIoSpec, r: Vec<BindStep>, i: int)
    requires
        call_ensures(GpuBoundIoSpec::bind_steps, (tensors,), r),
        tensors.inputs@.len() <= usize::MAX,
        tensors.outputs@.len() <= usize::MAX,
    ensures
        r@.len() == tensors.inputs@.len() + tensors.outputs@.len(),
        0 <= i < tensors.inputs@.len() ==> r@[i] == BindStep::Input(i as usize),
        0 <= i < tensors.outputs@.len() ==> r@[tensors.inputs@.len() + i] == BindStep::Output(i as usize),
{
}

/// Every output lands in a tensor of its own type and shape.
pub proof fn outputs_land_in_their_shape(tensors: &GpuBoundIoSpec, r: LandingList, i: int)
    requires
        call_ensures(GpuBoundIoSpec::output_dtypes_shapes, (tensors,), r),
    ensures
        r@.len() == tensors.outputs@.len(),
        0 <= i < r@.len() ==> r@[i].data_type == tensors.outputs@[i].data_type && r@[i].shape@
            == tensors.outputs@[i].shape@,
{
}

/// Every output that has a landing shape is copied, and only the last of all the
/// outputs is waited for.
pub proof fn every_output_is_copied(outputs: usize, shapes: usize, r: Vec<CopyMode>, i: int)
    requires
        call_ensures(plan_output_copies, (outputs, shapes), r),
        0 <= i,
    ensures
        i < r@.len() <==> i < outputs && i < shapes,
        i < r@.len() ==> (r@[i] == CopyMode::Waited <==> i == outputs - 1),
{
}

/// Tensors to be bound are kept in order, however many there are: one that is added
/// comes last, and those before it stay.
pub proof fn bound_tensors_are_kept(
    list: &mut BoundList,
    added: BoundTensor,
    after: &BoundList,
    len: usize,
    i: usize,
    r: &BoundTensor,
)
    requires
        call_ensures(BoundList::push, (list, added), ()),
        *after == *final(list),
        call_ensures(BoundList::len, (after,), len),
        call_ensures(BoundList::get, (after, i), r),
    ensures
        len == old(list)@.len() + 1,
        i == old(list)@.len() ==> *r == added,
        i < old(list)@.len() ==> *r == old(list)@[i as int],
{
}

/// So are the tensors that outputs land in.
pub proof fn landing_tensors_are_kept(
    list: &mut LandingList,
    added: OutputMeta,
    after: &LandingList,
    len: usize,
    i: usize,
    r: &OutputMeta,
)
    requires
        call_ensures(LandingList::push, (list, added), ()),
        *after == *final(list),
        call_ensures(LandingList::len, (after,), len),
        call_ensures(LandingList::get, (after, i), r),
    ensures
        len == old(list)@.len() + 1,
        i == old(list)@.len() ==> *r == added,
        i < old(list)@.len() ==> *r == old(list)@[i as int],
{
}

}
