//! Tensor shapes and the overrides that a model's configuration puts on them.
use crate::text;
use vstd::prelude::*;

verus! {

/// What a session tells of one of its inputs or outputs.
pub struct TensorInfo {
    pub name: String,
    /// Number of the element type in the protocol.
    pub data_type: i32,
    /// Name of the element type in the protocol's metadata.
    pub datatype: String,
    pub shape: Vec<i64>,
}

/// Shapes configured per tensor name, over what the model declares.
pub struct ShapeOverrides {
    pub entries: Vec<(String, Vec<i64>)>,
}

/// Whether some entry of `entries` has the given name.
pub open spec fn has_name(entries: Seq<(String, Vec<i64>)>, name: Seq<char>) -> bool {
    exists|i: int| 0 <= i < entries.len() && (#[trigger] entries[i]).0@ == name
}

/// The dimensions of the entry with the given name.
pub open spec fn dims_named(entries: Seq<(String, Vec<i64>)>, name: Seq<char>) -> Seq<i64> {
    entries[choose|i: int| 0 <= i < entries.len() && (#[trigger] entries[i]).0@ == name].1@
}

impl View for ShapeOverrides {
    type V = Map<Seq<char>, Seq<i64>>;

    open spec fn view(&self) -> Map<Seq<char>, Seq<i64>> {
        Map::new(|name: Seq<char>| has_name(self.entries@, name), |name: Seq<char>| dims_named(self.entries@, name))
    }
}

impl ShapeOverrides {
    /// No name is configured twice.
    pub open spec fn wf(self) -> bool {
        forall|i: int, j: int|
            0 <= i < j < self.entries@.len() ==> (#[trigger] self.entries@[i]).0@ != (#[trigger] self.entries@[j]).0@
    }

    pub fn new() -> (r: ShapeOverrides)
        ensures
            r.wf(),
            r@ == Map::<Seq<char>, Seq<i64>>::empty(),
    {
        let r = ShapeOverrides { entries: Vec::new() };
        assert(r@ =~= Map::<Seq<char>, Seq<i64>>::empty());
        r
    }

    /// Index of the entry with the given name.
    fn find(&self, name: &str) -> (r: Option<usize>)
        requires
            self.wf(),
        ensures
            match r {
                Some(i) => i < self.entries@.len() && self.entries@[i as int].0@ == name@ && self@.dom().contains(name@)
                    && self@[name@] == self.entries@[i as int].1@,
                None => !self@.dom().contains(name@),
            },
    {
        for i in 0..self.entries.len()
            invariant
                self.wf(),
                forall|j: int| 0 <= j < i ==> (#[trigger] self.entries@[j]).0@ != name@,
        {
            if text::same_text(self.entries[i].0.as_str(), name) {
                assert(has_name(self.entries@, name@));
                return Some(i);
            }
        }
        None
    }

    /// Sets the shape of `name`, in place of one set before.
    pub fn insert(&mut self, name: String, dims: Vec<i64>)
        requires
            old(self).wf(),
        ensures
            final(self).wf(),
            final(self)@ == old(self)@.insert(name@, dims@),
    {
        let found = self.find(name.as_str());
        let ghost before = self.entries@;
        match found {
            Some(i) => {
                self.entries.set(i, (name, dims));
                proof {
                    assert(self.entries@ == before.update(i as int, (name, dims)));
                    assert forall|k: Seq<char>| has_name(self.entries@, k) <==> has_name(before, k) by {
                        if has_name(before, k) {
                            let j = choose|j: int| 0 <= j < before.len() && (#[trigger] before[j]).0@ == k;
                            assert(self.entries@[j].0@ == k);
                        }
                        if has_name(self.entries@, k) {
                            let j = choose|j: int| 0 <= j < before.len() && (#[trigger] self.entries@[j]).0@ == k;
                            assert(before[j].0@ == k);
                        }
                    }
                    assert forall|k: Seq<char>| has_name(before, k) implies dims_named(self.entries@, k) == (if k
                        == name@ {
                        dims@
                    } else {
                        dims_named(before, k)
                    }) by {
                        let j = choose|j: int| 0 <= j < before.len() && (#[trigger] self.entries@[j]).0@ == k;
                        let l = choose|l: int| 0 <= l < before.len() && (#[trigger] before[l]).0@ == k;
                        assert(has_name(self.entries@, k));
                        assert(before[j].0@ == k);
                        if k == name@ {
                            assert(self.entries@[i as int].0@ == k);
                        }
                    }
                    assert(self@ =~= old(self)@.insert(name@, dims@));
                }
            },
            None => {
                self.entries.push((name, dims));
                proof {
                    let after = self.entries@;
                    let n = before.len() as int;
                    assert(after[n].0@ == name@);
                    assert forall|k: Seq<char>| has_name(after, k) <==> (has_name(before, k) || k == name@) by {
                        if has_name(before, k) {
                            let j = choose|j: int| 0 <= j < before.len() && (#[trigger] before[j]).0@ == k;
                            assert(after[j].0@ == k);
                        }
                        if has_name(after, k) {
                            let j = choose|j: int| 0 <= j < after.len() && (#[trigger] after[j]).0@ == k;
                            if j < n {
                                assert(before[j].0@ == k);
                            }
                        }
                    }
                    assert forall|k: Seq<char>| has_name(after, k) implies dims_named(after, k) == (if k == name@ {
                        dims@
                    } else {
                        dims_named(before, k)
                    }) by {
                        let j = choose|j: int| 0 <= j < after.len() && (#[trigger] after[j]).0@ == k;
                        if j < n {
                            assert(before[j].0@ == k);
                            let l = choose|l: int| 0 <= l < before.len() && (#[trigger] before[l]).0@ == k;
                            assert(before[l].0@ == k);
                        }
                    }
                    assert(self@ =~= old(self)@.insert(name@, dims@));
                }
            },
        }
    }

    /// The shape configured for `name`.
    pub fn get(&self, name: &str) -> (r: Option<&Vec<i64>>)
        requires
            self.wf(),
        ensures
            match r {
                Some(dims) => self@.dom().contains(name@) && dims@ == self@[name@],
                None => !self@.dom().contains(name@),
            },
    {
        match self.find(name) {
            Some(i) => Some(&self.entries[i].1),
            None => None,
        }
    }
}

/// `shape` with its dimensions from `from` on replaced by those of `dims`, as
/// far as both reach.
pub open spec fn overlay(shape: Seq<i64>, dims: Seq<i64>, from: int) -> Seq<i64> {
    Seq::new(
        shape.len(),
        |i: int|
            if from <= i < dims.len() {
                dims[i]
            } else {
                shape[i]
            },
    )
}

/// The shape that a model reports for the tensor `name`: what it declares,
/// under what is configured for it.
pub open spec fn reported_shape(
    shape: Seq<i64>,
    overrides: Map<Seq<char>, Seq<i64>>,
    name: Seq<char>,
) -> Seq<i64> {
    if overrides.dom().contains(name) {
        overlay(shape, overrides[name], 0)
    } else {
        shape
    }
}

/// The shape of the batch tensor behind the input `name`: as reported, except
/// that dimension 0, the batch, is never overridden.
pub open spec fn batch_tensor_shape(
    shape: Seq<i64>,
    overrides: Map<Seq<char>, Seq<i64>>,
    name: Seq<char>,
) -> Seq<i64> {
    if overrides.dom().contains(name) {
        overlay(shape, overrides[name], 1)
    } else {
        shape
    }
}

/// A copy of a shape.
pub fn copy_shape(shape: &Vec<i64>) -> (r: Vec<i64>)
    ensures
        r@ == shape@,
{
    let mut r: Vec<i64> = Vec::new();
    for i in 0..shape.len()
        invariant
            r@ == shape@.take(i as int),
    {
        r.push(shape[i]);
    }
    assert(shape@.take(shape@.len() as int) =~= shape@);
    r
}

fn overlay_shape(shape: &Vec<i64>, dims: &Vec<i64>, from: usize) -> (r: Vec<i64>)
    ensures
        r@ == overlay(shape@, dims@, from as int),
{
    let mut r: Vec<i64> = Vec::new();
    for i in 0..shape.len()
        invariant
            r@.len() == i,
            forall|j: int| 0 <= j < i ==> r@[j] == overlay(shape@, dims@, from as int)[j],
    {
        if from <= i && i < dims.len() {
            r.push(dims[i]);
        } else {
            r.push(shape[i]);
        }
    }
    assert(r@ =~= overlay(shape@, dims@, from as int));
    r
}

/// Applies the configured shape of `name` to every dimension.
pub fn report_shape(shape: &Vec<i64>, overrides: &ShapeOverrides, name: &str) -> (r: Vec<i64>)
    requires
        overrides.wf(),
    ensures
        r@ == reported_shape(shape@, overrides@, name@),
{
    match overrides.get(name) {
        Some(dims) => overlay_shape(shape, dims, 0),
        None => copy_shape(shape),
    }
}

/// Applies the configured shape of `name` to every dimension but the batch.
pub fn shape_batch_tensor(shape: &Vec<i64>, overrides: &ShapeOverrides, name: &str) -> (r: Vec<i64>)
    requires
        overrides.wf(),
    ensures
        r@ == batch_tensor_shape(shape@, overrides@, name@),
{
    match overrides.get(name) {
        Some(dims) => overlay_shape(shape, dims, 1),
        None => copy_shape(shape),
    }
}

/// What the model reports for a tensor and the memory behind it agree in rank
/// and in every dimension but the batch.
pub proof fn reported_and_batch_tensor_shapes_agree(
    shape: Seq<i64>,
    overrides: Map<Seq<char>, Seq<i64>>,
    name: Seq<char>,
)
    ensures
        reported_shape(shape, overrides, name).len() == batch_tensor_shape(shape, overrides, name).len(),
        forall|i: int|
            0 < i < shape.len() ==> reported_shape(shape, overrides, name)[i] == #[trigger] batch_tensor_shape(
                shape,
                overrides,
                name,
            )[i],
        shape.len() > 0 ==> batch_tensor_shape(shape, overrides, name)[0] == shape[0],
{
}

/// Where a shape is configured for a tensor, every dimension that both shapes
/// have is the configured one, in what is reported and, but for the batch, in the
/// memory behind it. The dimensions behind are the declared ones, and so are all
/// where none is configured.
pub proof fn configured_dimensions_are_taken(
    shape: Seq<i64>,
    overrides: Map<Seq<char>, Seq<i64>>,
    name: Seq<char>,
    i: int,
)
    requires
        0 <= i < shape.len(),
    ensures
        reported_shape(shape, overrides, name).len() == shape.len(),
        batch_tensor_shape(shape, overrides, name).len() == shape.len(),
        overrides.dom().contains(name) && i < overrides[name].len() ==> {
            &&& reported_shape(shape, overrides, name)[i] == overrides[name][i]
            &&& i > 0 ==> batch_tensor_shape(shape, overrides, name)[i] == overrides[name][i]
        },
        !overrides.dom().contains(name) || i >= overrides[name].len() ==> {
            &&& reported_shape(shape, overrides, name)[i] == shape[i]
            &&& batch_tensor_shape(shape, overrides, name)[i] == shape[i]
        },
        batch_tensor_shape(shape, overrides, name)[0] == shape[0],
{
}

/// What is configured for a name is found under it, wherever it stands among the
/// others, and nothing is found under a name that nothing is configured for.
pub proof fn configured_shapes_are_found(overrides: ShapeOverrides, i: int, name: Seq<char>)
    requires
        overrides.wf(),
    ensures
        0 <= i < overrides.entries@.len() ==> {
            &&& overrides@.dom().contains(overrides.entries@[i].0@)
            &&& overrides@[overrides.entries@[i].0@] == overrides.entries@[i].1@
        },
        overrides@.dom().contains(name) ==> exists|j: int|
            0 <= j < overrides.entries@.len() && (#[trigger] overrides.entries@[j]).0@ == name,
{
    if 0 <= i < overrides.entries@.len() {
        let key = overrides.entries@[i].0@;
        assert(has_name(overrides.entries@, key));
        let j = choose|j: int|
            0 <= j < overrides.entries@.len() && (#[trigger] overrides.entries@[j]).0@ == key;
        assert(j == i);
    }
}

/// What is reported for a tensor has every dimension that is configured for it, and
/// the declared ones where none is.
pub proof fn configured_shapes_are_reported(
    shape: &Vec<i64>,
    overrides: &ShapeOverrides,
    name: &str,
    r: Vec<i64>,
    i: int,
)
    requires
        call_ensures(report_shape, (shape, overrides, name), r),
        0 <= i < shape@.len(),
    ensures
        r@.len() == shape@.len(),
        r@[i] == (if overrides@.dom().contains(name@) && i < overrides@[name@].len() {
            overrides@[name@][i]
        } else {
            shape@[i]
        }),
{
    configured_dimensions_are_taken(shape@, overrides@, name@, i);
}

/// The memory behind a tensor has every dimension that is configured for it but the
/// batch, and the declared ones where none is.
pub proof fn configured_shapes_are_allocated(
    shape: &Vec<i64>,
    overrides: &ShapeOverrides,
    name: &str,
    r: Vec<i64>,
    i: int,
)
    requires
        call_ensures(shape_batch_tensor, (shape, overrides, name), r),
        0 <= i < shape@.len(),
    ensures
        r@.len() == shape@.len(),
        r@[i] == (if i > 0 && overrides@.dom().contains(name@) && i < overrides@[name@].len() {
            overrides@[name@][i]
        } else {
            shape@[i]
        }),
{
    configured_dimensions_are_taken(shape@, overrides@, name@, i);
}

/// A shape that is set is found again, and the shapes of other tensors stay.
pub proof fn set_shapes_are_found(overrides: &mut ShapeOverrides, name: String, dims: Vec<i64>, other: Seq<char>)
    requires
        call_ensures(ShapeOverrides::insert, (overrides, name, dims), ()),
    ensures
        final(overrides)@.dom().contains(name@),
        final(overrides)@[name@] == dims@,
        other != name@ ==> {
            &&& final(overrides)@.dom().contains(other) <==> old(overrides)@.dom().contains(other)
            &&& old(overrides)@.dom().contains(other) ==> final(overrides)@[other] == old(overrides)@[other]
        },
{
}

/// A copy has the same dimensions, all of them, and what is configured for a name is
/// what a look finds.
pub proof fn copies_and_looks_are_true(
    shape: &Vec<i64>,
    copy: Vec<i64>,
    overrides: &ShapeOverrides,
    name: &str,
    found: Option<&Vec<i64>>,
    i: int,
)
    requires
        call_ensures(copy_shape, (shape,), copy),
        call_ensures(ShapeOverrides::get, (overrides, name), found),
        overrides.wf(),
    ensures
        copy@.len() == shape@.len(),
        0 <= i < shape@.len() ==> copy@[i] == shape@[i],
        0 <= i < overrides.entries@.len() && overrides.entries@[i].0@ == name@ ==> found is Some && found->0@
            == overrides.entries@[i].1@,
        found is Some ==> exists|j: int|
            0 <= j < overrides.entries@.len() && (#[trigger] overrides.entries@[j]).0@ == name@,
{
    configured_shapes_are_found(*overrides, i, name@);
}

}
