//! The three flavours of facts: what inference knows, what is typed, and
//! what is known of a stream.

use vstd::prelude::*;
use crate::datum::DatumType;
use crate::dim::tree::{TDim, Expr, views, lemma_views_len};
use crate::model::fact::Fact;
use crate::translator::ConvertFrom;
use crate::tensor::{Tensor, copied, same_option, same_option_as, duplicate_option, same_sizes};

verus! {

/// Copies of the dimensions of `ts`.
pub fn duplicate_dims(ts: &Vec<TDim>) -> (r: Vec<TDim>)
    ensures
        views(r@) == views(ts@),
        r.len() == ts.len(),
{
    let r = crate::dim::wiggle::duplicate_all(ts);
    proof {
        lemma_views_len(r@);
        lemma_views_len(ts@);
    }
    r
}

/// Whether the two lists hold the same dimensions.
pub fn same_dims(a: &Vec<TDim>, b: &Vec<TDim>) -> (r: bool)
    ensures
        r == (views(a@) == views(b@)),
{
    proof {
        lemma_views_len(a@);
        lemma_views_len(b@);
    }
    if a.len() != b.len() {
        return false;
    }
    let mut i: usize = 0;
    while i < a.len()
        invariant
            0 <= i <= a.len(),
            a.len() == b.len(),
            views(a@).len() == a.len(),
            views(b@).len() == b.len(),
            forall|j: int| 0 <= j < a.len() ==> #[trigger] views(a@)[j] == a[j]@,
            forall|j: int| 0 <= j < b.len() ==> #[trigger] views(b@)[j] == b[j]@,
            forall|j: int| 0 <= j < i ==> a[j]@ == b[j]@,
        decreases a.len() - i,
    {
        if !a[i].same(&b[i]) {
            assert(views(a@)[i as int] != views(b@)[i as int]);
            return false;
        }
        i += 1;
    }
    assert(views(a@) =~= views(b@));
    true
}

/// What is known of a tensor once its type and shape are: the type, the
/// shape, which may depend on the stream, and the value where it is
/// constant.
#[derive(Debug, PartialEq, Eq)]
pub struct TypedFact {
    pub datum_type: DatumType,
    pub shape: Vec<TDim>,
    pub konst: Option<Tensor>,
}

impl TypedFact {
    /// The fact of a tensor of type `datum_type` and shape `shape`.
    pub fn dt_shape(datum_type: DatumType, shape: Vec<TDim>) -> (r: TypedFact)
        ensures
            r.datum_type == datum_type,
            r.shape == shape,
            r.konst.is_none(),
    {
        TypedFact { datum_type, shape, konst: None }
    }

    /// The number of axes.
    pub fn rank(&self) -> (r: usize)
        ensures
            r == self.shape.len(),
    {
        self.shape.len()
    }
}

impl Fact for TypedFact {
    open spec fn same(&self, other: &Self) -> bool {
        &&& self.datum_type == other.datum_type
        &&& views(self.shape@) == views(other.shape@)
        &&& same_option(&self.konst, &other.konst)
    }

    fn same_as(&self, other: &Self) -> (r: bool) {
        self.datum_type == other.datum_type && same_dims(&self.shape, &other.shape)
            && same_option_as(&self.konst, &other.konst)
    }

    fn duplicate(&self) -> (r: Self) {
        TypedFact {
            datum_type: self.datum_type,
            shape: duplicate_dims(&self.shape),
            konst: duplicate_option(&self.konst),
        }
    }

    proof fn lemma_same(a: &Self, b: &Self, c: &Self) {
    }
}

impl Clone for TypedFact {
    fn clone(&self) -> (r: Self)
        ensures
            r.same(self),
    {
        self.duplicate()
    }
}

/// What is known of a tensor that comes in pulses: its type, the shape of
/// one pulse, the axis along which the stream runs, the length of the whole
/// stream, and by how many elements the tensor lags behind the input.
#[derive(Debug, PartialEq, Eq)]
pub struct PulsedFact {
    pub datum_type: DatumType,
    pub shape: Vec<usize>,
    pub axis: usize,
    pub dim: TDim,
    pub delay: usize,
}

impl PulsedFact {
    /// The number of elements of one pulse along the streaming axis.
    pub fn pulse(&self) -> (r: usize)
        requires
            self.axis < self.shape.len(),
        ensures
            r == self.shape[self.axis as int],
    {
        self.shape[self.axis]
    }
}

impl Fact for PulsedFact {
    open spec fn same(&self, other: &Self) -> bool {
        &&& self.datum_type == other.datum_type
        &&& self.shape@ == other.shape@
        &&& self.axis == other.axis
        &&& self.dim@ == other.dim@
        &&& self.delay == other.delay
    }

    fn same_as(&self, other: &Self) -> (r: bool) {
        self.datum_type == other.datum_type && same_sizes(&self.shape, &other.shape) && self.axis
            == other.axis && self.dim.same(&other.dim) && self.delay == other.delay
    }

    fn duplicate(&self) -> (r: Self) {
        PulsedFact {
            datum_type: self.datum_type,
            shape: copied(&self.shape),
            axis: self.axis,
            dim: self.dim.duplicate(),
            delay: self.delay,
        }
    }

    proof fn lemma_same(a: &Self, b: &Self, c: &Self) {
    }
}

impl Clone for PulsedFact {
    fn clone(&self) -> (r: Self)
        ensures
            r.same(self),
    {
        self.duplicate()
    }
}

/// What inference knows of a shape: the dimensions of its first axes, each
/// known or not, and whether there may be more axes.
#[derive(Debug, PartialEq, Eq)]
pub struct ShapeFact {
    pub open: bool,
    pub dims: Vec<Option<TDim>>,
}

/// What inference knows of a tensor: its type, its shape and its value,
/// each known or not.
#[derive(Debug, PartialEq, Eq)]
pub struct InferenceFact {
    pub datum_type: Option<DatumType>,
    pub shape: ShapeFact,
    pub value: Option<Tensor>,
}

/// The tree of a dimension that may be unknown.
pub open spec fn dim_view(d: Option<TDim>) -> Option<Expr> {
    match d {
        Some(t) => Some(t@),
        None => None,
    }
}

/// The trees of dimensions that may be unknown.
pub open spec fn dims_view(ds: Seq<Option<TDim>>) -> Seq<Option<Expr>> {
    Seq::new(ds.len(), |i: int| dim_view(ds[i]))
}

impl InferenceFact {
    /// The fact that knows nothing.
    pub fn any() -> (r: InferenceFact)
        ensures
            r.datum_type.is_none(),
            r.shape.open,
            r.shape.dims.len() == 0,
            r.value.is_none(),
    {
        InferenceFact {
            datum_type: None,
            shape: ShapeFact { open: true, dims: Vec::new() },
            value: None,
        }
    }

    /// The fact of a tensor of type `datum_type` and shape `shape`.
    pub fn dt_shape(datum_type: DatumType, shape: Vec<TDim>) -> (r: InferenceFact)
        ensures
            r.datum_type == Some(datum_type),
            !r.shape.open,
            dims_view(r.shape.dims@) == Seq::new(shape.len() as nat, |i: int| Some(shape[i]@)),
            r.value.is_none(),
    {
        let mut shape = shape;
        let ghost all = shape@;
        let mut dims: Vec<Option<TDim>> = Vec::new();
        while shape.len() > 0
            invariant
                dims.len() + shape.len() == all.len(),
                shape@ == all.skip(dims.len() as int),
                forall|k: int| 0 <= k < dims.len() ==> #[trigger] dims[k] == Some(all[k]),
            decreases shape.len(),
        {
            let d = shape.remove(0);
            dims.push(Some(d));
        }
        assert(dims_view(dims@) =~= Seq::new(all.len(), |i: int| Some(all[i]@)));
        InferenceFact {
            datum_type: Some(datum_type),
            shape: ShapeFact { open: false, dims },
            value: None,
        }
    }

    /// Whether the type and the whole shape are known.
    pub open spec fn complete(&self) -> bool {
        &&& self.datum_type.is_some()
        &&& !self.shape.open
        &&& forall|i: int| 0 <= i < self.shape.dims.len() ==> (#[trigger] self.shape.dims[i]).is_some()
    }

    /// The typed fact that says as much, where the type and the whole
    /// shape are known.
    pub fn to_typed(&self) -> (r: Option<TypedFact>)
        ensures
            r.is_some() == self.complete(),
            r.is_some() ==> {
                let t = r.unwrap();
                &&& Some(t.datum_type) == self.datum_type
                &&& t.shape.len() == self.shape.dims.len()
                &&& forall|i: int|
                    0 <= i < t.shape.len() ==> Some((#[trigger] t.shape[i])@) == dim_view(
                        self.shape.dims[i],
                    )
                &&& same_option(&t.konst, &self.value)
            },
    {
        let datum_type = match self.datum_type {
            Some(dt) => dt,
            None => {
                return None;
            },
        };
        if self.shape.open {
            return None;
        }
        let mut shape: Vec<TDim> = Vec::new();
        let mut i: usize = 0;
        while i < self.shape.dims.len()
            invariant
                0 <= i <= self.shape.dims.len(),
                shape.len() == i,
                forall|j: int| 0 <= j < i ==> (#[trigger] self.shape.dims[j]).is_some(),
                forall|j: int| 0 <= j < i ==> Some((#[trigger] shape[j])@) == dim_view(
                    self.shape.dims[j],
                ),
            decreases self.shape.dims.len() - i,
        {
            match &self.shape.dims[i] {
                Some(d) => {
                    shape.push(d.duplicate());
                },
                None => {
                    return None;
                },
            }
            i += 1;
        }
        Some(TypedFact { datum_type, shape, konst: duplicate_option(&self.value) })
    }
}

/// Whether the two lists hold the same dimensions, known or not.
fn same_open_dims(a: &Vec<Option<TDim>>, b: &Vec<Option<TDim>>) -> (r: bool)
    ensures
        r == (dims_view(a@) == dims_view(b@)),
{
    if a.len() != b.len() {
        assert(dims_view(a@).len() != dims_view(b@).len());
        return false;
    }
    let mut i: usize = 0;
    while i < a.len()
        invariant
            0 <= i <= a.len(),
            a.len() == b.len(),
            forall|j: int| 0 <= j < i ==> dim_view(a[j]) == dim_view(b[j]),
        decreases a.len() - i,
    {
        let same = match (&a[i], &b[i]) {
            (Some(x), Some(y)) => x.same(y),
            (None, None) => true,
            _ => false,
        };
        if !same {
            assert(dims_view(a@)[i as int] != dims_view(b@)[i as int]);
            return false;
        }
        i += 1;
    }
    assert(dims_view(a@) =~= dims_view(b@));
    true
}

impl Fact for InferenceFact {
    open spec fn same(&self, other: &Self) -> bool {
        &&& self.datum_type == other.datum_type
        &&& self.shape.open == other.shape.open
        &&& dims_view(self.shape.dims@) == dims_view(other.shape.dims@)
        &&& same_option(&self.value, &other.value)
    }

    fn same_as(&self, other: &Self) -> (r: bool) {
        let dt = match (self.datum_type, other.datum_type) {
            (Some(a), Some(b)) => a == b,
            (None, None) => true,
            _ => false,
        };
        dt && self.shape.open == other.shape.open && same_open_dims(
            &self.shape.dims,
            &other.shape.dims,
        ) && same_option_as(&self.value, &other.value)
    }

    fn duplicate(&self) -> (r: Self) {
        let mut dims: Vec<Option<TDim>> = Vec::new();
        let mut i: usize = 0;
        while i < self.shape.dims.len()
            invariant
                0 <= i <= self.shape.dims.len(),
                dims.len() == i,
                forall|j: int| 0 <= j < i ==> dim_view(#[trigger] dims[j]) == dim_view(
                    self.shape.dims[j],
                ),
            decreases self.shape.dims.len() - i,
        {
            let d = match &self.shape.dims[i] {
                Some(d) => Some(d.duplicate()),
                None => None,
            };
            dims.push(d);
            i += 1;
        }
        assert(dims_view(dims@) =~= dims_view(self.shape.dims@));
        InferenceFact {
            datum_type: self.datum_type,
            shape: ShapeFact { open: self.shape.open, dims },
            value: duplicate_option(&self.value),
        }
    }

    proof fn lemma_same(a: &Self, b: &Self, c: &Self) {
    }
}

impl ConvertFrom<InferenceFact> for TypedFact {
    /// What inference knows can be typed where the type and the whole
    /// shape are known.
    open spec fn accepts(t: &InferenceFact) -> bool {
        t.complete()
    }

    open spec fn taken(t: &InferenceFact, r: &TypedFact) -> bool {
        &&& Some(r.datum_type) == t.datum_type
        &&& r.shape.len() == t.shape.dims.len()
        &&& forall|i: int|
            0 <= i < r.shape.len() ==> Some((#[trigger] r.shape[i])@) == dim_view(t.shape.dims[i])
        &&& same_option(&r.konst, &t.value)
    }

    fn convert(t: &InferenceFact) -> (r: Option<TypedFact>) {
        t.to_typed()
    }
}

impl ConvertFrom<TypedFact> for TypedFact {
    open spec fn accepts(t: &TypedFact) -> bool {
        true
    }

    open spec fn taken(t: &TypedFact, r: &TypedFact) -> bool {
        r.same(t)
    }

    fn convert(t: &TypedFact) -> (r: Option<TypedFact>) {
        Some(t.duplicate())
    }
}

impl ConvertFrom<PulsedFact> for PulsedFact {
    open spec fn accepts(t: &PulsedFact) -> bool {
        true
    }

    open spec fn taken(t: &PulsedFact, r: &PulsedFact) -> bool {
        r.same(t)
    }

    fn convert(t: &PulsedFact) -> (r: Option<PulsedFact>) {
        Some(t.duplicate())
    }
}

/// Whether each of `shape` is a length that a dimension can hold.
pub open spec fn fits_dims(shape: Seq<usize>) -> bool {
    forall|i: int| 0 <= i < shape.len() ==> #[trigger] shape[i] <= i32::MAX
}

impl ConvertFrom<PulsedFact> for TypedFact {
    /// What is known of a pulse can be said of a tensor where its lengths
    /// are lengths that a dimension can hold.
    open spec fn accepts(t: &PulsedFact) -> bool {
        fits_dims(t.shape@)
    }

    /// What is known of a pulse as a tensor: its type and its shape, and
    /// nothing of its value.
    open spec fn taken(t: &PulsedFact, r: &TypedFact) -> bool {
        &&& r.datum_type == t.datum_type
        &&& r.shape.len() == t.shape.len()
        &&& forall|i: int|
            0 <= i < r.shape.len() ==> (#[trigger] r.shape[i])@ == Expr::Val(t.shape[i] as int)
        &&& r.konst.is_none()
    }

    fn convert(t: &PulsedFact) -> (r: Option<TypedFact>) {
        let mut shape: Vec<TDim> = Vec::new();
        let mut i: usize = 0;
        while i < t.shape.len()
            invariant
                0 <= i <= t.shape.len(),
                shape.len() == i,
                forall|j: int| 0 <= j < i ==> (#[trigger] t.shape[j]) <= i32::MAX,
                forall|j: int| 0 <= j < i ==> (#[trigger] shape[j])@ == Expr::Val(t.shape[j] as int),
            decreases t.shape.len() - i,
        {
            if t.shape[i] > 0x7fff_ffff {
                return None;
            }
            shape.push(TDim::Val(t.shape[i] as i32));
            i += 1;
        }
        Some(TypedFact { datum_type: t.datum_type, shape, konst: None })
    }
}

} // verus!
