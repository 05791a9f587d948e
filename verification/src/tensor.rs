//! Constant tensors of integer data.

use vstd::prelude::*;
use crate::datum::DatumType;

verus! {

/// A copy of `v`.
pub fn copied<T: Copy>(v: &Vec<T>) -> (r: Vec<T>)
    ensures
        r@ == v@,
{
    let mut out: Vec<T> = Vec::new();
    let mut i: usize = 0;
    while i < v.len()
        invariant
            0 <= i <= v.len(),
            out@ == v@.take(i as int),
        decreases v.len() - i,
    {
        out.push(v[i]);
        assert(v@.take(i + 1) =~= v@.take(i as int).push(v[i as int]));
        i += 1;
    }
    assert(v@.take(i as int) =~= v@);
    out
}

/// Whether `a` and `b` hold the same items.
pub fn same_items(a: &Vec<i64>, b: &Vec<i64>) -> (r: bool)
    ensures
        r == (a@ == b@),
{
    if a.len() != b.len() {
        return false;
    }
    let mut i: usize = 0;
    while i < a.len()
        invariant
            0 <= i <= a.len(),
            a.len() == b.len(),
            forall|j: int| 0 <= j < i ==> a[j] == b[j],
        decreases a.len() - i,
    {
        if a[i] != b[i] {
            return false;
        }
        i += 1;
    }
    assert(a@ =~= b@);
    true
}

/// Whether `a` and `b` hold the same sizes.
pub fn same_sizes(a: &Vec<usize>, b: &Vec<usize>) -> (r: bool)
    ensures
        r == (a@ == b@),
{
    if a.len() != b.len() {
        return false;
    }
    let mut i: usize = 0;
    while i < a.len()
        invariant
            0 <= i <= a.len(),
            a.len() == b.len(),
            forall|j: int| 0 <= j < i ==> a[j] == b[j],
        decreases a.len() - i,
    {
        if a[i] != b[i] {
            return false;
        }
        i += 1;
    }
    assert(a@ =~= b@);
    true
}

/// A tensor of integers: its data in row-major order.
#[derive(Debug, PartialEq, Eq, Hash)]
pub struct Tensor {
    pub datum_type: DatumType,
    pub shape: Vec<usize>,
    pub data: Vec<i64>,
}

impl Tensor {
    /// Whether the two tensors have the same type, shape and data.
    pub open spec fn same(&self, other: &Tensor) -> bool {
        &&& self.datum_type == other.datum_type
        &&& self.shape@ == other.shape@
        &&& self.data@ == other.data@
    }

    /// The tensor of no axes that holds `value`.
    pub fn scalar(datum_type: DatumType, value: i64) -> (r: Tensor)
        ensures
            r.datum_type == datum_type,
            r.shape@ == Seq::<usize>::empty(),
            r.data@ == seq![value],
    {
        Tensor { datum_type, shape: Vec::new(), data: vec![value] }
    }

    /// The number of axes.
    pub fn rank(&self) -> (r: usize)
        ensures
            r == self.shape.len(),
    {
        self.shape.len()
    }

    /// A copy of the tensor.
    pub fn duplicate(&self) -> (r: Tensor)
        ensures
            r.same(self),
    {
        Tensor {
            datum_type: self.datum_type,
            shape: copied(&self.shape),
            data: copied(&self.data),
        }
    }

    /// Whether the two tensors have the same type, shape and data.
    pub fn same_as(&self, other: &Tensor) -> (r: bool)
        ensures
            r == self.same(other),
    {
        self.datum_type == other.datum_type && same_sizes(&self.shape, &other.shape)
            && same_items(&self.data, &other.data)
    }
}

impl Clone for Tensor {
    fn clone(&self) -> (r: Self)
        ensures
            r.same(self),
    {
        self.duplicate()
    }
}

/// Whether the two optional tensors are both absent or the same.
pub open spec fn same_option(a: &Option<Tensor>, b: &Option<Tensor>) -> bool {
    match (a, b) {
        (Some(x), Some(y)) => x.same(y),
        (None, None) => true,
        _ => false,
    }
}

/// A copy of an optional tensor.
pub fn duplicate_option(a: &Option<Tensor>) -> (r: Option<Tensor>)
    ensures
        same_option(&r, a),
        same_option(a, &r),
{
    match a {
        Some(t) => Some(t.duplicate()),
        None => None,
    }
}

/// Whether the two optional tensors are both absent or the same.
pub fn same_option_as(a: &Option<Tensor>, b: &Option<Tensor>) -> (r: bool)
    ensures
        r == same_option(a, b),
{
    match (a, b) {
        (Some(x), Some(y)) => x.same_as(y),
        (None, None) => true,
        _ => false,
    }
}

} // verus!
