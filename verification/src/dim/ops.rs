//! Dimensions out of numbers.

use vstd::prelude::*;
use vstd::std_specs::convert::FromSpecImpl;
use crate::dim::eval::{DimError, agrees};
use crate::dim::tree::{TDim, Expr};

verus! {

impl From<i32> for TDim {
    fn from(v: i32) -> (r: TDim)
        ensures
            r@ == Expr::Val(v as int),
    {
        TDim::Val(v)
    }
}

impl FromSpecImpl<i32> for TDim {
    open spec fn obeys_from_spec() -> bool {
        false
    }

    open spec fn from_spec(v: i32) -> TDim {
        TDim::Val(v)
    }
}

/// A way to take a datum for one of another type.
pub trait TryCast<D>: Sized {
    /// Whether `r` is what taking the datum for one of the other type
    /// gives.
    spec fn casts(&self, r: Result<D, DimError>) -> bool;

    /// The datum as one of the other type, where it is one.
    fn try_cast(&self) -> (r: Result<D, DimError>)
        ensures
            self.casts(r),
    ;
}

impl TryCast<TDim> for i32 {
    open spec fn casts(&self, r: Result<TDim, DimError>) -> bool {
        r is Ok && r->Ok_0@ == Expr::Val(*self as int)
    }

    fn try_cast(&self) -> (r: Result<TDim, DimError>) {
        Ok(TDim::Val(*self))
    }
}

impl TryCast<i32> for TDim {
    open spec fn casts(&self, r: Result<i32, DimError>) -> bool {
        agrees(r, self@.eval(Map::empty()))
    }

    fn try_cast(&self) -> (r: Result<i32, DimError>) {
        self.to_integer()
    }
}

/// Whether `a` can be taken for a datum of the other type.
pub open spec fn castable<A: TryCast<B>, B>(a: A) -> bool {
    exists|v: B| a.casts(Ok(v))
}

/// Whether the data before the `i`-th can each be taken for a datum of the
/// other type, and the `i`-th fails with `e`.
pub open spec fn fails_at<A: TryCast<B>, B>(data: Seq<A>, i: int, e: DimError) -> bool {
    &&& 0 <= i < data.len()
    &&& data[i].casts(Err(e))
    &&& forall|j: int| 0 <= j < i ==> castable::<A, B>(#[trigger] data[j])
}

/// Each of `data` as a datum of the other type, or the first failure.
pub fn cast_all<A: TryCast<B>, B>(data: &Vec<A>) -> (r: Result<Vec<B>, DimError>)
    ensures
        match r {
            Ok(out) => out.len() == data.len() && forall|i: int|
                0 <= i < data.len() ==> (#[trigger] data[i]).casts(Ok(out[i])),
            Err(e) => exists|i: int| fails_at::<A, B>(data@, i, e),
        },
{
    let mut out: Vec<B> = Vec::new();
    let mut i: usize = 0;
    while i < data.len()
        invariant
            0 <= i <= data.len(),
            out.len() == i,
            forall|j: int| 0 <= j < i ==> (#[trigger] data[j]).casts(Ok(out[j])),
        decreases data.len() - i,
    {
        match data[i].try_cast() {
            Ok(v) => {
                out.push(v);
            },
            Err(e) => {
                assert forall|j: int| 0 <= j < i implies castable::<A, B>(
                    #[trigger] data[j],
                ) by {
                    assert(data[j].casts(Ok(out[j])));
                }
                assert(fails_at::<A, B>(data@, i as int, e));
                return Err(e);
            },
        }
        i += 1;
    }
    Ok(out)
}

} // verus!
