//! Slicing, on whole tensors and on streams.

use vstd::prelude::*;
use crate::dim::eval::DimError;
use crate::dim::tree::{TDim, Expr};
use crate::error::OpError;
use crate::facts::{PulsedFact, TypedFact};
use crate::tensor::copied;

verus! {

/// A slice along one axis: the elements from `start` to before `end`.
#[derive(Debug, PartialEq, Eq)]
pub struct Slice {
    pub axis: usize,
    pub start: TDim,
    pub end: TDim,
}

/// A slice of a stream along its axis: it lets the first `skip` elements
/// pass unused and takes the `take` that follow. On a pulse it changes
/// nothing: what follows it knows by the delay where the data begin.
#[derive(Debug, PartialEq, Eq)]
pub struct PulsedAxisSlice {
    pub axis: usize,
    pub skip: usize,
    pub take: TDim,
}

impl Slice {
    pub open spec fn same(&self, other: &Slice) -> bool {
        self.axis == other.axis && self.start@ == other.start@ && self.end@ == other.end@
    }

    pub fn new(axis: usize, start: TDim, end: TDim) -> (r: Slice)
        ensures
            r.axis == axis,
            r.start == start,
            r.end == end,
    {
        Slice { axis, start, end }
    }

    pub fn duplicate(&self) -> (r: Slice)
        ensures
            r.same(self),
            self.same(&r),
    {
        Slice { axis: self.axis, start: self.start.duplicate(), end: self.end.duplicate() }
    }

    /// The length of the slice: the canonical form of `end` less `start`.
    pub open spec fn len_spec(&self) -> Expr {
        self.end@.plus(self.start@.times(-1).reduced()).reduced()
    }

    /// The length of the slice.
    pub fn len(&self) -> (r: TDim)
        ensures
            r@ == self.len_spec(),
    {
        self.end.duplicate().minus(self.start.duplicate())
    }

    /// Whether `out` is what is known of the slice of a tensor of which
    /// `input` is known: along the axis it has the length of the slice.
    pub open spec fn typed(&self, input: &TypedFact, out: &TypedFact) -> bool {
        &&& out.datum_type == input.datum_type
        &&& out.shape.len() == input.shape.len()
        &&& out.konst.is_none()
        &&& forall|i: int|
            0 <= i < out.shape.len() ==> (#[trigger] out.shape[i])@ == (if i == self.axis {
                self.len_spec()
            } else {
                input.shape[i]@
            })
    }

    /// Why nothing can be said of the slice of a tensor, if nothing can:
    /// the tensor has not the axis.
    pub open spec fn typed_refusal(&self, input: &TypedFact) -> Option<OpError> {
        if self.axis >= input.shape.len() {
            Some(OpError::NoSuchAxis(self.axis))
        } else {
            None
        }
    }

    /// What is known of the slice of a tensor.
    pub fn output_facts(&self, input: &TypedFact) -> (r: Result<TypedFact, OpError>)
        ensures
            match r {
                Ok(f) => self.typed(input, &f) && self.typed_refusal(input).is_none(),
                Err(e) => self.typed_refusal(input) == Some(e),
            },
    {
        if self.axis >= input.shape.len() {
            return Err(OpError::NoSuchAxis(self.axis));
        }
        let mut shape: Vec<TDim> = Vec::new();
        let mut i: usize = 0;
        while i < input.shape.len()
            invariant
                0 <= i <= input.shape.len(),
                shape.len() == i,
                forall|j: int|
                    0 <= j < i ==> (#[trigger] shape[j])@ == (if j == self.axis {
                        self.len_spec()
                    } else {
                        input.shape[j]@
                    }),
            decreases input.shape.len() - i,
        {
            if i == self.axis {
                shape.push(self.len());
            } else {
                shape.push(input.shape[i].duplicate());
            }
            i += 1;
        }
        Ok(TypedFact { datum_type: input.datum_type, shape, konst: None })
    }

    /// Whether the slice takes the whole of an axis of length `dim`: it
    /// starts at zero and ends at `dim`.
    pub fn is_whole(&self, dim: &TDim) -> (r: bool)
        ensures
            r == (self.start@ == Expr::Val(0) && self.end@ == dim@),
    {
        self.start.is_zero() && self.end.same(dim)
    }

    /// The bounds of the slice as numbers, where they are.
    pub fn bounds(&self) -> (r: Result<(usize, usize), OpError>)
        ensures
            match r {
                Ok((s, e)) => self.start@.eval(Map::empty()) == Ok::<int, DimError>(s as int)
                    && self.end@.eval(Map::empty()) == Ok::<int, DimError>(e as int),
                Err(e) => match self.start@.eval(Map::empty()) {
                    Err(d) => e == OpError::Symbolic(d),
                    Ok(s) => if s < 0 {
                        e == OpError::Overflow
                    } else {
                        match self.end@.eval(Map::empty()) {
                            Err(d) => e == OpError::Symbolic(d),
                            Ok(x) => x < 0 && e == OpError::Overflow,
                        }
                    },
                },
            },
    {
        let s = match self.start.to_integer() {
            Ok(s) => s,
            Err(d) => {
                return Err(OpError::Symbolic(d));
            },
        };
        if s < 0 {
            return Err(OpError::Overflow);
        }
        let e = match self.end.to_integer() {
            Ok(e) => e,
            Err(d) => {
                return Err(OpError::Symbolic(d));
            },
        };
        if e < 0 {
            return Err(OpError::Overflow);
        }
        Ok((s as usize, e as usize))
    }

    /// The slice on a stream along its axis, where it starts at a number.
    pub fn to_pulsed(&self) -> (r: Result<PulsedAxisSlice, OpError>)
        ensures
            match r {
                Ok(p) => {
                    &&& p.axis == self.axis
                    &&& self.start@.eval(Map::empty()) == Ok::<int, DimError>(p.skip as int)
                    &&& p.take@ == self.len_spec()
                },
                Err(e) => match self.start@.eval(Map::empty()) {
                    Err(d) => e == OpError::Symbolic(d),
                    Ok(s) => s < 0 && e == OpError::Overflow,
                },
            },
    {
        let s = match self.start.to_integer() {
            Ok(s) => s,
            Err(d) => {
                return Err(OpError::Symbolic(d));
            },
        };
        if s < 0 {
            return Err(OpError::Overflow);
        }
        Ok(PulsedAxisSlice { axis: self.axis, skip: s as usize, take: self.len() })
    }

    /// Whether `out` is what is known of the slice of a stream of which
    /// `input` is known: it lags by the start of the slice more, and has
    /// the length of the slice.
    pub open spec fn pulsed(&self, input: &PulsedFact, out: &PulsedFact) -> bool {
        &&& out.datum_type == input.datum_type
        &&& out.shape@ == input.shape@
        &&& out.axis == input.axis
        &&& self.start@.eval(Map::empty()) == Ok::<int, DimError>(out.delay - input.delay)
        &&& out.delay >= input.delay
        &&& out.dim@ == self.len_spec()
    }

    /// Why nothing can be said of the slice of a stream, if nothing can:
    /// its start is no number, or the delay leaves the range of sizes.
    pub open spec fn pulsed_refusal(&self, input: &PulsedFact) -> Option<OpError> {
        match self.start@.eval(Map::empty()) {
            Err(d) => Some(OpError::Symbolic(d)),
            Ok(s) => if s < 0 || input.delay + s > usize::MAX {
                Some(OpError::Overflow)
            } else {
                None
            },
        }
    }

    /// What is known of the slice of a stream.
    pub fn pulsed_output_facts(&self, input: &PulsedFact) -> (r: Result<PulsedFact, OpError>)
        ensures
            match r {
                Ok(f) => self.pulsed(input, &f) && self.pulsed_refusal(input).is_none(),
                Err(e) => self.pulsed_refusal(input) == Some(e),
            },
    {
        let s = match self.start.to_integer() {
            Ok(s) => s,
            Err(d) => {
                return Err(OpError::Symbolic(d));
            },
        };
        if s < 0 || s as usize > usize::MAX - input.delay {
            return Err(OpError::Overflow);
        }
        Ok(
            PulsedFact {
                datum_type: input.datum_type,
                shape: copied(&input.shape),
                axis: input.axis,
                dim: self.len(),
                delay: input.delay + s as usize,
            },
        )
    }
}

impl PulsedAxisSlice {
    pub open spec fn same(&self, other: &PulsedAxisSlice) -> bool {
        self.axis == other.axis && self.skip == other.skip && self.take@ == other.take@
    }

    pub fn new(axis: usize, skip: usize, take: TDim) -> (r: PulsedAxisSlice)
        ensures
            r.axis == axis,
            r.skip == skip,
            r.take == take,
    {
        PulsedAxisSlice { axis, skip, take }
    }

    pub fn duplicate(&self) -> (r: PulsedAxisSlice)
        ensures
            r.same(self),
            self.same(&r),
    {
        PulsedAxisSlice { axis: self.axis, skip: self.skip, take: self.take.duplicate() }
    }

    /// Whether `out` is what is known of the sliced stream, `input` being
    /// known of the stream: it lags by `skip` more, and has the length
    /// `take`.
    pub open spec fn pulsed(&self, input: &PulsedFact, out: &PulsedFact) -> bool {
        &&& out.datum_type == input.datum_type
        &&& out.shape@ == input.shape@
        &&& out.axis == input.axis
        &&& out.delay == input.delay + self.skip
        &&& out.dim@ == self.take@
    }

    /// Why nothing can be said of the sliced stream, if nothing can: the
    /// delay leaves the range of sizes.
    pub open spec fn pulsed_refusal(&self, input: &PulsedFact) -> Option<OpError> {
        if input.delay + self.skip > usize::MAX {
            Some(OpError::Overflow)
        } else {
            None
        }
    }

    /// What is known of the sliced stream.
    pub fn pulsed_output_facts(&self, input: &PulsedFact) -> (r: Result<PulsedFact, OpError>)
        ensures
            match r {
                Ok(f) => self.pulsed(input, &f) && self.pulsed_refusal(input).is_none(),
                Err(e) => self.pulsed_refusal(input) == Some(e),
            },
    {
        if self.skip > usize::MAX - input.delay {
            return Err(OpError::Overflow);
        }
        Ok(
            PulsedFact {
                datum_type: input.datum_type,
                shape: copied(&input.shape),
                axis: input.axis,
                dim: self.take.duplicate(),
                delay: input.delay + self.skip,
            },
        )
    }
}

} // verus!
