//! Downsampling: every `stride`-th element along an axis.

use vstd::prelude::*;
use crate::dim::tree::{TDim, Expr};
use crate::error::OpError;
use crate::facts::{PulsedFact, TypedFact};
use crate::tensor::copied;

verus! {

/// Downsampling along `axis`: of the elements from `modulo` on, every
/// `stride`-th.
#[derive(Debug, Clone, Copy, PartialEq, Eq, Structural)]
pub struct Downsample {
    pub axis: usize,
    pub stride: usize,
    pub modulo: usize,
}

/// A downsampling and a slice that together do what a slice and a
/// downsampling did.
pub struct Commuted {
    pub down: Downsample,
    pub start: usize,
    pub end: usize,
}

impl Downsample {
    pub fn new(axis: usize, stride: usize, modulo: usize) -> (r: Downsample)
        ensures
            r == (Downsample { axis, stride, modulo }),
    {
        Downsample { axis, stride, modulo }
    }

    /// Whether the numbers fit the dimensions they go into: the stride is
    /// positive, and it and the offset are within `i32`.
    pub open spec fn fits(&self) -> bool {
        0 < self.stride <= i32::MAX && self.modulo <= i32::MAX
    }

    /// The length that an axis of length `dim` has once downsampled: of
    /// `dim` less the offset, over the stride, rounded up.
    pub open spec fn transformed(&self, dim: Expr) -> Expr {
        dim.plus(Expr::Val(self.modulo as int).times(-1).reduced()).reduced().plus(
            Expr::Val(self.stride - 1),
        ).over(self.stride as int).reduced()
    }

    /// The length that an axis of length `input_dim` has once downsampled.
    pub fn transform_dim(&self, input_dim: &TDim) -> (r: TDim)
        requires
            self.fits(),
        ensures
            r@ == self.transformed(input_dim@),
    {
        input_dim.duplicate().minus(TDim::Val(self.modulo as i32)).div_ceil(self.stride as u32)
    }

    /// Why the downsampling cannot be done, if it cannot.
    pub open spec fn refusal(&self, rank: int) -> Option<OpError> {
        if self.stride == 0 {
            Some(OpError::DownsampleStride)
        } else if self.stride > i32::MAX || self.modulo > i32::MAX {
            Some(OpError::Overflow)
        } else if self.axis >= rank {
            Some(OpError::NoSuchAxis(self.axis))
        } else {
            None
        }
    }

    fn check(&self, rank: usize) -> (r: Option<OpError>)
        ensures
            r == self.refusal(rank as int),
    {
        if self.stride == 0 {
            Some(OpError::DownsampleStride)
        } else if self.stride > 0x7fff_ffff || self.modulo > 0x7fff_ffff {
            Some(OpError::Overflow)
        } else if self.axis >= rank {
            Some(OpError::NoSuchAxis(self.axis))
        } else {
            None
        }
    }

    /// Whether `out` is what is known of the tensor once downsampled,
    /// `input` being known of the tensor.
    pub open spec fn typed(&self, input: &TypedFact, out: &TypedFact) -> bool {
        &&& out.datum_type == input.datum_type
        &&& out.shape.len() == input.shape.len()
        &&& out.konst.is_none()
        &&& forall|i: int|
            0 <= i < out.shape.len() ==> (#[trigger] out.shape[i])@ == (if i == self.axis {
                self.transformed(input.shape[i]@)
            } else {
                input.shape[i]@
            })
    }

    /// What is known of the tensor once downsampled.
    pub fn output_facts(&self, input: &TypedFact) -> (r: Result<TypedFact, OpError>)
        ensures
            match r {
                Ok(f) => self.typed(input, &f) && self.refusal(input.shape.len() as int).is_none(),
                Err(e) => self.refusal(input.shape.len() as int) == Some(e),
            },
    {
        match self.check(input.shape.len()) {
            Some(e) => {
                return Err(e);
            },
            None => {},
        }
        let mut shape: Vec<TDim> = Vec::new();
        let mut i: usize = 0;
        while i < input.shape.len()
            invariant
                0 <= i <= input.shape.len(),
                self.fits(),
                shape.len() == i,
                forall|j: int|
                    0 <= j < i ==> (#[trigger] shape[j])@ == (if j == self.axis {
                        self.transformed(input.shape[j]@)
                    } else {
                        input.shape[j]@
                    }),
            decreases input.shape.len() - i,
        {
            if i == self.axis {
                shape.push(self.transform_dim(&input.shape[i]));
            } else {
                shape.push(input.shape[i].duplicate());
            }
            i += 1;
        }
        Ok(TypedFact { datum_type: input.datum_type, shape, konst: None })
    }

    /// Whether `out` is what is known of the stream once downsampled,
    /// `input` being known of the stream: along the axis a pulse holds the
    /// `stride`-th part, and so does the stream.
    pub open spec fn pulsed(&self, input: &PulsedFact, out: &PulsedFact) -> bool {
        &&& out.datum_type == input.datum_type
        &&& out.shape@ == input.shape@.update(
            self.axis as int,
            input.shape[self.axis as int] / self.stride,
        )
        &&& out.axis == input.axis
        &&& out.delay == input.delay
        &&& out.dim@ == input.dim@.plus(Expr::Val(self.stride - 1)).over(self.stride as int).reduced()
    }

    /// What is known of the stream once downsampled.
    pub fn pulsed_output_facts(&self, input: &PulsedFact) -> (r: Result<PulsedFact, OpError>)
        ensures
            match r {
                Ok(f) => self.pulsed(input, &f) && self.refusal(input.shape.len() as int).is_none(),
                Err(e) => self.refusal(input.shape.len() as int) == Some(e),
            },
    {
        match self.check(input.shape.len()) {
            Some(e) => {
                return Err(e);
            },
            None => {},
        }
        let mut shape = copied(&input.shape);
        shape.set(self.axis, input.shape[self.axis] / self.stride);
        Ok(
            PulsedFact {
                datum_type: input.datum_type,
                shape,
                axis: input.axis,
                dim: input.dim.duplicate().div_ceil(self.stride as u32),
                delay: input.delay,
            },
        )
    }

    /// Whether the downsampling can be done on pulses of `pulse` elements:
    /// the pulse has to be a multiple of the stride.
    pub fn pulse_check(&self, pulse: usize) -> (r: Result<(), OpError>)
        ensures
            r == (if self.stride == 0 {
                Err::<(), OpError>(OpError::DownsampleStride)
            } else if pulse % self.stride != 0 {
                Err::<(), OpError>(OpError::DownsamplePulse { pulse, stride: self.stride })
            } else {
                Ok::<(), OpError>(())
            }),
    {
        if self.stride == 0 {
            Err(OpError::DownsampleStride)
        } else if pulse % self.stride != 0 {
            Err(OpError::DownsamplePulse { pulse, stride: self.stride })
        } else {
            Ok(())
        }
    }

    /// The downsampling and the slice that, in this order, do what a slice
    /// from `start` followed by this downsampling does, where they leave
    /// `final_len` elements: the downsampling takes the offset that the
    /// start of the slice gives it, and the slice starts at the element
    /// that the first one taken has become. There are none with the stride
    /// zero, nor where a bound leaves the range of sizes.
    pub open spec fn commuted(&self, start: int, final_len: int) -> Result<Commuted, OpError> {
        if self.stride == 0 {
            Err(OpError::DownsampleStride)
        } else if self.modulo + start > usize::MAX || (self.modulo + start) / (self.stride as int)
            + final_len > usize::MAX {
            Err(OpError::Overflow)
        } else {
            Ok(
                Commuted {
                    down: Downsample {
                        axis: self.axis,
                        stride: self.stride,
                        modulo: ((self.modulo + start) % (self.stride as int)) as usize,
                    },
                    start: ((self.modulo + start) / (self.stride as int)) as usize,
                    end: ((self.modulo + start) / (self.stride as int) + final_len) as usize,
                },
            )
        }
    }

    /// The downsampling and the slice that do what a slice from `start`
    /// followed by this downsampling does.
    pub fn commute_with_slice(&self, start: usize, final_len: usize) -> (r: Result<
        Commuted,
        OpError,
    >)
        ensures
            r == self.commuted(start as int, final_len as int),
    {
        if self.stride == 0 {
            return Err(OpError::DownsampleStride);
        }
        if start > usize::MAX - self.modulo {
            return Err(OpError::Overflow);
        }
        let offset = self.modulo + start;
        let modulo = offset % self.stride;
        let left = offset / self.stride;
        if final_len > usize::MAX - left {
            return Err(OpError::Overflow);
        }
        Ok(
            Commuted {
                down: Downsample { axis: self.axis, stride: self.stride, modulo },
                start: left,
                end: left + final_len,
            },
        )
    }
}

/// The place in the input of the `k`-th element that a downsampling takes.
pub open spec fn sampled(stride: int, modulo: int, k: int) -> int {
    modulo + k * stride
}

/// A slice and a downsampling commute as `commute_with_slice` has it: the
/// `k`-th element that the downsampling takes of the slice is the one that
/// the new slice takes as its `k`-th of what the new downsampling takes of
/// the whole.
pub proof fn lemma_commute_with_slice(stride: int, modulo: int, start: int, k: int)
    requires
        stride > 0,
        modulo >= 0,
        start >= 0,
        k >= 0,
    ensures
        start + sampled(stride, modulo, k) == sampled(
            stride,
            (modulo + start) % stride,
            (modulo + start) / stride + k,
        ),
{
    vstd::arithmetic::div_mod::lemma_fundamental_div_mod(modulo + start, stride);
    let q = (modulo + start) / stride;
    assert((q + k) * stride == q * stride + k * stride) by (nonlinear_arith);
    assert(stride * q == q * stride) by (nonlinear_arith);
}

} // verus!
