//! What the operators compute, on tensors of one axis.

use vstd::prelude::*;
use crate::error::OpError;
use crate::ops::declutter::{as_number, number};
use crate::ops::downsample::{Downsample, sampled};
use crate::ops::pad::{Pad, PadMode};
use crate::ops::slice::Slice;

verus! {

/// How many elements a downsampling by `stride` from `modulo` on takes of
/// `len`.
pub open spec fn sampled_len(len: int, stride: int, modulo: int) -> int {
    if modulo < len {
        (len - modulo + stride - 1) / stride
    } else {
        0
    }
}

/// What a padding of one axis with `before` elements before the data and
/// `after` behind them puts at the place `i` of its result.
pub open spec fn padded_at(
    mode: &PadMode,
    constant: i64,
    input: Seq<i64>,
    before: int,
    after: int,
    i: int,
) -> i64 {
    if before <= i < before + input.len() {
        input[i - before]
    } else {
        match mode {
            PadMode::Constant(_) => constant,
            PadMode::Edge => if i < before {
                input[0]
            } else {
                input[input.len() - 1]
            },
            PadMode::Reflect => if i < before {
                input[before - i]
            } else {
                input[2 * input.len() + before - 2 - i]
            },
        }
    }
}

/// Whether the tensor or the failure `r` is `s`, the tensor taken as a
/// sequence.
pub open spec fn gives(r: Result<Vec<i64>, OpError>, s: Result<Seq<i64>, OpError>) -> bool {
    match r {
        Ok(v) => s == Ok::<Seq<i64>, OpError>(v@),
        Err(e) => s == Err::<Seq<i64>, OpError>(e),
    }
}

impl Slice {
    /// The slice of `input`: its elements from `start` to before `end`. There
    /// is none of another axis than the first, nor where the bounds are no
    /// numbers, or no bounds of `input`.
    pub open spec fn outcome(&self, input: Seq<i64>) -> Result<Seq<i64>, OpError> {
        if self.axis != 0 {
            Err(OpError::NoSuchAxis(self.axis))
        } else {
            match (number(self.start@), number(self.end@)) {
                (Some(from), Some(to)) => if from <= to <= input.len() {
                    Ok(input.subrange(from, to))
                } else {
                    Err(OpError::Overflow)
                },
                _ => Err(OpError::Overflow),
            }
        }
    }

    /// The slice of `input`.
    pub fn eval(&self, input: &Vec<i64>) -> (r: Result<Vec<i64>, OpError>)
        ensures
            gives(r, self.outcome(input@)),
    {
        if self.axis != 0 {
            return Err(OpError::NoSuchAxis(self.axis));
        }
        let start = match as_number(&self.start) {
            Some(v) => v,
            None => {
                return Err(OpError::Overflow);
            },
        };
        let end = match as_number(&self.end) {
            Some(v) => v,
            None => {
                return Err(OpError::Overflow);
            },
        };
        if start > end || end > input.len() {
            return Err(OpError::Overflow);
        }
        let mut out: Vec<i64> = Vec::new();
        let mut i: usize = start;
        while i < end
            invariant
                start <= i <= end,
                end <= input.len(),
                out@ == input@.subrange(start as int, i as int),
            decreases end - i,
        {
            out.push(input[i]);
            assert(out@ =~= input@.subrange(start as int, i + 1));
            i += 1;
        }
        Ok(out)
    }
}

impl Downsample {
    /// Of the elements of `input` from `modulo` on, every `stride`-th. There
    /// is no such thing along another axis than the first, nor with the
    /// stride zero.
    pub open spec fn outcome(&self, input: Seq<i64>) -> Result<Seq<i64>, OpError> {
        if self.axis != 0 {
            Err(OpError::NoSuchAxis(self.axis))
        } else if self.stride == 0 {
            Err(OpError::DownsampleStride)
        } else {
            Ok(
                Seq::new(
                    sampled_len(input.len() as int, self.stride as int, self.modulo as int) as nat,
                    |k: int| input[sampled(self.stride as int, self.modulo as int, k)],
                ),
            )
        }
    }

    /// Of the elements of `input` from `modulo` on, every `stride`-th.
    pub fn eval(&self, input: &Vec<i64>) -> (r: Result<Vec<i64>, OpError>)
        ensures
            gives(r, self.outcome(input@)),
    {
        if self.axis != 0 {
            return Err(OpError::NoSuchAxis(self.axis));
        }
        if self.stride == 0 {
            return Err(OpError::DownsampleStride);
        }
        let mut out: Vec<i64> = Vec::new();
        if self.modulo >= input.len() {
            assert(out@ =~= Seq::new(
                0,
                |k: int| input[sampled(self.stride as int, self.modulo as int, k)],
            ));
            return Ok(out);
        }
        let len = input.len();
        let stride = self.stride;
        let modulo = self.modulo;
        let last = (len - modulo - 1) / stride;
        let count = last + 1;
        proof {
            lemma_sampled_count(len as int, stride as int, modulo as int);
        }
        let mut k: usize = 0;
        while k < count
            invariant
                0 <= k <= count,
                stride > 0,
                modulo < len,
                len == input.len(),
                count == last + 1,
                last * stride <= len - modulo - 1,
                out@ == Seq::new(
                    k as nat,
                    |j: int| input[sampled(stride as int, modulo as int, j)],
                ),
            decreases count - k,
        {
            assert(0 <= k * stride <= last * stride) by (nonlinear_arith)
                requires
                    0 <= k <= last,
                    stride > 0,
            ;
            let idx = modulo + k * stride;
            assert(idx == sampled(stride as int, modulo as int, k as int));
            out.push(input[idx]);
            assert(out@ =~= Seq::new(
                (k + 1) as nat,
                |j: int| input[sampled(stride as int, modulo as int, j)],
            ));
            k += 1;
        }
        proof {
            lemma_sampled_count(len as int, stride as int, modulo as int);
        }
        Ok(out)
    }
}

/// The number of elements that a downsampling takes, counted from the last
/// one it takes.
pub proof fn lemma_sampled_count(len: int, stride: int, modulo: int)
    requires
        stride > 0,
        0 <= modulo < len,
    ensures
        (len - modulo - 1) / stride + 1 == sampled_len(len, stride, modulo),
        ((len - modulo - 1) / stride) * stride <= len - modulo - 1,
        (len - modulo - 1) / stride >= 0,
        forall|k: int|
            0 <= k < sampled_len(len, stride, modulo) ==> 0 <= #[trigger] sampled(stride, modulo, k)
                < len,
{
    let x = len - modulo - 1;
    vstd::arithmetic::div_mod::lemma_div_plus_one(x, stride);
    vstd::arithmetic::div_mod::lemma_fundamental_div_mod(x, stride);
    vstd::arithmetic::div_mod::lemma_mod_bound(x, stride);
    vstd::arithmetic::div_mod::lemma_div_pos_is_pos(x, stride);
    assert(stride * (x / stride) == (x / stride) * stride) by (nonlinear_arith);
    assert forall|k: int| 0 <= k < sampled_len(len, stride, modulo) implies 0 <= #[trigger] sampled(
        stride,
        modulo,
        k,
    ) < len by {
        assert(0 <= k * stride <= (x / stride) * stride) by (nonlinear_arith)
            requires
                0 <= k <= x / stride,
                stride > 0,
        ;
    }
}

impl Pad {
    /// The value that a constant padding fills with: the first datum of its
    /// tensor, or zero.
    pub open spec fn constant(&self) -> i64 {
        match self.mode {
            PadMode::Constant(t) => if t.data.len() > 0 {
                t.data[0]
            } else {
                0
            },
            _ => 0,
        }
    }

    /// Why the padding cannot be computed on one axis of `len` elements,
    /// if it cannot: it pads one axis; the edge value needs an element;
    /// and a reflection needs more elements than it pads on either side.
    pub open spec fn eval_refusal(&self, len: int) -> Option<OpError> {
        if self.pads.len() != 1 {
            Some(OpError::WrongArity(self.pads.len() as usize))
        } else if self.pads[0].0 + len + self.pads[0].1 > usize::MAX {
            Some(OpError::Overflow)
        } else if self.mode is Edge && len == 0 && self.pads[0].0 + self.pads[0].1 > 0 {
            Some(OpError::Overflow)
        } else if self.mode is Reflect && (self.pads[0].0 >= len && self.pads[0].0 > 0
            || self.pads[0].1 >= len && self.pads[0].1 > 0) {
            Some(OpError::Overflow)
        } else {
            None
        }
    }

    /// The padded `input`, where it can be computed.
    pub open spec fn outcome(&self, input: Seq<i64>) -> Result<Seq<i64>, OpError> {
        match self.eval_refusal(input.len() as int) {
            Some(e) => Err(e),
            None => Ok(
                Seq::new(
                    (self.pads[0].0 + input.len() + self.pads[0].1) as nat,
                    |i: int|
                        padded_at(
                            &self.mode,
                            self.constant(),
                            input,
                            self.pads[0].0 as int,
                            self.pads[0].1 as int,
                            i,
                        ),
                ),
            ),
        }
    }

    /// The padded `input`.
    pub fn eval(&self, input: &Vec<i64>) -> (r: Result<Vec<i64>, OpError>)
        ensures
            gives(r, self.outcome(input@)),
    {
        if self.pads.len() != 1 {
            return Err(OpError::WrongArity(self.pads.len()));
        }
        let (before, after) = self.pads[0];
        let len = input.len();
        if before > usize::MAX - len || after > usize::MAX - len - before {
            return Err(OpError::Overflow);
        }
        let edge = match &self.mode {
            PadMode::Edge => true,
            _ => false,
        };
        let reflect = match &self.mode {
            PadMode::Reflect => true,
            _ => false,
        };
        if edge && len == 0 && (before > 0 || after > 0) {
            return Err(OpError::Overflow);
        }
        if reflect && ((before >= len && before > 0) || (after >= len && after > 0)) {
            return Err(OpError::Overflow);
        }
        let constant: i64 = match &self.mode {
            PadMode::Constant(t) => if t.data.len() > 0 {
                t.data[0]
            } else {
                0
            },
            _ => 0,
        };
        let total = before + len + after;
        let mut out: Vec<i64> = Vec::new();
        let mut i: usize = 0;
        while i < total
            invariant
                0 <= i <= total,
                total == before + len + after,
                len == input.len(),
                self.pads.len() == 1,
                self.pads[0] == (before, after),
                constant == self.constant(),
                edge == (self.mode is Edge),
                reflect == (self.mode is Reflect),
                self.eval_refusal(len as int).is_none(),
                out.len() == i,
                forall|k: int|
                    0 <= k < i ==> #[trigger] out[k] == padded_at(
                        &self.mode,
                        constant,
                        input@,
                        before as int,
                        after as int,
                        k,
                    ),
            decreases total - i,
        {
            let x = if i >= before && i - before < len {
                input[i - before]
            } else if edge {
                if i < before {
                    input[0]
                } else {
                    input[len - 1]
                }
            } else if reflect {
                if i < before {
                    input[before - i]
                } else {
                    input[len - 2 - (i - before - len)]
                }
            } else {
                constant
            };
            out.push(x);
            i += 1;
        }
        assert(out@ =~= self.outcome(input@)->Ok_0);
        Ok(out)
    }
}

} // verus!
