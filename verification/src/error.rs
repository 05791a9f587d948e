//! Why an operator refuses a request.

use vstd::prelude::*;
use crate::dim::eval::DimError;

verus! {

/// Why an operator refuses a request.
#[derive(Debug, Clone, Copy, PartialEq, Eq, Structural)]
pub enum OpError {
    /// The operator has not this many inputs.
    WrongArity(usize),
    /// The tensor has no such axis.
    NoSuchAxis(usize),
    /// A size leaves the range of the integers that hold it.
    Overflow,
    /// A dimension that has to be a number depends on the stream.
    Symbolic(DimError),
    /// Pad: a stream can be padded along its streaming axis only; this
    /// other axis is padded.
    PadOffStream(usize),
    /// Pad: padding with the edge value needs a pulse bigger than the left
    /// padding.
    PadEdgePulse { pulse: usize, padding: usize },
    /// Pad: padding by reflection cannot be done on a stream.
    PadReflect,
    /// Downsample: the pulse has to be a multiple of the stride.
    DownsamplePulse { pulse: usize, stride: usize },
    /// Downsample: the stride is zero.
    DownsampleStride,
    /// The fact says less of the stream than the operator produces.
    DelayUnderflow { delay: usize, needed: usize },
    /// The operator has no streaming form.
    NotPulsable,
    /// No axis of the input streams, or more than one does.
    NoStreamAxis,
    /// The operator computes nothing by itself, or nothing on one axis.
    NoEval,
    /// A value that the operator needs has not been computed.
    NoValue(usize),
    /// The data have not as many channels as the kernel expects.
    ChannelMismatch,
    /// The value of this input has to be known, and is not.
    NotConstant(usize),
}

} // verus!
