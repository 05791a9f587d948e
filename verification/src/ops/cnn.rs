//! Convolution and pooling: their parameters, and the shapes they give.

use vstd::prelude::*;
use crate::datum::DatumType;
use crate::dim::tree::{Expr, lemma_views_len, views};
use crate::error::OpError;
use crate::facts::TypedFact;
use crate::quant::{QParams, cleaned_as};
use crate::tensor::{Tensor, copied, same_option};

verus! {

/// How the axes of the data are laid out: batch, channels and then the
/// spatial axes, or batch, the spatial axes and then channels.
#[derive(Debug, Clone, Copy, PartialEq, Eq, Structural)]
pub enum DataFormat {
    NCHW,
    NHWC,
}

/// How the axes of a kernel are laid out: output channels, input channels
/// and then the spatial axes, or the spatial axes, input channels and then
/// output channels.
#[derive(Debug, Clone, Copy, PartialEq, Eq, Structural)]
pub enum KernelFormat {
    OIHW,
    HWIO,
}

/// How the data are padded before the kernel moves over them.
#[derive(Debug, PartialEq, Eq)]
pub enum PaddingSpec {
    /// Given for each spatial axis, before and after.
    Explicit(Vec<usize>, Vec<usize>),
    /// None: the kernel stays within the data.
    Valid,
    /// As much as keeps the size over the stride, the odd element after.
    SameUpper,
    /// As much as keeps the size over the stride, the odd element before.
    SameLower,
}

impl PaddingSpec {
    pub open spec fn same(&self, other: &PaddingSpec) -> bool {
        match (self, other) {
            (PaddingSpec::Explicit(a, b), PaddingSpec::Explicit(c, d)) => a@ == c@ && b@ == d@,
            (PaddingSpec::Valid, PaddingSpec::Valid) => true,
            (PaddingSpec::SameUpper, PaddingSpec::SameUpper) => true,
            (PaddingSpec::SameLower, PaddingSpec::SameLower) => true,
            _ => false,
        }
    }

    pub fn duplicate(&self) -> (r: PaddingSpec)
        ensures
            r.same(self),
    {
        match self {
            PaddingSpec::Explicit(a, b) => PaddingSpec::Explicit(copied(a), copied(b)),
            PaddingSpec::Valid => PaddingSpec::Valid,
            PaddingSpec::SameUpper => PaddingSpec::SameUpper,
            PaddingSpec::SameLower => PaddingSpec::SameLower,
        }
    }
}

/// `a` over `b`, rounded up.
pub open spec fn ceil_div(a: int, b: int) -> int {
    (a + b - 1) / b
}

/// The length of what a kernel of `kernel` elements, `dilation` apart,
/// gives of `input` elements padded by `pad` in all, with a stride of
/// `stride`: the places where the kernel fits, over the stride, rounded up.
pub open spec fn conv_len(input: int, kernel: int, dilation: int, stride: int, pad: int) -> int {
    let field = (kernel - 1) * dilation + 1;
    if input + pad + 1 >= field {
        ceil_div(input + pad + 1 - field, stride)
    } else {
        0
    }
}

/// The length that a spatial axis of `input` elements has after the
/// kernel, for the padding `spec`, of which `before` and `after` are what
/// an explicit padding gives this axis.
pub open spec fn output_len(
    spec: &PaddingSpec,
    input: int,
    kernel: int,
    dilation: int,
    stride: int,
    before: int,
    after: int,
) -> int {
    match spec {
        PaddingSpec::Valid => conv_len(input, kernel, dilation, stride, 0),
        PaddingSpec::Explicit(_, _) => conv_len(input, kernel, dilation, stride, before + after),
        PaddingSpec::SameUpper => ceil_div(input, stride),
        PaddingSpec::SameLower => ceil_div(input, stride),
    }
}

/// What a kernel that stays within the padded data leaves of an axis, or
/// why nothing: the field of the kernel or the padded length cannot be
/// counted.
pub open spec fn valid_outcome(input: int, kernel: int, dilation: int, stride: int, pad: int) -> Result<
    int,
    OpError,
> {
    if (kernel - 1) * dilation >= usize::MAX || input + pad >= usize::MAX {
        Err(OpError::Overflow)
    } else {
        Ok(conv_len(input, kernel, dilation, stride, pad))
    }
}

/// The length that the spatial axis `axis` of `input` elements has after
/// the kernel, or why it has none: the stride or the kernel is zero, an
/// explicit padding says nothing of the axis, or a length cannot be
/// counted.
pub open spec fn len_outcome(
    spec: &PaddingSpec,
    axis: int,
    input: int,
    kernel: int,
    dilation: int,
    stride: int,
) -> Result<int, OpError> {
    if stride == 0 || kernel == 0 {
        Err(OpError::Overflow)
    } else {
        match spec {
            PaddingSpec::SameUpper => Ok(ceil_div(input, stride)),
            PaddingSpec::SameLower => Ok(ceil_div(input, stride)),
            PaddingSpec::Valid => valid_outcome(input, kernel, dilation, stride, 0),
            PaddingSpec::Explicit(b, a) => if axis >= b.len() || axis >= a.len() {
                Err(OpError::NoSuchAxis(axis as usize))
            } else if b[axis] + a[axis] > usize::MAX {
                Err(OpError::Overflow)
            } else {
                valid_outcome(input, kernel, dilation, stride, b[axis] + a[axis])
            },
        }
    }
}

/// `a` over `b`, rounded up.
fn div_up(a: usize, b: usize) -> (r: usize)
    requires
        b > 0,
    ensures
        r == ceil_div(a as int, b as int),
{
    crate::ops::scan::iterations(a, b)
}

/// The length that one spatial axis has after the kernel.
pub fn compute_len(
    spec: &PaddingSpec,
    axis: usize,
    input: usize,
    kernel: usize,
    dilation: usize,
    stride: usize,
) -> (r: Result<usize, OpError>)
    ensures
        match r {
            Ok(n) => {
                &&& stride > 0
                &&& kernel > 0
                &&& match spec {
                    PaddingSpec::Explicit(b, a) => axis < b.len() && axis < a.len() && n
                        == output_len(
                        spec,
                        input as int,
                        kernel as int,
                        dilation as int,
                        stride as int,
                        b[axis as int] as int,
                        a[axis as int] as int,
                    ),
                    _ => n == output_len(
                        spec,
                        input as int,
                        kernel as int,
                        dilation as int,
                        stride as int,
                        0,
                        0,
                    ),
                }
            },
            Err(e) => len_outcome(
                spec,
                axis as int,
                input as int,
                kernel as int,
                dilation as int,
                stride as int,
            ) == Err::<int, OpError>(e),
        },
        r is Ok ==> len_outcome(
            spec,
            axis as int,
            input as int,
            kernel as int,
            dilation as int,
            stride as int,
        ) == Ok::<int, OpError>(r.unwrap() as int),
{
    if stride == 0 || kernel == 0 {
        return Err(OpError::Overflow);
    }
    match spec {
        PaddingSpec::SameUpper | PaddingSpec::SameLower => Ok(div_up(input, stride)),
        PaddingSpec::Valid => conv_valid(input, kernel, dilation, stride, 0),
        PaddingSpec::Explicit(bef, aft) => {
            if axis >= bef.len() || axis >= aft.len() {
                return Err(OpError::NoSuchAxis(axis));
            }
            if aft[axis] > usize::MAX - bef[axis] {
                return Err(OpError::Overflow);
            }
            conv_valid(input, kernel, dilation, stride, bef[axis] + aft[axis])
        },
    }
}

fn conv_valid(input: usize, kernel: usize, dilation: usize, stride: usize, pad: usize) -> (r: Result<
    usize,
    OpError,
>)
    requires
        stride > 0,
        kernel > 0,
    ensures
        match r {
            Ok(n) => valid_outcome(
                input as int,
                kernel as int,
                dilation as int,
                stride as int,
                pad as int,
            ) == Ok::<int, OpError>(n as int),
            Err(e) => valid_outcome(
                input as int,
                kernel as int,
                dilation as int,
                stride as int,
                pad as int,
            ) == Err::<int, OpError>(e),
        },
{
    let span = match (kernel - 1).checked_mul(dilation) {
        Some(s) => s,
        None => {
            return Err(OpError::Overflow);
        },
    };
    if span == usize::MAX || pad > usize::MAX - input || input + pad == usize::MAX {
        return Err(OpError::Overflow);
    }
    let field = span + 1;
    let room = input + pad + 1;
    if room >= field {
        Ok(div_up(room - field, stride))
    } else {
        Ok(0)
    }
}

/// A convolution as a model gives it, before its kernel is known.
#[derive(Debug, PartialEq, Eq)]
pub struct Conv {
    pub data_format: DataFormat,
    pub kernel_fmt: KernelFormat,
    pub dilations: Option<Vec<usize>>,
    pub kernel_shape: Option<Vec<usize>>,
    pub padding: PaddingSpec,
    pub strides: Option<Vec<usize>>,
    pub group: Option<usize>,
    pub x_scale_input: Option<usize>,
    pub x_zero_point_input: Option<usize>,
    pub k_input: Option<usize>,
    pub k_scale_input: Option<usize>,
    pub k_zero_point_input: Option<usize>,
    pub y_scale_input: Option<usize>,
    pub y_zero_point_input: Option<usize>,
    pub bias_input: Option<usize>,
    pub override_output_datum_type: Option<DatumType>,
}

impl Conv {
    /// The convolution of NCHW data by an OIHW kernel, without padding,
    /// and with nothing else said.
    pub fn new() -> (r: Conv)
        ensures
            r.data_format == DataFormat::NCHW,
            r.kernel_fmt == KernelFormat::OIHW,
            r.dilations.is_none(),
            r.kernel_shape.is_none(),
            r.padding is Valid,
            r.strides.is_none(),
            r.group.is_none(),
            r.x_scale_input.is_none(),
            r.x_zero_point_input.is_none(),
            r.k_input.is_none(),
            r.k_scale_input.is_none(),
            r.k_zero_point_input.is_none(),
            r.y_scale_input.is_none(),
            r.y_zero_point_input.is_none(),
            r.bias_input.is_none(),
            r.override_output_datum_type.is_none(),
    {
        Conv {
            data_format: DataFormat::NCHW,
            kernel_fmt: KernelFormat::OIHW,
            dilations: None,
            kernel_shape: None,
            padding: PaddingSpec::Valid,
            strides: None,
            group: None,
            x_scale_input: None,
            x_zero_point_input: None,
            k_input: None,
            k_scale_input: None,
            k_zero_point_input: None,
            y_scale_input: None,
            y_zero_point_input: None,
            bias_input: None,
            override_output_datum_type: None,
        }
    }

    /// The same convolution, of NHWC data.
    pub fn nhwc(self) -> (r: Conv)
        ensures
            r == (Conv { data_format: DataFormat::NHWC, ..self }),
    {
        Conv { data_format: DataFormat::NHWC, ..self }
    }

    /// The same convolution, by an HWIO kernel.
    pub fn hwio(self) -> (r: Conv)
        ensures
            r == (Conv { kernel_fmt: KernelFormat::HWIO, ..self }),
    {
        Conv { kernel_fmt: KernelFormat::HWIO, ..self }
    }

    /// The same convolution, with the padding `padding`.
    pub fn padding(self, padding: PaddingSpec) -> (r: Conv)
        ensures
            r == (Conv { padding, ..self }),
    {
        Conv { padding, ..self }
    }

    /// The same convolution, with the dilations `dilations`.
    pub fn dilations(self, dilations: Vec<usize>) -> (r: Conv)
        ensures
            r == (Conv { dilations: Some(dilations), ..self }),
    {
        Conv { dilations: Some(dilations), ..self }
    }

    /// The same convolution, in `group` groups.
    pub fn group(self, group: usize) -> (r: Conv)
        ensures
            r == (Conv { group: Some(group), ..self }),
    {
        Conv { group: Some(group), ..self }
    }

    /// The same convolution, with the strides `strides`.
    pub fn strides(self, strides: Vec<usize>) -> (r: Conv)
        ensures
            r == (Conv { strides: Some(strides), ..self }),
    {
        Conv { strides: Some(strides), ..self }
    }

    /// The same convolution, by a kernel of the spatial shape
    /// `kernel_shape`.
    pub fn kernel_shape(self, kernel_shape: Vec<usize>) -> (r: Conv)
        ensures
            r == (Conv { kernel_shape: Some(kernel_shape), ..self }),
    {
        Conv { kernel_shape: Some(kernel_shape), ..self }
    }

    /// The same convolution, with its bias at the input `input`.
    pub fn bias_input(self, input: usize) -> (r: Conv)
        ensures
            r == (Conv { bias_input: Some(input), ..self }),
    {
        Conv { bias_input: Some(input), ..self }
    }

    /// The same convolution, with the zero point of the data at the input
    /// `input`.
    pub fn x_zero_point_input(self, input: usize) -> (r: Conv)
        ensures
            r == (Conv { x_zero_point_input: Some(input), ..self }),
    {
        Conv { x_zero_point_input: Some(input), ..self }
    }

    /// The same convolution, with the zero point of the kernel at the
    /// input `input`.
    pub fn k_zero_point_input(self, input: usize) -> (r: Conv)
        ensures
            r == (Conv { k_zero_point_input: Some(input), ..self }),
    {
        Conv { k_zero_point_input: Some(input), ..self }
    }

    /// The same convolution, with outputs of the type
    /// `override_output_datum_type`.
    pub fn override_output_datum_type(self, override_output_datum_type: DatumType) -> (r: Conv)
        ensures
            r == (Conv { override_output_datum_type: Some(override_output_datum_type), ..self }),
    {
        Conv { override_output_datum_type: Some(override_output_datum_type), ..self }
    }

    /// The first spatial axis of the data.
    pub open spec fn h_axis(&self) -> int {
        match self.data_format {
            DataFormat::NCHW => 2,
            DataFormat::NHWC => 1,
        }
    }

    /// The axis of the channels of data of `rank` axes.
    pub open spec fn c_axis(&self, rank: int) -> int {
        match self.data_format {
            DataFormat::NCHW => 1,
            DataFormat::NHWC => rank - 1,
        }
    }

    /// The first spatial axis of the kernel.
    pub open spec fn kernel_h_axis(&self) -> int {
        match self.kernel_fmt {
            KernelFormat::OIHW => 2,
            KernelFormat::HWIO => 0,
        }
    }

    /// The number of output channels that a kernel of shape `kshape` gives.
    pub open spec fn channels_out(&self, kshape: Seq<usize>) -> int {
        match self.kernel_fmt {
            KernelFormat::OIHW => kshape[0] as int,
            KernelFormat::HWIO => kshape[kshape.len() - 1] * (match self.group {
                Some(g) => g as int,
                None => 1,
            }),
        }
    }

    /// The stride along the spatial axis `ix`: one where none is given.
    pub open spec fn stride_at(&self, ix: int) -> int {
        match self.strides {
            Some(s) => if ix < s.len() {
                s[ix] as int
            } else {
                1
            },
            None => 1,
        }
    }

    /// The dilation along the spatial axis `ix`: one where none is given.
    pub open spec fn dilation_at(&self, ix: int) -> int {
        match self.dilations {
            Some(s) => if ix < s.len() {
                s[ix] as int
            } else {
                1
            },
            None => 1,
        }
    }

    /// What an explicit padding gives the spatial axis `ix`.
    pub open spec fn pads_at(&self, ix: int) -> (int, int) {
        match self.padding {
            PaddingSpec::Explicit(b, a) => (
                if ix < b.len() {
                    b[ix] as int
                } else {
                    0
                },
                if ix < a.len() {
                    a[ix] as int
                } else {
                    0
                },
            ),
            _ => (0, 0),
        }
    }

    /// Why the spatial axes from `ix` on have no length after the kernel,
    /// if one has none: what the first of them lacks.
    pub open spec fn spatial_refusal(&self, ishape: Seq<usize>, kshape: Seq<usize>, ix: int) -> Option<
        OpError,
    >
        decreases ishape.len() - 2 - ix,
    {
        if ix < 0 || ix >= ishape.len() - 2 {
            None
        } else {
            match len_outcome(
                &self.padding,
                ix,
                ishape[self.h_axis() + ix] as int,
                kshape[self.kernel_h_axis() + ix] as int,
                self.dilation_at(ix),
                self.stride_at(ix),
            ) {
                Err(e) => Some(e),
                Ok(_) => self.spatial_refusal(ishape, kshape, ix + 1),
            }
        }
    }

    /// Why data of the shape `ishape` and a kernel of the shape `kshape`
    /// give no output, if they give none: they are not of one rank of three
    /// at least, the output channels cannot be counted, or a spatial axis
    /// has no length.
    pub open spec fn shape_refusal(&self, ishape: Seq<usize>, kshape: Seq<usize>) -> Option<OpError> {
        if ishape.len() < 3 || kshape.len() != ishape.len() {
            Some(OpError::WrongArity(ishape.len() as usize))
        } else if self.kernel_fmt is HWIO && self.channels_out(kshape) > usize::MAX {
            Some(OpError::Overflow)
        } else {
            self.spatial_refusal(ishape, kshape, 0)
        }
    }

    fn stride(&self, ix: usize) -> (r: usize)
        ensures
            r == self.stride_at(ix as int),
    {
        match &self.strides {
            Some(s) => if ix < s.len() {
                s[ix]
            } else {
                1
            },
            None => 1,
        }
    }

    fn dilation(&self, ix: usize) -> (r: usize)
        ensures
            r == self.dilation_at(ix as int),
    {
        match &self.dilations {
            Some(s) => if ix < s.len() {
                s[ix]
            } else {
                1
            },
            None => 1,
        }
    }

    /// The shape of the output for data of shape `ishape` and a kernel of
    /// shape `kshape`, both of the same rank of three at least: the batch
    /// stays, the channels are those that the kernel gives, and each
    /// spatial axis has the length that the padding, the kernel, the
    /// dilation and the stride leave it.
    pub fn output_shape(&self, ishape: &Vec<usize>, kshape: &Vec<usize>) -> (r: Result<
        Vec<usize>,
        OpError,
    >)
        ensures
            r is Ok ==> {
                let out = r.unwrap();
                let rank = ishape.len() as int;
                &&& rank >= 3
                &&& kshape.len() == rank
                &&& out.len() == rank
                &&& out[0] == ishape[0]
                &&& out[self.c_axis(rank)] == self.channels_out(kshape@)
                &&& forall|ix: int|
                    0 <= ix < rank - 2 ==> (#[trigger] out[self.h_axis() + ix]) as int
                        == output_len(
                        &self.padding,
                        ishape[self.h_axis() + ix] as int,
                        kshape[self.kernel_h_axis() + ix] as int,
                        self.dilation_at(ix),
                        self.stride_at(ix),
                        self.pads_at(ix).0,
                        self.pads_at(ix).1,
                    )
            },
            match r {
                Ok(_) => self.shape_refusal(ishape@, kshape@).is_none(),
                Err(e) => self.shape_refusal(ishape@, kshape@) == Some(e),
            },
    {
        let rank = ishape.len();
        if rank < 3 || kshape.len() != rank {
            return Err(OpError::WrongArity(rank));
        }
        let (h_axis, c_axis) = match self.data_format {
            DataFormat::NCHW => (2usize, 1usize),
            DataFormat::NHWC => (1usize, rank - 1),
        };
        let kh_axis: usize = match self.kernel_fmt {
            KernelFormat::OIHW => 2,
            KernelFormat::HWIO => 0,
        };
        let channels_out = match self.kernel_fmt {
            KernelFormat::OIHW => kshape[0],
            KernelFormat::HWIO => {
                let g = match self.group {
                    Some(g) => g,
                    None => 1,
                };
                match kshape[rank - 1].checked_mul(g) {
                    Some(c) => c,
                    None => {
                        return Err(OpError::Overflow);
                    },
                }
            },
        };
        let mut out = copied(ishape);
        out.set(c_axis, channels_out);
        let mut ix: usize = 0;
        while ix < rank - 2
            invariant
                0 <= ix <= rank - 2,
                rank == ishape.len(),
                rank >= 3,
                kshape.len() == rank,
                out.len() == rank,
                h_axis == self.h_axis(),
                c_axis == self.c_axis(rank as int),
                kh_axis == self.kernel_h_axis(),
                out[0] == ishape[0],
                out[c_axis as int] == channels_out,
                self.shape_refusal(ishape@, kshape@) == self.spatial_refusal(
                    ishape@,
                    kshape@,
                    ix as int,
                ),
                forall|j: int|
                    0 <= j < ix ==> (#[trigger] out[h_axis + j]) as int == output_len(
                        &self.padding,
                        ishape[h_axis + j] as int,
                        kshape[kh_axis + j] as int,
                        self.dilation_at(j),
                        self.stride_at(j),
                        self.pads_at(j).0,
                        self.pads_at(j).1,
                    ),
            decreases rank - 2 - ix,
        {
            let n = match compute_len(
                &self.padding,
                ix,
                ishape[h_axis + ix],
                kshape[kh_axis + ix],
                self.dilation(ix),
                self.stride(ix),
            ) {
                Ok(n) => n,
                Err(e) => {
                    return Err(e);
                },
            };
            out.set(h_axis + ix, n);
            ix += 1;
        }
        Ok(out)
    }
}

/// What a pooling moves over the data: a window of the shape
/// `kernel_shape`, with its padding and strides.
#[derive(Debug, PartialEq, Eq)]
pub struct PoolSpec {
    pub data_format: DataFormat,
    pub kernel_shape: Vec<usize>,
    pub padding: PaddingSpec,
    pub strides: Option<Vec<usize>>,
}

/// The average over a window that moves over the data.
#[derive(Debug, PartialEq, Eq)]
pub struct AvgPool {
    pub pool_spec: PoolSpec,
    pub count_include_pad: bool,
}

/// The average over a window that moves over data of a known shape.
#[derive(Debug, PartialEq, Eq)]
pub struct AvgPoolFixed {
    pub input_shape: Vec<usize>,
    pub output_shape: Vec<usize>,
    pub datum_type: DatumType,
    pub count_include_pad: bool,
}

impl AvgPool {
    pub fn new(pool_spec: PoolSpec, count_include_pad: bool) -> (r: AvgPool)
        ensures
            r.pool_spec == pool_spec,
            r.count_include_pad == count_include_pad,
    {
        AvgPool { pool_spec, count_include_pad }
    }

    /// The stride along the spatial axis `ix`: one where none is given.
    pub open spec fn stride_at(&self, ix: int) -> int {
        match self.pool_spec.strides {
            Some(s) => if ix < s.len() {
                s[ix] as int
            } else {
                1
            },
            None => 1,
        }
    }

    /// What an explicit padding gives the spatial axis `ix`.
    pub open spec fn pads_at(&self, ix: int) -> (int, int) {
        match self.pool_spec.padding {
            PaddingSpec::Explicit(b, a) => (
                if ix < b.len() {
                    b[ix] as int
                } else {
                    0
                },
                if ix < a.len() {
                    a[ix] as int
                } else {
                    0
                },
            ),
            _ => (0, 0),
        }
    }

    /// The first spatial axis of the data.
    pub open spec fn h_axis(&self) -> int {
        match self.pool_spec.data_format {
            DataFormat::NCHW => 2,
            DataFormat::NHWC => 1,
        }
    }

    /// Why the spatial axes from `ix` on have no length after the window,
    /// if one has none: what the first of them lacks.
    pub open spec fn spatial_refusal(&self, input_shape: Seq<usize>, ix: int) -> Option<OpError>
        decreases input_shape.len() - 2 - ix,
    {
        if ix < 0 || ix >= input_shape.len() - 2 {
            None
        } else {
            match len_outcome(
                &self.pool_spec.padding,
                ix,
                input_shape[self.h_axis() + ix] as int,
                self.pool_spec.kernel_shape[ix] as int,
                1,
                self.stride_at(ix),
            ) {
                Err(e) => Some(e),
                Ok(_) => self.spatial_refusal(input_shape, ix + 1),
            }
        }
    }

    /// Why there is no pooling for data of the shape `input_shape`, if
    /// there is none: the data have not batch, channels and as many
    /// spatial axes as the window, or a spatial axis has no length.
    pub open spec fn fixed_refusal(&self, input_shape: Seq<usize>) -> Option<OpError> {
        if input_shape.len() != self.pool_spec.kernel_shape.len() + 2 {
            Some(OpError::WrongArity(input_shape.len() as usize))
        } else {
            self.spatial_refusal(input_shape, 0)
        }
    }

    /// The pooling for data of the type `datum_type` and of the shape
    /// `input_shape`, which has batch, channels and as many spatial axes as
    /// the window: the batch and the channels stay, and each spatial axis
    /// has the length that the padding, the window and the stride leave it.
    pub fn to_fixed(&self, datum_type: DatumType, input_shape: &Vec<usize>) -> (r: Result<
        AvgPoolFixed,
        OpError,
    >)
        ensures
            r is Ok ==> {
                let f = r.unwrap();
                let rank = input_shape.len() as int;
                &&& rank == self.pool_spec.kernel_shape.len() + 2
                &&& f.input_shape@ == input_shape@
                &&& f.datum_type == datum_type
                &&& f.count_include_pad == self.count_include_pad
                &&& f.output_shape.len() == rank
                &&& forall|i: int|
                    0 <= i < rank && !(self.h_axis() <= i < self.h_axis() + rank - 2)
                        ==> #[trigger] f.output_shape[i] == input_shape[i]
                &&& forall|ix: int|
                    0 <= ix < rank - 2 ==> (#[trigger] f.output_shape[self.h_axis() + ix]) as int
                        == output_len(
                        &self.pool_spec.padding,
                        input_shape[self.h_axis() + ix] as int,
                        self.pool_spec.kernel_shape[ix] as int,
                        1,
                        self.stride_at(ix),
                        self.pads_at(ix).0,
                        self.pads_at(ix).1,
                    )
            },
            match r {
                Ok(_) => self.fixed_refusal(input_shape@).is_none(),
                Err(e) => self.fixed_refusal(input_shape@) == Some(e),
            },
    {
        let rank = input_shape.len();
        if rank < 2 || rank - 2 != self.pool_spec.kernel_shape.len() {
            return Err(OpError::WrongArity(rank));
        }
        let h_axis: usize = match self.pool_spec.data_format {
            DataFormat::NCHW => 2,
            DataFormat::NHWC => 1,
        };
        let mut out = copied(input_shape);
        let mut ix: usize = 0;
        while ix < rank - 2
            invariant
                0 <= ix <= rank - 2,
                rank == input_shape.len(),
                rank >= 2,
                rank - 2 == self.pool_spec.kernel_shape.len(),
                out.len() == rank,
                h_axis == self.h_axis(),
                self.fixed_refusal(input_shape@) == self.spatial_refusal(input_shape@, ix as int),
                forall|i: int|
                    0 <= i < rank && !(h_axis <= i < h_axis + ix) ==> #[trigger] out[i]
                        == input_shape[i],
                forall|j: int|
                    0 <= j < ix ==> (#[trigger] out[h_axis + j]) as int == output_len(
                        &self.pool_spec.padding,
                        input_shape[h_axis + j] as int,
                        self.pool_spec.kernel_shape[j] as int,
                        1,
                        self.stride_at(j),
                        self.pads_at(j).0,
                        self.pads_at(j).1,
                    ),
            decreases rank - 2 - ix,
        {
            let stride = match &self.pool_spec.strides {
                Some(s) => if ix < s.len() {
                    s[ix]
                } else {
                    1
                },
                None => 1,
            };
            let n = match compute_len(
                &self.pool_spec.padding,
                ix,
                input_shape[h_axis + ix],
                self.pool_spec.kernel_shape[ix],
                1,
                stride,
            ) {
                Ok(n) => n,
                Err(e) => {
                    return Err(e);
                },
            };
            out.set(h_axis + ix, n);
            ix += 1;
        }
        Ok(
            AvgPoolFixed {
                input_shape: copied(input_shape),
                output_shape: out,
                datum_type,
                count_include_pad: self.count_include_pad,
            },
        )
    }
}

/// A convolution whose kernel is known: the kernel, the bias if there is
/// one, and for a quantized convolution the scales of the data, of the
/// kernel and of the output, as far as they are given, and the zero
/// points, of the kernel as those of the first factor and of the data as
/// those of the second.
#[derive(Debug, PartialEq, Eq)]
pub struct ConvUnary {
    pub data_format: DataFormat,
    pub kernel_fmt: KernelFormat,
    pub padding: PaddingSpec,
    pub dilations: Option<Vec<usize>>,
    pub strides: Option<Vec<usize>>,
    pub kernel: Tensor,
    pub group: usize,
    pub bias: Option<Tensor>,
    pub output_datum_type: DatumType,
    pub x_scale: Option<Tensor>,
    pub k_scale: Option<Tensor>,
    pub y_scale: Option<Tensor>,
    pub qp: Option<QParams>,
}

/// Whether `zp` is the zero point that the input `slot` gives: what the
/// value of that input comes down to, and none where no input is named.
pub open spec fn zero_point_from(zp: &Option<Tensor>, inputs: Seq<TypedFact>, slot: Option<usize>) -> bool {
    match konst_outcome(inputs, slot) {
        Ok(Some(t)) => cleaned_as(zp, &t),
        _ => zp.is_none(),
    }
}

/// The value that is known of the input `slot`, where an input is named;
/// or why there is none: there is no such input, or its value is not
/// known.
pub open spec fn konst_outcome(inputs: Seq<TypedFact>, slot: Option<usize>) -> Result<
    Option<Tensor>,
    OpError,
> {
    match slot {
        None => Ok(None),
        Some(s) => if s >= inputs.len() {
            Err(OpError::WrongArity(inputs.len() as usize))
        } else {
            match inputs[s as int].konst {
                Some(t) => Ok(Some(t)),
                None => Err(OpError::NotConstant(s)),
            }
        },
    }
}

/// Whether the two lists are both absent or hold the same.
pub open spec fn same_sizes_option(a: &Option<Vec<usize>>, b: &Option<Vec<usize>>) -> bool {
    match (a, b) {
        (Some(x), Some(y)) => x@ == y@,
        (None, None) => true,
        _ => false,
    }
}

/// The value that is known of the input `slot`, where an input is named.
fn konst_at(inputs: &Vec<TypedFact>, slot: Option<usize>) -> (r: Result<Option<Tensor>, OpError>)
    ensures
        match r {
            Ok(t) => konst_outcome(inputs@, slot) matches Ok(k) && same_option(&t, &k),
            Err(e) => konst_outcome(inputs@, slot) == Err::<Option<Tensor>, OpError>(e),
        },
{
    match slot {
        None => Ok(None),
        Some(s) => {
            if s >= inputs.len() {
                return Err(OpError::WrongArity(inputs.len()));
            }
            match &inputs[s].konst {
                Some(t) => Ok(Some(t.duplicate())),
                None => Err(OpError::NotConstant(s)),
            }
        },
    }
}

/// A copy of a list that may be absent.
fn copied_option(a: &Option<Vec<usize>>) -> (r: Option<Vec<usize>>)
    ensures
        same_sizes_option(&r, a),
{
    match a {
        Some(v) => Some(copied(v)),
        None => None,
    }
}

impl Conv {
    /// The input that holds the kernel: the second, unless another is
    /// named.
    pub open spec fn kernel_slot(&self) -> int {
        match self.k_input {
            Some(k) => k as int,
            None => 1,
        }
    }

    /// The number of groups: one, unless another is given.
    pub open spec fn groups(&self) -> int {
        match self.group {
            Some(g) => g as int,
            None => 1,
        }
    }

    /// The number of channels of data of the shape `shape`.
    pub open spec fn c_dim(&self, shape: Seq<Expr>) -> Expr {
        match self.data_format {
            DataFormat::NCHW => shape[1],
            DataFormat::NHWC => shape[shape.len() - 1],
        }
    }

    /// The number of channels that a kernel of the shape `kshape` expects
    /// of the data.
    pub open spec fn channels_in(&self, kshape: Seq<Expr>) -> Expr {
        match self.kernel_fmt {
            KernelFormat::OIHW => kshape[1].times(self.groups()).reduced(),
            KernelFormat::HWIO => kshape[kshape.len() - 2],
        }
    }

    /// Why the data and the kernel of which `inputs` is known do not go
    /// together, if they do not: one of them is missing or has less than
    /// two axes, the groups cannot be counted, or the data have not the
    /// channels that the kernel expects.
    pub open spec fn channels_refusal(&self, inputs: Seq<TypedFact>) -> Option<OpError> {
        if inputs.len() == 0 || self.kernel_slot() >= inputs.len() {
            Some(OpError::WrongArity(inputs.len() as usize))
        } else if inputs[0].shape.len() < 2 || inputs[self.kernel_slot()].shape.len() < 2 {
            Some(OpError::NoSuchAxis(1))
        } else if self.kernel_fmt is OIHW && self.groups() > i32::MAX {
            Some(OpError::Overflow)
        } else if self.c_dim(views(inputs[0].shape@)) != self.channels_in(
            views(inputs[self.kernel_slot()].shape@),
        ) {
            Some(OpError::ChannelMismatch)
        } else {
            None
        }
    }

    /// The first of the scales, the zero points and the bias that is asked
    /// for and not to be had, in this order: the scales of the data, of
    /// the kernel and of the output, their zero points, the bias.
    pub open spec fn first_unknown(&self, inputs: Seq<TypedFact>) -> Option<OpError> {
        if let Err(e) = konst_outcome(inputs, self.x_scale_input) {
            Some(e)
        } else if let Err(e) = konst_outcome(inputs, self.k_scale_input) {
            Some(e)
        } else if let Err(e) = konst_outcome(inputs, self.y_scale_input) {
            Some(e)
        } else if let Err(e) = konst_outcome(inputs, self.x_zero_point_input) {
            Some(e)
        } else if let Err(e) = konst_outcome(inputs, self.k_zero_point_input) {
            Some(e)
        } else if let Err(e) = konst_outcome(inputs, self.y_zero_point_input) {
            Some(e)
        } else if let Err(e) = konst_outcome(inputs, self.bias_input) {
            Some(e)
        } else {
            None
        }
    }

    /// Why there is no saying whether the convolution has a known kernel,
    /// if there is none: the data and the kernel do not go together, or
    /// the kernel is known and a scale, a zero point or the bias is not.
    pub open spec fn unary_refusal(&self, inputs: Seq<TypedFact>) -> Option<OpError> {
        match self.channels_refusal(inputs) {
            Some(e) => Some(e),
            None => if inputs[self.kernel_slot()].konst.is_some() {
                self.first_unknown(inputs)
            } else {
                None
            },
        }
    }

    /// Whether `u` is the convolution with the kernel and the other values
    /// that are known of `inputs`.
    pub open spec fn reduced_to(&self, inputs: Seq<TypedFact>, u: &ConvUnary) -> bool {
        &&& u.data_format == self.data_format
        &&& u.kernel_fmt == self.kernel_fmt
        &&& u.padding.same(&self.padding)
        &&& same_sizes_option(&u.dilations, &self.dilations)
        &&& same_sizes_option(&u.strides, &self.strides)
        &&& same_option(&Some(u.kernel), &inputs[self.kernel_slot()].konst)
        &&& u.group == self.groups()
        &&& u.output_datum_type == (match self.override_output_datum_type {
            Some(dt) => dt,
            None => inputs[0].datum_type,
        })
        &&& konst_outcome(inputs, self.x_scale_input) matches Ok(t) && same_option(&u.x_scale, &t)
        &&& konst_outcome(inputs, self.k_scale_input) matches Ok(t) && same_option(&u.k_scale, &t)
        &&& konst_outcome(inputs, self.y_scale_input) matches Ok(t) && same_option(&u.y_scale, &t)
        &&& match u.qp {
            None => self.x_zero_point_input.is_none() && self.k_zero_point_input.is_none()
                && self.y_zero_point_input.is_none(),
            Some(q) => {
                &&& self.x_zero_point_input.is_some() || self.k_zero_point_input.is_some()
                    || self.y_zero_point_input.is_some()
                &&& q.c_datum_type == u.output_datum_type
                &&& zero_point_from(&q.zero_point_b, inputs, self.x_zero_point_input)
                &&& zero_point_from(&q.zero_point_a, inputs, self.k_zero_point_input)
                &&& zero_point_from(&q.zero_point_c, inputs, self.y_zero_point_input)
            },
        }
        &&& konst_outcome(inputs, self.bias_input) matches Ok(t) && same_option(&u.bias, &t)
    }

    /// Whether the data have the channels that the kernel expects.
    fn check_channels(&self, inputs: &Vec<TypedFact>) -> (r: Option<OpError>)
        ensures
            r == self.channels_refusal(inputs@),
    {
        let k = match self.k_input {
            Some(k) => k,
            None => 1,
        };
        if inputs.len() == 0 || k >= inputs.len() {
            return Some(OpError::WrongArity(inputs.len()));
        }
        let input = &inputs[0];
        let kernel = &inputs[k];
        if input.shape.len() < 2 || kernel.shape.len() < 2 {
            return Some(OpError::NoSuchAxis(1));
        }
        proof {
            lemma_views_len(input.shape@);
            lemma_views_len(kernel.shape@);
        }
        let channels_in = match self.kernel_fmt {
            KernelFormat::OIHW => {
                let g = match self.group {
                    Some(g) => g,
                    None => 1,
                };
                if g > 0x7fff_ffff {
                    return Some(OpError::Overflow);
                }
                kernel.shape[1].duplicate().times(g as i32)
            },
            KernelFormat::HWIO => kernel.shape[kernel.shape.len() - 2].duplicate(),
        };
        let c_dim = match self.data_format {
            DataFormat::NCHW => &input.shape[1],
            DataFormat::NHWC => &input.shape[input.shape.len() - 1],
        };
        if !c_dim.same(&channels_in) {
            return Some(OpError::ChannelMismatch);
        }
        None
    }

    /// The convolution with its kernel, where the kernel is known, and
    /// nothing where it is not. The data have to have the channels that
    /// the kernel expects; with a known kernel, the scales, the zero
    /// points and the bias that the convolution names have to be known
    /// too. Scaling by the scales is left to who runs the convolution.
    pub fn to_unary(&self, inputs: &Vec<TypedFact>) -> (r: Result<Option<ConvUnary>, OpError>)
        ensures
            match r {
                Ok(Some(u)) => self.unary_refusal(inputs@).is_none() && inputs[self.kernel_slot()].konst.is_some()
                    && self.reduced_to(inputs@, &u),
                Ok(None) => self.unary_refusal(inputs@).is_none() && inputs[self.kernel_slot()].konst.is_none(),
                Err(e) => self.unary_refusal(inputs@) == Some(e),
            },
    {
        match self.check_channels(inputs) {
            Some(e) => {
                return Err(e);
            },
            None => {},
        }
        let k = match self.k_input {
            Some(k) => k,
            None => 1,
        };
        let kernel = match &inputs[k].konst {
            Some(t) => t.duplicate(),
            None => {
                return Ok(None);
            },
        };
        let x_scale = match konst_at(inputs, self.x_scale_input) {
            Ok(t) => t,
            Err(e) => {
                return Err(e);
            },
        };
        let k_scale = match konst_at(inputs, self.k_scale_input) {
            Ok(t) => t,
            Err(e) => {
                return Err(e);
            },
        };
        let y_scale = match konst_at(inputs, self.y_scale_input) {
            Ok(t) => t,
            Err(e) => {
                return Err(e);
            },
        };
        let x_zero_point = match konst_at(inputs, self.x_zero_point_input) {
            Ok(t) => t,
            Err(e) => {
                return Err(e);
            },
        };
        let k_zero_point = match konst_at(inputs, self.k_zero_point_input) {
            Ok(t) => t,
            Err(e) => {
                return Err(e);
            },
        };
        let y_zero_point = match konst_at(inputs, self.y_zero_point_input) {
            Ok(t) => t,
            Err(e) => {
                return Err(e);
            },
        };
        let bias = match konst_at(inputs, self.bias_input) {
            Ok(t) => t,
            Err(e) => {
                return Err(e);
            },
        };
        let output_datum_type = match self.override_output_datum_type {
            Some(dt) => dt,
            None => inputs[0].datum_type,
        };
        let mut qp: Option<QParams> = None;
        match &x_zero_point {
            Some(t) => {
                let mut q = QParams::new(output_datum_type);
                q.set_zero_point_b(t);
                qp = Some(q);
            },
            None => {},
        }
        match &k_zero_point {
            Some(t) => {
                let mut q = match qp {
                    Some(q) => q,
                    None => QParams::new(output_datum_type),
                };
                q.set_zero_point_a(t);
                qp = Some(q);
            },
            None => {},
        }
        match &y_zero_point {
            Some(t) => {
                let mut q = match qp {
                    Some(q) => q,
                    None => QParams::new(output_datum_type),
                };
                q.set_zero_point_c(t);
                qp = Some(q);
            },
            None => {},
        }
        Ok(
            Some(
                ConvUnary {
                    data_format: self.data_format,
                    kernel_fmt: self.kernel_fmt,
                    padding: self.padding.duplicate(),
                    dilations: copied_option(&self.dilations),
                    strides: copied_option(&self.strides),
                    kernel,
                    group: match self.group {
                        Some(g) => g,
                        None => 1,
                    },
                    bias,
                    output_datum_type,
                    x_scale,
                    k_scale,
                    y_scale,
                    qp,
                },
            ),
        )
    }
}

} // verus!
