//! Zero points of quantized tensors.

use vstd::prelude::*;
use crate::datum::DatumType;
use crate::tensor::Tensor;

verus! {

/// Whether `data` holds one value only, and at least once.
pub open spec fn uniform(data: Seq<i64>) -> bool {
    data.len() > 0 && forall|i: int| 0 <= i < data.len() ==> #[trigger] data[i] == data[0]
}

/// What a zero point comes down to. One of bytes that holds the same value
/// along its one axis is that value as a scalar, and a scalar of bytes that
/// is zero is no zero point at all. Any other is left as it is.
pub open spec fn cleaned(zp: &Tensor) -> Option<(Seq<usize>, Seq<i64>)> {
    if zp.datum_type == DatumType::U8 || zp.datum_type == DatumType::I8 {
        let scalar = zp.shape.len() == 1 && uniform(zp.data@);
        let shape = if scalar {
            Seq::empty()
        } else {
            zp.shape@
        };
        let data = if scalar {
            seq![zp.data[0]]
        } else {
            zp.data@
        };
        if shape.len() == 0 && data.len() == 1 && data[0] == 0 {
            None
        } else {
            Some((shape, data))
        }
    } else {
        Some((zp.shape@, zp.data@))
    }
}

/// Whether `r` is what the zero point `zp` comes down to.
pub open spec fn cleaned_as(r: &Option<Tensor>, zp: &Tensor) -> bool {
    match r {
        Some(t) => t.datum_type == zp.datum_type && cleaned(zp) == Some((t.shape@, t.data@)),
        None => cleaned(zp).is_none(),
    }
}

/// What the zero point `zp` comes down to.
pub fn cleanup_zeropoint(zp: &Tensor) -> (r: Option<Tensor>)
    ensures
        cleaned_as(&r, zp),
{
    match zp.datum_type {
        DatumType::U8 | DatumType::I8 => {
            let mut t = zp.duplicate();
            if zp.shape.len() == 1 && zp.data.len() > 0 {
                let first = zp.data[0];
                let mut same = true;
                let mut i: usize = 1;
                while i < zp.data.len()
                    invariant
                        1 <= i <= zp.data.len(),
                        first == zp.data[0],
                        same == (forall|j: int| 0 <= j < i ==> #[trigger] zp.data[j] == first),
                    decreases zp.data.len() - i,
                {
                    if zp.data[i] != first {
                        same = false;
                    }
                    i += 1;
                }
                if same {
                    t = Tensor::scalar(zp.datum_type, first);
                }
            }
            if t.shape.len() == 0 && t.data.len() == 1 && t.data[0] == 0 {
                None
            } else {
                Some(t)
            }
        },
        _ => Some(zp.duplicate()),
    }
}

/// Repeating a tensor: the operator that needs the number of repetitions
/// along each axis.
#[derive(Debug, Clone, Copy, PartialEq, Eq, Structural)]
pub struct Tile;

impl Tile {
    pub fn new() -> (r: Tile) {
        Tile
    }

    /// The shape of a tensor of the shape `shape` repeated `multipliers`
    /// times, axis by axis.
    pub fn output_shape(&self, shape: &Vec<usize>, multipliers: &Vec<usize>) -> (r: Option<
        Vec<usize>,
    >)
        ensures
            match r {
                Some(out) => shape.len() == multipliers.len() && out.len() == shape.len()
                    && forall|i: int|
                    0 <= i < out.len() ==> (#[trigger] out[i]) as int == multipliers[i] * shape[i],
                None => shape.len() != multipliers.len() || exists|i: int|
                    0 <= i < shape.len() && #[trigger] (multipliers[i] * shape[i]) > usize::MAX,
            },
    {
        if shape.len() != multipliers.len() {
            return None;
        }
        let mut out: Vec<usize> = Vec::new();
        let mut i: usize = 0;
        while i < shape.len()
            invariant
                0 <= i <= shape.len(),
                shape.len() == multipliers.len(),
                out.len() == i,
                forall|j: int| 0 <= j < i ==> (#[trigger] out[j]) as int == multipliers[j] * shape[j],
            decreases shape.len() - i,
        {
            match multipliers[i].checked_mul(shape[i]) {
                Some(n) => {
                    out.push(n);
                },
                None => {
                    assert(multipliers[i as int] * shape[i as int] > usize::MAX);
                    return None;
                },
            }
            i += 1;
        }
        Some(out)
    }
}

/// The parameters of a quantized product: the type of its result, and the
/// zero points of its two factors and of its result, as far as there are
/// any. The scale is kept by who computes the product.
#[derive(Debug, PartialEq, Eq)]
pub struct QParams {
    pub c_datum_type: DatumType,
    pub zero_point_a: Option<Tensor>,
    pub zero_point_b: Option<Tensor>,
    pub zero_point_c: Option<Tensor>,
}

impl QParams {
    /// The parameters for a result of the type `dt`, without zero points.
    pub fn new(dt: DatumType) -> (r: QParams)
        ensures
            r.c_datum_type == dt,
            r.zero_point_a.is_none(),
            r.zero_point_b.is_none(),
            r.zero_point_c.is_none(),
    {
        QParams { c_datum_type: dt, zero_point_a: None, zero_point_b: None, zero_point_c: None }
    }

    /// The same parameters, with what `zero_point` comes down to for the
    /// first factor.
    pub fn with_zero_point_a(self, zero_point: &Tensor) -> (r: QParams)
        ensures
            cleaned_as(&r.zero_point_a, zero_point),
            r.c_datum_type == self.c_datum_type,
            r.zero_point_b == self.zero_point_b,
            r.zero_point_c == self.zero_point_c,
    {
        QParams { zero_point_a: cleanup_zeropoint(zero_point), ..self }
    }

    /// The same parameters, with what `zero_point` comes down to for the
    /// second factor.
    pub fn with_zero_point_b(self, zero_point: &Tensor) -> (r: QParams)
        ensures
            cleaned_as(&r.zero_point_b, zero_point),
            r.c_datum_type == self.c_datum_type,
            r.zero_point_a == self.zero_point_a,
            r.zero_point_c == self.zero_point_c,
    {
        QParams { zero_point_b: cleanup_zeropoint(zero_point), ..self }
    }

    /// The same parameters, with what `zero_point` comes down to for the
    /// result.
    pub fn with_zero_point_c(self, zero_point: &Tensor) -> (r: QParams)
        ensures
            cleaned_as(&r.zero_point_c, zero_point),
            r.c_datum_type == self.c_datum_type,
            r.zero_point_a == self.zero_point_a,
            r.zero_point_b == self.zero_point_b,
    {
        QParams { zero_point_c: cleanup_zeropoint(zero_point), ..self }
    }

    /// Makes what `zero_point` comes down to the zero point of the first
    /// factor.
    pub fn set_zero_point_a(&mut self, zero_point: &Tensor)
        ensures
            cleaned_as(&final(self).zero_point_a, zero_point),
            final(self).c_datum_type == old(self).c_datum_type,
            final(self).zero_point_b == old(self).zero_point_b,
            final(self).zero_point_c == old(self).zero_point_c,
    {
        self.zero_point_a = cleanup_zeropoint(zero_point);
    }

    /// Makes what `zero_point` comes down to the zero point of the second
    /// factor.
    pub fn set_zero_point_b(&mut self, zero_point: &Tensor)
        ensures
            cleaned_as(&final(self).zero_point_b, zero_point),
            final(self).c_datum_type == old(self).c_datum_type,
            final(self).zero_point_a == old(self).zero_point_a,
            final(self).zero_point_c == old(self).zero_point_c,
    {
        self.zero_point_b = cleanup_zeropoint(zero_point);
    }

    /// Makes what `zero_point` comes down to the zero point of the result.
    pub fn set_zero_point_c(&mut self, zero_point: &Tensor)
        ensures
            cleaned_as(&final(self).zero_point_c, zero_point),
            final(self).c_datum_type == old(self).c_datum_type,
            final(self).zero_point_a == old(self).zero_point_a,
            final(self).zero_point_b == old(self).zero_point_b,
    {
        self.zero_point_c = cleanup_zeropoint(zero_point);
    }
}

} // verus!
