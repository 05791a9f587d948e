//! The matrix that holds ones along a diagonal.

use vstd::prelude::*;
use crate::datum::DatumType;
use crate::dim::tree::views;
use crate::error::OpError;
use crate::facts::{TypedFact, duplicate_dims};
use crate::streaming::lemma_place_of;
use crate::tensor::Tensor;

verus! {

/// The matrix of the shape of its input that holds ones along the `k`-th
/// diagonal, above the main one where `k` is positive, and zeros
/// elsewhere. Its data are of the type `dt`, or of the type of the input.
#[derive(Debug, Clone, Copy, PartialEq, Eq, Structural)]
pub struct EyeLike {
    pub dt: Option<DatumType>,
    pub k: isize,
}

/// What a matrix of `c` columns with ones along the `k`-th diagonal holds
/// at the place `i` of its data, row after row.
pub open spec fn eye_at(c: int, k: int, i: int) -> i64 {
    if i % c == i / c + k {
        1
    } else {
        0
    }
}

impl EyeLike {
    pub fn new(dt: Option<DatumType>, k: isize) -> (r: EyeLike)
        ensures
            r.dt == dt,
            r.k == k,
    {
        EyeLike { dt, k }
    }

    /// The name of the operator.
    pub fn name(&self) -> (r: &'static str)
        ensures
            r@ == "EyeLike"@,
    {
        "EyeLike"
    }

    /// Whether the column `x` of the row `y` lies on the diagonal.
    fn on_diagonal(&self, y: usize, x: usize) -> (r: bool)
        ensures
            r == (x == y + self.k),
    {
        if self.k >= 0 {
            let k = self.k as usize;
            x >= k && x - k == y
        } else {
            let k = (-(self.k + 1)) as usize;
            y > x && y - x - 1 == k
        }
    }

    /// The matrix of `rows` rows and `columns` columns, of the type
    /// `datum_type`. There is none whose data cannot be counted.
    pub fn make(&self, datum_type: DatumType, rows: usize, columns: usize) -> (r: Result<
        Tensor,
        OpError,
    >)
        ensures
            match r {
                Ok(t) => {
                    &&& t.datum_type == datum_type
                    &&& t.shape@ == seq![rows, columns]
                    &&& t.data@ == Seq::new(
                        (rows * columns) as nat,
                        |i: int| eye_at(columns as int, self.k as int, i),
                    )
                },
                Err(e) => e == OpError::Overflow && rows * columns > usize::MAX,
            },
    {
        let total = match rows.checked_mul(columns) {
            Some(n) => n,
            None => {
                return Err(OpError::Overflow);
            },
        };
        let mut data: Vec<i64> = Vec::new();
        let mut y: usize = 0;
        while y < rows
            invariant
                0 <= y <= rows,
                total == rows * columns,
                data@ == Seq::new(
                    (y * columns) as nat,
                    |i: int| eye_at(columns as int, self.k as int, i),
                ),
            decreases rows - y,
        {
            assert(y * columns + columns <= rows * columns) by (nonlinear_arith)
                requires
                    y + 1 <= rows,
                    columns >= 0,
            ;
            assert(0 <= y * columns) by (nonlinear_arith)
                requires
                    0 <= y,
                    0 <= columns,
            ;
            let mut x: usize = 0;
            while x < columns
                invariant
                    0 <= x <= columns,
                    y < rows,
                    0 <= y * columns,
                    y * columns + columns <= usize::MAX,
                    data@ == Seq::new(
                        (y * columns + x) as nat,
                        |i: int| eye_at(columns as int, self.k as int, i),
                    ),
                decreases columns - x,
            {
                proof {
                    lemma_place_of(columns as int, y as int, x as int);
                }
                let v: i64 = if self.on_diagonal(y, x) {
                    1
                } else {
                    0
                };
                data.push(v);
                assert(data@ =~= Seq::new(
                    (y * columns + x + 1) as nat,
                    |i: int| eye_at(columns as int, self.k as int, i),
                ));
                x += 1;
            }
            assert((y + 1) * columns == y * columns + columns) by (nonlinear_arith);
            y += 1;
        }
        let mut shape: Vec<usize> = Vec::new();
        shape.push(rows);
        shape.push(columns);
        assert(shape@ =~= seq![rows, columns]);
        Ok(Tensor { datum_type, shape, data })
    }

    /// The matrix of the shape of `input`, which has to have two axes.
    pub fn eval(&self, input: &Tensor) -> (r: Result<Tensor, OpError>)
        ensures
            match r {
                Ok(t) => {
                    &&& input.shape.len() >= 2
                    &&& t.datum_type == (match self.dt {
                        Some(dt) => dt,
                        None => input.datum_type,
                    })
                    &&& t.shape@ == seq![input.shape[0], input.shape[1]]
                    &&& t.data@ == Seq::new(
                        (input.shape[0] * input.shape[1]) as nat,
                        |i: int| eye_at(input.shape[1] as int, self.k as int, i),
                    )
                },
                Err(e) => if input.shape.len() < 2 {
                    e == OpError::NoSuchAxis(1)
                } else {
                    e == OpError::Overflow && input.shape[0] * input.shape[1] > usize::MAX
                },
            },
    {
        if input.shape.len() < 2 {
            return Err(OpError::NoSuchAxis(1));
        }
        let dt = match self.dt {
            Some(dt) => dt,
            None => input.datum_type,
        };
        self.make(dt, input.shape[0], input.shape[1])
    }

    /// What is known of the output: the shape of the input, and the type
    /// of the operator or else of the input.
    pub fn output_facts(&self, inputs: &Vec<TypedFact>) -> (r: Result<Vec<TypedFact>, OpError>)
        ensures
            match r {
                Ok(facts) => {
                    &&& inputs.len() > 0
                    &&& facts.len() == 1
                    &&& facts[0].datum_type == (match self.dt {
                        Some(dt) => dt,
                        None => inputs[0].datum_type,
                    })
                    &&& views(facts[0].shape@) == views(inputs[0].shape@)
                    &&& facts[0].konst.is_none()
                },
                Err(e) => inputs.len() == 0 && e == OpError::WrongArity(0),
            },
    {
        if inputs.len() == 0 {
            return Err(OpError::WrongArity(0));
        }
        let dt = match self.dt {
            Some(dt) => dt,
            None => inputs[0].datum_type,
        };
        let mut facts: Vec<TypedFact> = Vec::new();
        facts.push(TypedFact::dt_shape(dt, duplicate_dims(&inputs[0].shape)));
        Ok(facts)
    }
}

} // verus!
