//! The switch and the merge: a tensor goes one of two ways, and of several
//! ways the one that holds a tensor is taken.

use vstd::prelude::*;
use crate::datum::DatumType;
use crate::dim::tree::views;
use crate::error::OpError;
use crate::facts::{TypedFact, duplicate_dims};
use crate::tensor::Tensor;

verus! {

/// The switch: its input goes to its second output where the condition
/// holds, and to its first where it does not; the other output holds no
/// tensor.
#[derive(Debug, Clone, Copy, PartialEq, Eq, Structural)]
pub struct Switch {
    pub output_arity: usize,
}

/// The merge: of its inputs the first that holds a tensor, and which one it
/// is.
#[derive(Debug, Clone, Copy, PartialEq, Eq, Structural)]
pub struct Merge {
    pub n: usize,
}

/// Whether the tensor is one truth value.
pub open spec fn is_condition(t: &Tensor) -> bool {
    t.datum_type == DatumType::Bool && t.shape.len() == 0 && t.data.len() == 1
}

/// The first of `inputs`, from the `i`-th on, that holds a tensor, or their
/// number.
pub open spec fn first_held(inputs: Seq<Option<Tensor>>, i: int) -> int
    decreases inputs.len() - i,
{
    if i < 0 || i >= inputs.len() {
        inputs.len() as int
    } else if inputs[i].is_some() {
        i
    } else {
        first_held(inputs, i + 1)
    }
}

impl Switch {
    pub fn new(output_arity: usize) -> (r: Switch)
        ensures
            r.output_arity == output_arity,
    {
        Switch { output_arity }
    }

    /// The name of the operator.
    pub fn name(&self) -> (r: &'static str)
        ensures
            r@ == "tf.Switch"@,
    {
        "tf.Switch"
    }

    /// The two outputs for `input` under the condition `pred`, which has
    /// to be one truth value: `input` is the second where it holds and
    /// the first where it does not, and the other holds no tensor.
    pub fn eval(&self, input: Tensor, pred: &Tensor) -> (r: Result<
        (Option<Tensor>, Option<Tensor>),
        OpError,
    >)
        ensures
            match r {
                Ok(out) => is_condition(pred) && out == (if pred.data[0] != 0 {
                    (None::<Tensor>, Some(input))
                } else {
                    (Some(input), None::<Tensor>)
                }),
                Err(e) => !is_condition(pred) && e == OpError::NoValue(1),
            },
    {
        let bool_type = match pred.datum_type {
            DatumType::Bool => true,
            _ => false,
        };
        if !bool_type || pred.shape.len() != 0 || pred.data.len() != 1 {
            return Err(OpError::NoValue(1));
        }
        if pred.data[0] != 0 {
            Ok((None, Some(input)))
        } else {
            Ok((Some(input), None))
        }
    }

    /// What is known of the two outputs: the shape of the input.
    pub fn output_facts(&self, inputs: &Vec<TypedFact>) -> (r: Result<Vec<TypedFact>, OpError>)
        ensures
            match r {
                Ok(facts) => inputs.len() > 0 && facts.len() == 2 && forall|k: int|
                    0 <= k < 2 ==> (#[trigger] facts[k]).datum_type == DatumType::F32 && views(
                        facts[k].shape@,
                    ) == views(inputs[0].shape@) && facts[k].konst.is_none(),
                Err(e) => inputs.len() == 0 && e == OpError::WrongArity(0),
            },
    {
        if inputs.len() == 0 {
            return Err(OpError::WrongArity(0));
        }
        let mut facts: Vec<TypedFact> = Vec::new();
        facts.push(TypedFact::dt_shape(DatumType::F32, duplicate_dims(&inputs[0].shape)));
        facts.push(TypedFact::dt_shape(DatumType::F32, duplicate_dims(&inputs[0].shape)));
        Ok(facts)
    }
}

impl Merge {
    pub fn new(n: usize) -> (r: Merge)
        ensures
            r.n == n,
    {
        Merge { n }
    }

    /// The name of the operator.
    pub fn name(&self) -> (r: &'static str)
        ensures
            r@ == "tf.Merge"@,
    {
        "tf.Merge"
    }

    /// The first of `inputs` that holds a tensor, and its place. There is
    /// none where no input holds a tensor, or where the place is no `i32`.
    pub fn eval(&self, inputs: Vec<Option<Tensor>>) -> (r: Result<(Tensor, i32), OpError>)
        ensures
            match r {
                Ok((t, index)) => index == first_held(inputs@, 0) && 0 <= index < inputs.len()
                    && inputs[index as int] == Some(t),
                Err(e) => if first_held(inputs@, 0) >= inputs.len() {
                    e == OpError::NoValue(0)
                } else {
                    e == OpError::Overflow && first_held(inputs@, 0) > i32::MAX
                },
            },
    {
        let mut inputs = inputs;
        let ghost given = inputs@;
        let mut i: usize = 0;
        while i < inputs.len() && inputs[i].is_none()
            invariant
                0 <= i <= inputs.len(),
                inputs@ == given,
                first_held(given, 0) == first_held(given, i as int),
            decreases inputs.len() - i,
        {
            i += 1;
        }
        if i >= inputs.len() {
            return Err(OpError::NoValue(0));
        }
        if i > 0x7fff_ffff {
            return Err(OpError::Overflow);
        }
        match inputs.remove(i) {
            Some(t) => Ok((t, i as i32)),
            None => {
                assert(false);
                Err(OpError::NoValue(0))
            },
        }
    }

    /// What is known of the two outputs: the shape of the first input, and
    /// one number.
    pub fn output_facts(&self, inputs: &Vec<TypedFact>) -> (r: Result<Vec<TypedFact>, OpError>)
        ensures
            match r {
                Ok(facts) => {
                    &&& inputs.len() > 0
                    &&& facts.len() == 2
                    &&& facts[0].datum_type == DatumType::F32
                    &&& views(facts[0].shape@) == views(inputs[0].shape@)
                    &&& facts[0].konst.is_none()
                    &&& facts[1].datum_type == DatumType::I32
                    &&& facts[1].shape.len() == 0
                    &&& facts[1].konst.is_none()
                },
                Err(e) => inputs.len() == 0 && e == OpError::WrongArity(0),
            },
    {
        if inputs.len() == 0 {
            return Err(OpError::WrongArity(0));
        }
        let mut facts: Vec<TypedFact> = Vec::new();
        facts.push(TypedFact::dt_shape(DatumType::F32, duplicate_dims(&inputs[0].shape)));
        facts.push(TypedFact::dt_shape(DatumType::I32, Vec::new()));
        Ok(facts)
    }
}

} // verus!
