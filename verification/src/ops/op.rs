//! The operators as one type, and what each says of its outputs.

use vstd::prelude::*;
use crate::error::OpError;
use crate::facts::{PulsedFact, TypedFact};
use crate::model::fact::Fact;
use crate::model::graph::Operator;
use crate::translator::ConvertFrom;
use crate::ops::delay::Delay;
use crate::ops::downsample::Downsample;
use crate::ops::pad::{Pad, PulsePad};
use crate::ops::slice::{PulsedAxisSlice, Slice};

verus! {

/// The operator that stands for nothing: a node that a patch has
/// neutralized keeps its place in the graph and computes nothing.
#[derive(Debug, Clone, Copy, PartialEq, Eq, Structural)]
pub struct Dummy;

impl Dummy {
    pub fn new() -> (r: Dummy) {
        Dummy
    }

    /// A dummy has no outputs to speak of.
    pub fn output_facts(&self) -> (r: Vec<TypedFact>)
        ensures
            r.len() == 0,
    {
        Vec::new()
    }
}

/// An operator.
#[derive(Debug, PartialEq, Eq)]
pub enum Op {
    /// What comes from outside.
    Source,
    /// Nothing.
    Dummy,
    /// The input as it is.
    Identity,
    /// The inputs one after the other along an axis.
    Concat(usize),
    Pad(Pad),
    PulsePad(PulsePad),
    Slice(Slice),
    PulsedAxisSlice(PulsedAxisSlice),
    Downsample(Downsample),
    Delay(Delay),
}

impl Operator for Op {
    open spec fn is_source_spec(&self) -> bool {
        self is Source
    }

    open spec fn is_dummy_spec(&self) -> bool {
        self is Dummy
    }

    open spec fn same(&self, other: &Self) -> bool {
        match (self, other) {
            (Op::Source, Op::Source) => true,
            (Op::Dummy, Op::Dummy) => true,
            (Op::Identity, Op::Identity) => true,
            (Op::Concat(a), Op::Concat(b)) => a == b,
            (Op::Pad(a), Op::Pad(b)) => a.same(b),
            (Op::PulsePad(a), Op::PulsePad(b)) => a.same(b),
            (Op::Slice(a), Op::Slice(b)) => a.same(b),
            (Op::PulsedAxisSlice(a), Op::PulsedAxisSlice(b)) => a.same(b),
            (Op::Downsample(a), Op::Downsample(b)) => a == b,
            (Op::Delay(a), Op::Delay(b)) => a.same(b),
            _ => false,
        }
    }

    open spec fn source_spec() -> Self {
        Op::Source
    }

    open spec fn dummy_spec() -> Self {
        Op::Dummy
    }

    fn is_source(&self) -> (r: bool) {
        match self {
            Op::Source => true,
            _ => false,
        }
    }

    fn source() -> (r: Self) {
        Op::Source
    }

    fn dummy() -> (r: Self) {
        Op::Dummy
    }

    fn duplicate(&self) -> (r: Self) {
        match self {
            Op::Source => Op::Source,
            Op::Dummy => Op::Dummy,
            Op::Identity => Op::Identity,
            Op::Concat(a) => Op::Concat(*a),
            Op::Pad(a) => Op::Pad(a.duplicate()),
            Op::PulsePad(a) => Op::PulsePad(a.duplicate()),
            Op::Slice(a) => Op::Slice(a.duplicate()),
            Op::PulsedAxisSlice(a) => Op::PulsedAxisSlice(a.duplicate()),
            Op::Downsample(a) => Op::Downsample(*a),
            Op::Delay(a) => Op::Delay(a.duplicate()),
        }
    }
}

impl Clone for Op {
    fn clone(&self) -> (r: Self)
        ensures
            r.same(self),
    {
        self.duplicate()
    }
}

impl Op {
    /// The name of the operator.
    pub fn name(&self) -> (r: &'static str)
        ensures
            r@ == self.name_spec(),
    {
        match self {
            Op::Source => "Source",
            Op::Dummy => "Dummy",
            Op::Identity => "Identity",
            Op::Concat(_) => "Concat",
            Op::Pad(_) => "Pad",
            Op::PulsePad(_) => "PulsePad",
            Op::Slice(_) => "Slice",
            Op::PulsedAxisSlice(_) => "PulsedAxisSlice",
            Op::Downsample(_) => "Downsample",
            Op::Delay(_) => "Delay",
        }
    }

    pub open spec fn name_spec(&self) -> Seq<char> {
        match self {
            Op::Source => "Source"@,
            Op::Dummy => "Dummy"@,
            Op::Identity => "Identity"@,
            Op::Concat(_) => "Concat"@,
            Op::Pad(_) => "Pad"@,
            Op::PulsePad(_) => "PulsePad"@,
            Op::Slice(_) => "Slice"@,
            Op::PulsedAxisSlice(_) => "PulsedAxisSlice"@,
            Op::Downsample(_) => "Downsample"@,
            Op::Delay(_) => "Delay"@,
        }
    }

    /// Whether the operator works on whole tensors: it can stand in a
    /// typed graph.
    pub fn is_typed(&self) -> (r: bool)
        ensures
            r == !(self is PulsedAxisSlice),
    {
        match self {
            Op::PulsedAxisSlice(_) => false,
            _ => true,
        }
    }

    /// Whether the operator with one input that is not a source has a form
    /// on streams.
    pub fn is_pulsed(&self) -> (r: bool)
        ensures
            r == (self is Identity || self is PulsePad || self is Slice || self is PulsedAxisSlice
                || self is Downsample || self is Delay),
    {
        match self {
            Op::Identity
            | Op::PulsePad(_)
            | Op::Slice(_)
            | Op::PulsedAxisSlice(_)
            | Op::Downsample(_)
            | Op::Delay(_) => true,
            _ => false,
        }
    }

    /// Whether `out` is what the operator says of its one output, on whole
    /// tensors, `input` being known of its one input.
    pub open spec fn typed(&self, input: &TypedFact, out: &TypedFact) -> bool {
        match self {
            Op::Identity => out.same(input),
            Op::Concat(_) => out.same(input),
            Op::PulsePad(_) => out.same(input),
            Op::Pad(p) => p.typed(input, out),
            Op::Slice(s) => s.typed(input, out),
            Op::Downsample(d) => d.typed(input, out),
            Op::Delay(d) => d.typed(input, out),
            _ => false,
        }
    }

    /// Why the operator says nothing of its output on whole tensors, if it
    /// says nothing.
    pub open spec fn typed_refusal(&self, input: &TypedFact) -> Option<OpError> {
        match self {
            Op::Source => Some(OpError::WrongArity(1)),
            Op::Dummy => Some(OpError::WrongArity(1)),
            Op::PulsedAxisSlice(_) => Some(OpError::NotPulsable),
            Op::Identity => None,
            Op::Concat(_) => None,
            Op::PulsePad(_) => None,
            Op::Pad(p) => p.typed_refusal(input),
            Op::Slice(s) => s.typed_refusal(input),
            Op::Downsample(d) => d.refusal(input.shape.len() as int),
            Op::Delay(d) => d.typed_refusal(input),
        }
    }

    /// What the operator with the one input `input` makes known of its one
    /// output, on whole tensors.
    pub fn unary_output_fact(&self, input: &TypedFact) -> (r: Result<TypedFact, OpError>)
        ensures
            match r {
                Ok(f) => self.typed(input, &f) && self.typed_refusal(input).is_none(),
                Err(e) => self.typed_refusal(input) == Some(e),
            },
    {
        match self {
            Op::Source => Err(OpError::WrongArity(1)),
            Op::Dummy => Err(OpError::WrongArity(1)),
            Op::Identity => Ok(input.duplicate()),
            Op::Concat(_) => Ok(input.duplicate()),
            Op::Pad(p) => p.output_facts(input),
            Op::PulsePad(_) => Ok(input.duplicate()),
            Op::Slice(s) => s.output_facts(input),
            Op::PulsedAxisSlice(_) => Err(OpError::NotPulsable),
            Op::Downsample(d) => d.output_facts(input),
            Op::Delay(d) => d.output_facts(input),
        }
    }

    /// Whether `out` is what the operator says of its one output, on
    /// streams, `input` being known of its one input.
    pub open spec fn pulsed(&self, input: &PulsedFact, out: &PulsedFact) -> bool {
        match self {
            Op::Identity => out.same(input),
            Op::PulsePad(p) => p.pulsed(input, out),
            Op::Slice(s) => s.pulsed(input, out),
            Op::PulsedAxisSlice(s) => s.pulsed(input, out),
            Op::Downsample(d) => d.pulsed(input, out),
            Op::Delay(d) => d.pulsed(input, out),
            _ => false,
        }
    }

    /// Why the operator says nothing of its output on streams, if it says
    /// nothing.
    pub open spec fn pulsed_refusal(&self, input: &PulsedFact) -> Option<OpError> {
        match self {
            Op::Source => Some(OpError::WrongArity(1)),
            Op::Dummy => Some(OpError::WrongArity(1)),
            Op::Concat(_) => Some(OpError::NotPulsable),
            Op::Pad(_) => Some(OpError::NotPulsable),
            Op::Identity => None,
            Op::PulsePad(p) => p.pulsed_refusal(input),
            Op::Slice(s) => s.pulsed_refusal(input),
            Op::PulsedAxisSlice(s) => s.pulsed_refusal(input),
            Op::Downsample(d) => d.refusal(input.shape.len() as int),
            Op::Delay(d) => d.pulsed_refusal(input),
        }
    }

    /// What the operator with the one input `input` makes known of its one
    /// output, on streams.
    pub fn unary_pulsed_fact(&self, input: &PulsedFact) -> (r: Result<PulsedFact, OpError>)
        ensures
            match r {
                Ok(f) => self.pulsed(input, &f) && self.pulsed_refusal(input).is_none(),
                Err(e) => self.pulsed_refusal(input) == Some(e),
            },
    {
        match self {
            Op::Source => Err(OpError::WrongArity(1)),
            Op::Dummy => Err(OpError::WrongArity(1)),
            Op::Identity => Ok(input.duplicate()),
            Op::Concat(_) => Err(OpError::NotPulsable),
            Op::Pad(_) => Err(OpError::NotPulsable),
            Op::PulsePad(p) => p.pulsed_output_facts(input),
            Op::Slice(s) => s.pulsed_output_facts(input),
            Op::PulsedAxisSlice(s) => s.pulsed_output_facts(input),
            Op::Downsample(d) => d.pulsed_output_facts(input),
            Op::Delay(d) => d.pulsed_output_facts(input),
        }
    }
}

impl ConvertFrom<Op> for Op {
    open spec fn accepts(t: &Op) -> bool {
        true
    }

    open spec fn taken(t: &Op, r: &Op) -> bool {
        r.same(t)
    }

    fn convert(t: &Op) -> (r: Option<Op>) {
        Some(t.duplicate())
    }
}

impl Op {
    /// Whether `r` is the form of the operator on whole tensors: the
    /// identity for a slice of a stream, which hands each pulse on, and
    /// else the operator itself.
    pub open spec fn typed_form_is(&self, r: &Op) -> bool {
        match self {
            Op::PulsedAxisSlice(_) => *r == Op::Identity,
            _ => r.same(self),
        }
    }

    /// The form of the operator on whole tensors.
    pub fn typed_form(&self) -> (r: Op)
        ensures
            self.typed_form_is(&r),
            r.is_source_spec() == self.is_source_spec(),
    {
        match self {
            Op::PulsedAxisSlice(_) => Op::Identity,
            _ => self.duplicate(),
        }
    }
}

} // verus!
