//! Making a model stream: each operator gets its form on pulses, with the
//! delays it needs before it.

use vstd::prelude::*;
use vstd::string::StringExecFns;
use crate::dim::tree::{Expr, views, lemma_views_len};
use crate::error::OpError;
use crate::facts::{PulsedFact, TypedFact};
use crate::model::access::{first_missing, outlets_of};
use crate::model::fact::Fact;
use crate::model::graph::{GNode, Graph, Model, ModelError, Operator, OutletId};
use crate::model::map::OutletMap;
use crate::ops::declutter::{as_number, number};
use crate::ops::delay::Delay;
use crate::ops::op::Op;
use crate::translator::{
    ConvertFrom, Steps, Translate, first_refused, halted, images, maps_needed, stands_for,
    translation,
};

verus! {

/// Whether the dimension `d` depends on the stream.
pub open spec fn streams(d: Expr) -> bool {
    d.eval(Map::empty()).is_err()
}

/// How many of the first `n` of `shape` depend on the stream.
pub open spec fn stream_count(shape: Seq<Expr>, n: int) -> int
    decreases n,
{
    if n <= 0 {
        0
    } else {
        stream_count(shape, n - 1) + (if streams(shape[n - 1]) {
            1int
        } else {
            0int
        })
    }
}

/// The first axis of `shape`, from `i` on, that depends on the stream, or
/// the rank.
pub open spec fn stream_axis(shape: Seq<Expr>, i: int) -> int
    decreases shape.len() - i,
{
    if i < 0 || i >= shape.len() {
        shape.len() as int
    } else if streams(shape[i]) {
        i
    } else {
        stream_axis(shape, i + 1)
    }
}

/// The first axis of `shape`, from `i` on, that is neither `axis` nor a
/// number, or the rank.
pub open spec fn first_unsized(shape: Seq<Expr>, axis: int, i: int) -> int
    decreases shape.len() - i,
{
    if i < 0 || i >= shape.len() {
        shape.len() as int
    } else if i != axis && number(shape[i]).is_none() {
        i
    } else {
        first_unsized(shape, axis, i + 1)
    }
}

/// Why a tensor of the shape `shape` does not become a stream, if it does
/// not: not exactly one axis depends on the stream, or the length of
/// another axis is no number.
pub open spec fn stream_refusal(shape: Seq<Expr>) -> Option<OpError> {
    if stream_count(shape, shape.len() as int) != 1 {
        Some(OpError::NoStreamAxis)
    } else if first_unsized(shape, stream_axis(shape, 0), 0) < shape.len() {
        Some(OpError::Overflow)
    } else {
        None
    }
}

/// Whether `f` is what is known of the stream of pulses of `pulse`
/// elements that a tensor of which `fact` is known becomes: the stream
/// runs along the one axis that depends on it, where a pulse has `pulse`
/// elements, and does not lag; the other axes are as long as they were.
pub open spec fn streamed(fact: &TypedFact, pulse: usize, f: &PulsedFact) -> bool {
    let shape = views(fact.shape@);
    &&& f.axis == stream_axis(shape, 0)
                    &&& f.axis < shape.len()
                    &&& f.datum_type == fact.datum_type
                    &&& f.shape.len() == shape.len()
                    &&& f.delay == 0
                    &&& f.dim@ == shape[f.axis as int]
                    &&& forall|i: int|
                        0 <= i < f.shape.len() ==> (if i == f.axis {
                            (#[trigger] f.shape[i]) == pulse
                        } else {
                            number(shape[i]) == Some(f.shape[i] as int)
                        })
}

impl PulsedFact {
    /// What is known of the stream of pulses of `pulse` elements that a
    /// tensor of which `fact` is known becomes. One axis of the tensor has
    /// to depend on the stream, and one only: the stream runs along it. The
    /// stream does not lag.
    pub fn from_typed(fact: &TypedFact, pulse: usize) -> (r: Result<PulsedFact, OpError>)
        ensures
            match r {
                Ok(f) => stream_refusal(views(fact.shape@)).is_none() && streamed(fact, pulse, &f),
                Err(e) => stream_refusal(views(fact.shape@)) == Some(e),
            },
    {
        let ghost shape = views(fact.shape@);
        proof {
            lemma_views_len(fact.shape@);
        }
        let mut count: usize = 0;
        let mut axis: usize = fact.shape.len();
        let mut i: usize = 0;
        while i < fact.shape.len()
            invariant
                0 <= i <= fact.shape.len(),
                shape == views(fact.shape@),
                shape.len() == fact.shape.len(),
                forall|j: int| 0 <= j < fact.shape.len() ==> #[trigger] shape[j] == fact.shape[j]@,
                count == stream_count(shape, i as int),
                count <= i,
                count == 0 ==> axis == fact.shape.len() && stream_axis(shape, 0) == stream_axis(
                    shape,
                    i as int,
                ),
                count > 0 ==> axis < i && axis == stream_axis(shape, 0),
            decreases fact.shape.len() - i,
        {
            if fact.shape[i].is_stream() {
                if count == 0 {
                    axis = i;
                }
                count += 1;
            }
            i += 1;
        }
        if count != 1 {
            return Err(OpError::NoStreamAxis);
        }
        let mut out: Vec<usize> = Vec::new();
        let mut j: usize = 0;
        while j < fact.shape.len()
            invariant
                0 <= j <= fact.shape.len(),
                axis < fact.shape.len(),
                axis == stream_axis(shape, 0),
                stream_count(shape, shape.len() as int) == 1,
                first_unsized(shape, axis as int, 0) == first_unsized(shape, axis as int, j as int),
                shape == views(fact.shape@),
                shape.len() == fact.shape.len(),
                forall|k: int| 0 <= k < fact.shape.len() ==> #[trigger] shape[k] == fact.shape[k]@,
                out.len() == j,
                forall|k: int|
                    0 <= k < j ==> (if k == axis {
                        (#[trigger] out[k]) == pulse
                    } else {
                        number(shape[k]) == Some(out[k] as int)
                    }),
            decreases fact.shape.len() - j,
        {
            if j == axis {
                out.push(pulse);
            } else {
                match as_number(&fact.shape[j]) {
                    Some(v) => {
                        out.push(v);
                    },
                    None => {
                        return Err(OpError::Overflow);
                    },
                }
            }
            j += 1;
        }
        Ok(
            PulsedFact {
                datum_type: fact.datum_type,
                shape: out,
                axis,
                dim: fact.shape[axis].duplicate(),
                delay: 0,
            },
        )
    }
}

/// The name of the delay that is put before the node of the name `name`:
/// that name followed by `.Delay`.
fn delay_name(name: &String) -> (r: String)
    ensures
        r@ == name@ + ".Delay"@,
{
    name.clone().concat(".Delay")
}

/// Appends to `target` a node with the operator `op` that reads `input`,
/// and gives its outlet. What is known of the outlet is what the operator
/// says of a stream of which it reads what is known of `input`.
pub fn wire_pulsed(target: &mut Model<PulsedFact, Op>, name: String, op: Op, input: OutletId) -> (r:
    Result<OutletId, ModelError>)
    requires
        old(target).wf(),
        old(target)@.has_outlet(input),
    ensures
        final(target).wf(),
        forall|o: OutletId| old(target)@.has_outlet(o) ==> final(target)@.has_outlet(o),
        match r {
            Ok(o) => {
                &&& o == (OutletId { node: old(target).nodes.len(), slot: 0 })
                &&& final(target)@.has_outlet(o)
                &&& final(target)@.nodes.len() == old(target)@.nodes.len() + 1
                &&& final(target)@.nodes.last().op == op
                &&& final(target)@.nodes.last().name == name@
                &&& final(target)@.nodes.last().inputs == seq![input]
                &&& final(target)@.nodes.last().facts.len() == 1
                &&& op.pulsed(&old(target)@.fact(input), &final(target)@.fact(o))
                &&& op.pulsed_refusal(&old(target)@.fact(input)).is_none()
                &&& final(target)@.extends(old(target)@)
                &&& final(target)@.inputs == old(target)@.inputs
                &&& final(target)@.outputs == old(target)@.outputs
                &&& forall|m: int|
                    0 <= m < old(target).nodes.len() ==> (#[trigger] final(target)@.nodes[m]).op
                        == old(target)@.nodes[m].op && final(target)@.nodes[m].facts == old(target)@.nodes[m].facts
                        && final(target)@.nodes[m].inputs == old(target)@.nodes[m].inputs
            },
            Err(e) => e is Op && op.pulsed_refusal(&old(target)@.fact(input)) == Some(e->Op_0)
                && final(target)@ == old(target)@,
        },
{
    let fact = match target.outlet_fact(input) {
        Ok(f) => f,
        Err(e) => {
            assert(false);
            return Err(ModelError::Op(OpError::WrongArity(0)));
        },
    };
    let out = match op.unary_pulsed_fact(fact) {
        Ok(f) => f,
        Err(e) => {
            return Err(ModelError::Op(e));
        },
    };
    let mut facts: Vec<PulsedFact> = Vec::new();
    facts.push(out);
    let mut inputs: Vec<OutletId> = Vec::new();
    inputs.push(input);
    proof {
        assert(first_missing(target@, inputs@, 1).is_none());
        assert(inputs@ =~= seq![input]);
    }
    match target.wire(name, op, facts, &inputs) {
        Ok(outs) => {
            assert(outlets_of(old(target).nodes.len(), 1)[0] == outs[0]);
            Ok(outs[0])
        },
        Err(e) => {
            assert(false);
            Err(ModelError::Op(OpError::WrongArity(0)))
        },
    }
}

/// What a padding that went onto a stream leaves in the model: the padding
/// of the stream as its last node, under the name `name`, behind a delay
/// under that name followed by `.Delay` where the stream did not lag
/// enough. The padding of the stream has the paddings and the mode of `p`,
/// and expects its input where the stream, delayed, holds it. What is
/// known of its outlet is that the stream is longer by the padding and
/// lags less by the padding before the data.
pub open spec fn pad_pulsed(
    p: &crate::ops::pad::Pad,
    name: Seq<char>,
    before: Graph<PulsedFact, Op>,
    after: Graph<PulsedFact, Op>,
    input: OutletId,
) -> bool {
    let fact = before.fact(input);
    let pads = p.pads[fact.axis as int];
    let extra = crate::ops::pad::extra_delay_spec(
        pads.0 as int,
        fact.delay as int,
        fact.shape[fact.axis as int] as int,
        p.mode is Edge,
    );
    let out = after.nodes.last().facts[0];
    &&& p.pulse_check(&fact) is Ok
    &&& after.extends(before)
    &&& after.inputs == before.inputs
    &&& after.outputs == before.outputs
    &&& after.nodes.last().name == name
    &&& after.nodes.last().facts.len() == 1
    &&& after.nodes.last().op matches Op::PulsePad(pp) && pp.before == pads.0 && pp.after == pads.1
        && pp.begin_input == fact.delay + extra && pp.axis == fact.axis && pp.pulse
        == fact.shape[fact.axis as int] && pp.end_input@ == Expr::Val(fact.delay as int).plus(
        Expr::Val(extra),
    ).reduced().plus(fact.dim@).reduced() && pp.mode.same(&p.mode)
    &&& out.datum_type == fact.datum_type
    &&& out.shape@ == fact.shape@
    &&& out.axis == fact.axis
    &&& out.delay == fact.delay + extra - pads.0
    &&& out.dim@ == fact.dim@.plus(Expr::Val(pads.0 + pads.1)).reduced()
    &&& if extra > 0 {
        let delay = after.nodes[before.nodes.len() as int];
        &&& after.nodes.len() == before.nodes.len() + 2
        &&& delay.name == name + ".Delay"@
        &&& delay.op matches Op::Delay(d) && d.delay == extra && d.overlap == 0 && d.axis
            == fact.axis && d.datum_type == fact.datum_type && d.buffer_shape@
            == fact.shape@.update(fact.axis as int, extra as usize)
        &&& delay.inputs == seq![input]
        &&& delay.facts.len() == 1
        &&& delay.facts[0].datum_type == fact.datum_type
        &&& delay.facts[0].shape@ == fact.shape@
        &&& delay.facts[0].axis == fact.axis
        &&& delay.facts[0].delay == fact.delay + extra
        &&& delay.facts[0].dim@ == fact.dim@
        &&& after.nodes.last().inputs == seq![
            OutletId { node: before.nodes.len() as usize, slot: 0 },
        ]
    } else {
        &&& after.nodes.len() == before.nodes.len() + 1
        &&& after.nodes.last().inputs == seq![input]
    }
}

/// What a slice that went onto a stream leaves in the model, as its last
/// node and under the name `name`: a slice of the stream where it slices
/// the axis of the stream, and itself where it slices another. What is
/// known of its outlet is that the stream lags by the start of the slice
/// more and has the length of the slice.
pub open spec fn slice_pulsed(
    s: &crate::ops::slice::Slice,
    name: Seq<char>,
    before: Graph<PulsedFact, Op>,
    after: Graph<PulsedFact, Op>,
    input: OutletId,
) -> bool {
    let fact = before.fact(input);
    let out = after.nodes.last().facts[0];
    &&& s.pulsed_refusal(&fact).is_none()
    &&& after.extends(before)
    &&& after.inputs == before.inputs
    &&& after.outputs == before.outputs
    &&& after.nodes.len() == before.nodes.len() + 1
    &&& after.nodes.last().name == name
    &&& after.nodes.last().inputs == seq![input]
    &&& after.nodes.last().facts.len() == 1
    &&& out.datum_type == fact.datum_type
    &&& out.shape@ == fact.shape@
    &&& out.axis == fact.axis
    &&& s.start@.eval(Map::empty()) == Ok::<int, crate::dim::eval::DimError>(out.delay - fact.delay)
    &&& out.dim@ == s.len_spec()
    &&& if s.axis == fact.axis {
        after.nodes.last().op matches Op::PulsedAxisSlice(ps) && ps.axis == s.axis && ps.take@
            == s.len_spec() && number(s.start@) == Some(ps.skip as int)
    } else {
        after.nodes.last().op matches Op::Slice(s2) && s2.same(s)
    }
}

/// Why the downsampling `d` does not go onto a stream of which `fact` is
/// known, if it does not: the stream lacks its axis, the pulse is no
/// multiple of the stride, or the downsampling cannot be done.
pub open spec fn down_pulse_refusal(
    d: &crate::ops::downsample::Downsample,
    fact: &PulsedFact,
) -> Option<OpError> {
    if fact.axis >= fact.shape.len() {
        Some(OpError::NoSuchAxis(fact.axis))
    } else if d.stride == 0 {
        Some(OpError::DownsampleStride)
    } else if fact.shape[fact.axis as int] % d.stride != 0 {
        Some(
            OpError::DownsamplePulse { pulse: fact.shape[fact.axis as int], stride: d.stride },
        )
    } else {
        d.refusal(fact.shape.len() as int)
    }
}

/// What a downsampling that went onto a stream leaves in the model, as
/// its last node and under the name `name`: itself, the pulse being a
/// multiple of its stride. What is known of its outlet is that a pulse and
/// the stream hold the `stride`-th part, and that the stream lags as
/// before.
pub open spec fn down_pulsed(
    d: &crate::ops::downsample::Downsample,
    name: Seq<char>,
    before: Graph<PulsedFact, Op>,
    after: Graph<PulsedFact, Op>,
    input: OutletId,
) -> bool {
    let fact = before.fact(input);
    &&& down_pulse_refusal(d, &fact).is_none()
    &&& after.extends(before)
    &&& after.inputs == before.inputs
    &&& after.outputs == before.outputs
    &&& after.nodes.len() == before.nodes.len() + 1
    &&& after.nodes.last().name == name
    &&& after.nodes.last().inputs == seq![input]
    &&& after.nodes.last().op == Op::Downsample(*d)
    &&& after.nodes.last().facts.len() == 1
    &&& d.pulsed(&fact, &after.nodes.last().facts[0])
}

/// Puts the padding `p` onto the stream that `input` gives: the padding of
/// the stream, behind the delay that makes room for it where the stream
/// does not lag enough.
pub fn pulsify_pad(
    p: &crate::ops::pad::Pad,
    target: &mut Model<PulsedFact, Op>,
    name: &String,
    input: OutletId,
) -> (r: Result<OutletId, ModelError>)
    requires
        old(target).wf(),
        old(target)@.has_outlet(input),
    ensures
        final(target).wf(),
        forall|o: OutletId| old(target)@.has_outlet(o) ==> final(target)@.has_outlet(o),
        match r {
            Ok(o) => final(target)@.has_outlet(o) && o == (OutletId {
                node: (final(target)@.nodes.len() - 1) as usize,
                slot: 0,
            }) && pad_pulsed(p, name@, old(target)@, final(target)@, input),
            Err(e) => e matches ModelError::Op(f) && p.pulse_check(&old(target)@.fact(input)) == Err::<
                (),
                OpError,
            >(f) && final(target)@ == old(target)@,
        },
{
    let fact = match target.outlet_fact(input) {
        Ok(f) => f.duplicate(),
        Err(e) => {
            assert(false);
            return Err(ModelError::Op(OpError::WrongArity(0)));
        },
    };
    proof {
        let tapped_of = old(target)@.fact(input);
        assert(fact.same(&tapped_of));
        assert(fact.shape@ == tapped_of.shape@);
        assert(p.pulse_check(&fact) == p.pulse_check(&tapped_of));
    }
    let plan = match p.pulse_plan(&fact) {
        Ok(plan) => plan,
        Err(e) => {
            return Err(ModelError::Op(e));
        },
    };
    let mut from = input;
    let ghost start = target@;
    let ghost given = start.fact(input);
    if plan.extra_delay > 0 {
        let delay = match Delay::new(&fact, plan.extra_delay, 0) {
            Ok(d) => d,
            Err(e) => {
                assert(false);
                return Err(ModelError::Op(e));
            },
        };
        from = match wire_pulsed(target, delay_name(name), Op::Delay(delay), input) {
            Ok(o) => o,
            Err(e) => {
                assert(false);
                return Err(e);
            },
        };
        proof {
            let held = target@.fact(from);
            assert(held == target@.nodes[start.nodes.len() as int].facts[0]);
            assert(held.shape@ =~= given.shape@);
        }
    }
    let ghost delayed = target@;
    let ghost held = delayed.fact(from);
    proof {
        assert(held.shape@ == given.shape@);
        assert(held.delay == given.delay + plan.extra_delay);
        assert(given.delay + plan.extra_delay >= p.pads[given.axis as int].0);
    }
    match wire_pulsed(target, name.clone(), Op::PulsePad(plan.op), from) {
        Ok(o) => {
            proof {
                let after = target@;
                assert(after.extends(start)) by {
                    assert forall|m: int| 0 <= m < start.nodes.len() implies (
                    #[trigger] after.nodes[m]).name == start.nodes[m].name && after.nodes[m].op
                        == start.nodes[m].op && after.nodes[m].facts == start.nodes[m].facts
                        && after.nodes[m].inputs == start.nodes[m].inputs by {
                        assert(delayed.nodes[m].name == start.nodes[m].name);
                    }
                }
                assert(after.nodes.last().facts[0] == after.fact(o));
                if plan.extra_delay > 0 {
                    let m = start.nodes.len() as int;
                    assert(after.nodes[m].name == delayed.nodes[m].name);
                }
            }
            Ok(o)
        },
        Err(e) => {
            assert(false);
            Err(e)
        },
    }
}

/// Puts the slice `s` onto the stream that `input` gives.
pub fn pulsify_slice(
    s: &crate::ops::slice::Slice,
    target: &mut Model<PulsedFact, Op>,
    name: &String,
    input: OutletId,
) -> (r: Result<OutletId, ModelError>)
    requires
        old(target).wf(),
        old(target)@.has_outlet(input),
    ensures
        final(target).wf(),
        forall|o: OutletId| old(target)@.has_outlet(o) ==> final(target)@.has_outlet(o),
        match r {
            Ok(o) => final(target)@.has_outlet(o) && o == (OutletId {
                node: (final(target)@.nodes.len() - 1) as usize,
                slot: 0,
            }) && slice_pulsed(s, name@, old(target)@, final(target)@, input),
            Err(e) => e matches ModelError::Op(f) && s.pulsed_refusal(&old(target)@.fact(input))
                == Some(f) && final(target)@ == old(target)@,
        },
{
    let on_stream = match target.outlet_fact(input) {
        Ok(f) => f.axis == s.axis,
        Err(e) => {
            assert(false);
            return Err(ModelError::Op(OpError::WrongArity(0)));
        },
    };
    let op = if on_stream {
        match s.to_pulsed() {
            Ok(p) => Op::PulsedAxisSlice(p),
            Err(e) => {
                return Err(ModelError::Op(e));
            },
        }
    } else {
        Op::Slice(s.duplicate())
    };
    wire_pulsed(target, name.clone(), op, input)
}

/// Puts the downsampling `d` onto the stream that `input` gives, where the
/// pulse is a multiple of its stride.
pub fn pulsify_downsample(
    d: &crate::ops::downsample::Downsample,
    target: &mut Model<PulsedFact, Op>,
    name: &String,
    input: OutletId,
) -> (r: Result<OutletId, ModelError>)
    requires
        old(target).wf(),
        old(target)@.has_outlet(input),
    ensures
        final(target).wf(),
        forall|o: OutletId| old(target)@.has_outlet(o) ==> final(target)@.has_outlet(o),
        match r {
            Ok(o) => final(target)@.has_outlet(o) && o == (OutletId {
                node: (final(target)@.nodes.len() - 1) as usize,
                slot: 0,
            }) && down_pulsed(d, name@, old(target)@, final(target)@, input),
            Err(e) => e matches ModelError::Op(f) && down_pulse_refusal(d, &old(target)@.fact(input))
                == Some(f) && final(target)@ == old(target)@,
        },
{
    let ghost fact = target@.fact(input);
    let pulse = match target.outlet_fact(input) {
        Ok(f) => {
            if f.axis >= f.shape.len() {
                return Err(ModelError::Op(OpError::NoSuchAxis(f.axis)));
            }
            f.pulse()
        },
        Err(e) => {
            assert(false);
            return Err(ModelError::Op(OpError::WrongArity(0)));
        },
    };
    match d.pulse_check(pulse) {
        Ok(_) => {},
        Err(e) => {
            return Err(ModelError::Op(e));
        },
    }
    assert(down_pulse_refusal(d, &fact) == d.refusal(fact.shape.len() as int));
    assert(Op::Downsample(*d).pulsed_refusal(&fact) == d.refusal(fact.shape.len() as int));
    wire_pulsed(target, name.clone(), Op::Downsample(*d), input)
}

/// The translator that makes a model stream in pulses of `pulse` elements.
#[derive(Debug, Clone, Copy, PartialEq, Eq, Structural)]
pub struct Pulsifier {
    pub pulse: usize,
}

impl Pulsifier {
    /// Why the node `node` of a model does not go onto the streams of
    /// `target`, if it does not. `mapping` tells the outlets of the target
    /// that stand for those that the node reads. The node has to have one
    /// output; a source has to become a stream; another node has to read
    /// one outlet, and its operator to go onto the stream that it reads.
    pub open spec fn refusal(
        &self,
        node: GNode<TypedFact, Op>,
        target: Graph<PulsedFact, Op>,
        mapping: Map<OutletId, OutletId>,
    ) -> Option<OpError> {
        if node.facts.len() != 1 {
            Some(OpError::WrongArity(node.facts.len() as usize))
        } else {
            match node.op {
                Op::Source => stream_refusal(views(node.facts[0].shape@)),
                _ => if node.inputs.len() != 1 {
                    Some(OpError::WrongArity(node.inputs.len() as usize))
                } else {
                    let fact = target.fact(mapping[node.inputs[0]]);
                    match node.op {
                        Op::Identity => None,
                        Op::Pad(p) => match p.pulse_check(&fact) {
                            Ok(_) => None,
                            Err(e) => Some(e),
                        },
                        Op::Slice(s) => s.pulsed_refusal(&fact),
                        Op::Downsample(d) => down_pulse_refusal(&d, &fact),
                        _ => Some(OpError::NotPulsable),
                    }
                },
            }
        }
    }
}

impl Steps<TypedFact, Op, PulsedFact, Op> for Pulsifier {
    /// The translator takes a node that it does not refuse.
    open spec fn takes(
        &self,
        source: Graph<TypedFact, Op>,
        node: int,
        target: Graph<PulsedFact, Op>,
        mapping: Map<OutletId, OutletId>,
    ) -> bool {
        self.refusal(source.nodes[node], target, mapping).is_none()
    }

    /// The last node of the target stands for the node, under its name,
    /// and its outlet for the outlet of the node. A source has become a
    /// source of pulses, and one more input of the target; the identity
    /// reads what stands for what it read, and says the same of its
    /// output; a padding, a slice and a downsampling have gone onto the
    /// stream that they read.
    open spec fn puts(
        &self,
        source: Graph<TypedFact, Op>,
        node: int,
        before: Graph<PulsedFact, Op>,
        after: Graph<PulsedFact, Op>,
        mapping: Map<OutletId, OutletId>,
        outlets: Seq<OutletId>,
    ) -> bool {
        let n = source.nodes[node];
        let last = after.nodes.last();
        &&& outlets == seq![OutletId { node: (after.nodes.len() - 1) as usize, slot: 0 }]
        &&& last.name == n.name
        &&& after.outputs == before.outputs
        &&& match n.op {
            Op::Source => {
                &&& after.nodes.len() == before.nodes.len() + 1
                &&& last.op == Op::Source
                &&& last.inputs.len() == 0
                &&& last.facts.len() == 1
                &&& streamed(&n.facts[0], self.pulse, &last.facts[0])
                &&& after.inputs == before.inputs.push(outlets[0])
            },
            Op::Identity => {
                &&& after.nodes.len() == before.nodes.len() + 1
                &&& last.op == Op::Identity
                &&& last.inputs == seq![mapping[n.inputs[0]]]
                &&& last.facts.len() == 1
                &&& last.facts[0].same(&before.fact(mapping[n.inputs[0]]))
                &&& after.inputs == before.inputs
            },
            Op::Pad(p) => pad_pulsed(&p, n.name, before, after, mapping[n.inputs[0]]),
            Op::Slice(s) => slice_pulsed(&s, n.name, before, after, mapping[n.inputs[0]]),
            Op::Downsample(d) => down_pulsed(&d, n.name, before, after, mapping[n.inputs[0]]),
            _ => false,
        }
    }

}

impl Translate<TypedFact, Op, PulsedFact, Op> for Pulsifier {
    /// Puts into `target` the form on streams of the node `node`, which
    /// has one output. A source becomes a source of pulses. A padding, a
    /// slice or a downsampling goes onto the stream it reads. The identity
    /// stays. Another operator has no form on streams.
    fn translate_node(
        &self,
        source: &Model<TypedFact, Op>,
        node: usize,
        target: &mut Model<PulsedFact, Op>,
        mapping: &OutletMap,
    ) -> (r: Result<Vec<OutletId>, ModelError>)
        ensures
            r matches Err(e) ==> e matches ModelError::Op(f) && self.refusal(
                source@.nodes[node as int],
                old(target)@,
                mapping@,
            ) == Some(f) && final(target)@ == old(target)@,
    {
        let old_node = source.node(node);
        if old_node.outputs.len() != 1 {
            return Err(ModelError::Op(OpError::WrongArity(old_node.outputs.len())));
        }
        let ghost n = source@.nodes[node as int];
        match &old_node.op {
            Op::Source => {
                let fact = match PulsedFact::from_typed(&old_node.outputs[0].fact, self.pulse) {
                    Ok(f) => f,
                    Err(e) => {
                        return Err(ModelError::Op(e));
                    },
                };
                let ghost before = target@;
                let o = target.add_source(old_node.name.clone(), fact);
                let mut outs: Vec<OutletId> = Vec::new();
                outs.push(o);
                proof {
                    assert forall|x: OutletId| before.has_outlet(x) implies target@.has_outlet(x) by {}
                }
                Ok(outs)
            },
            _ => {
                if old_node.inputs.len() != 1 {
                    return Err(ModelError::Op(OpError::WrongArity(old_node.inputs.len())));
                }
                assert(n.inputs[0] == old_node.inputs[0]);
                let input = match mapping.get(old_node.inputs[0]) {
                    Some(o) => o,
                    None => {
                        assert(false);
                        return Err(ModelError::Unmapped(old_node.inputs[0]));
                    },
                };
                assert(target@.has_outlet(input));
                let out = match &old_node.op {
                    Op::Identity => wire_pulsed(target, old_node.name.clone(), Op::Identity, input),
                    Op::Pad(p) => pulsify_pad(p, target, &old_node.name, input),
                    Op::Slice(s) => pulsify_slice(s, target, &old_node.name, input),
                    Op::Downsample(d) => pulsify_downsample(d, target, &old_node.name, input),
                    _ => Err(ModelError::Op(OpError::NotPulsable)),
                };
                match out {
                    Ok(o) => {
                        let mut outs: Vec<OutletId> = Vec::new();
                        outs.push(o);
                        Ok(outs)
                    },
                    Err(e) => Err(e),
                }
            },
        }
    }
}

/// The model on pulses of `pulse` elements that stands for `model`, by
/// some mapping of the outlets: each node that the outputs depend on is put
/// onto the streams, one after the other in an evaluation order. There is
/// none of a model in which nodes that the outputs depend on depend on
/// each other in a circle; else it fails only where it halts at a node
/// that the translator refuses.
pub fn pulsify(model: &Model<TypedFact, Op>, pulse: usize) -> (r: Result<
    Model<PulsedFact, Op>,
    ModelError,
>)
    requires
        model.wf(),
    ensures
        match r {
            Ok(pulsed) => pulsed.wf() && exists|mapping: Map<OutletId, OutletId>| #[trigger]
                stands_for(model@, pulsed@, mapping) && maps_needed(model@, pulsed@, mapping)
                    && translation(Pulsifier { pulse }, model@, pulsed@, mapping),
            Err(e) => (e is Cycle <==> model@.has_cycle()) && (!(e is Cycle) ==> halted(
                Pulsifier { pulse },
                model@,
            )),
        },
        r is Ok ==> !model@.has_cycle(),
        model@.inputs.len() == 0 && model@.outputs.len() == 0 ==> r is Ok,
{
    let translator = Pulsifier { pulse };
    translator.translate_model(model)
}

/// The translator that takes a streaming model for a model on whole
/// tensors, one pulse for each tensor: each node as it is, with the form
/// of its operator on whole tensors.
#[derive(Debug, Clone, Copy, PartialEq, Eq, Structural)]
pub struct PulsedToTyped;

impl Steps<PulsedFact, Op, TypedFact, Op> for PulsedToTyped {
    /// The translator takes a node of which all that is known can be said
    /// of tensors.
    open spec fn takes(
        &self,
        source: Graph<PulsedFact, Op>,
        node: int,
        target: Graph<TypedFact, Op>,
        mapping: Map<OutletId, OutletId>,
    ) -> bool {
        let n = source.nodes[node];
        first_refused::<PulsedFact, TypedFact>(n.facts, 0) == n.facts.len()
    }

    /// The target has one node more: it has the name of the node, the form
    /// of its operator on whole tensors, and its facts as facts of tensors,
    /// and reads what stands for what the node reads. Its outlets stand
    /// for those of the node. The inputs and outputs of the target stay.
    open spec fn puts(
        &self,
        source: Graph<PulsedFact, Op>,
        node: int,
        before: Graph<TypedFact, Op>,
        after: Graph<TypedFact, Op>,
        mapping: Map<OutletId, OutletId>,
        outlets: Seq<OutletId>,
    ) -> bool {
        let n = source.nodes[node];
        &&& after.nodes.len() == before.nodes.len() + 1
        &&& after.inputs == before.inputs
        &&& after.outputs == before.outputs
        &&& outlets == outlets_of(before.nodes.len() as usize, n.facts.len() as int)
        &&& n.op.typed_form_is(&after.nodes.last().op)
        &&& after.nodes.last().name == n.name
        &&& after.nodes.last().inputs == images(mapping, n.inputs)
        &&& after.nodes.last().facts.len() == n.facts.len()
        &&& forall|k: int|
            0 <= k < n.facts.len() ==> <TypedFact as ConvertFrom<PulsedFact>>::taken(
                &n.facts[k],
                &#[trigger] after.nodes.last().facts[k],
            )
    }
}

impl Translate<PulsedFact, Op, TypedFact, Op> for PulsedToTyped {
    /// Appends to `target` a node with the name of the node `node`, the
    /// form of its operator on whole tensors and its facts as facts of
    /// tensors, that reads what stands for what the node reads. It fails
    /// where a fact cannot be said of a tensor.
    fn translate_node(
        &self,
        source: &Model<PulsedFact, Op>,
        node: usize,
        target: &mut Model<TypedFact, Op>,
        mapping: &OutletMap,
    ) -> (r: Result<Vec<OutletId>, ModelError>)
        ensures
            r matches Err(e) ==> {
                let n = source@.nodes[node as int];
                &&& final(target)@ == old(target)@
                &&& first_refused::<PulsedFact, TypedFact>(n.facts, 0) < n.facts.len()
                &&& e == ModelError::Incomplete(
                    OutletId {
                        node,
                        slot: first_refused::<PulsedFact, TypedFact>(n.facts, 0) as usize,
                    },
                )
            },
    {
        let old_node = source.node(node);
        let ghost n = source@.nodes[node as int];
        let op = old_node.op.typed_form();
        let mut facts: Vec<TypedFact> = Vec::new();
        let mut k: usize = 0;
        while k < old_node.outputs.len()
            invariant
                0 <= k <= old_node.outputs.len(),
                n == old_node.shape(),
                node < source.nodes.len(),
                n == source@.nodes[node as int],
                target.wf(),
                target@ == old(target)@,
                facts.len() == k,
                first_refused::<PulsedFact, TypedFact>(n.facts, 0) == first_refused::<
                    PulsedFact,
                    TypedFact,
                >(n.facts, k as int),
                forall|j: int|
                    0 <= j < k ==> <TypedFact as ConvertFrom<PulsedFact>>::taken(
                        &n.facts[j],
                        &#[trigger] facts[j],
                    ),
            decreases old_node.outputs.len() - k,
        {
            match <TypedFact as ConvertFrom<PulsedFact>>::convert(&old_node.outputs[k].fact) {
                Some(f) => {
                    facts.push(f);
                },
                None => {
                    return Err(ModelError::Incomplete(OutletId { node, slot: k }));
                },
            }
            k += 1;
        }
        let inputs = match crate::translator::map_all(mapping, &old_node.inputs) {
            Ok(v) => v,
            Err(o) => {
                assert(false);
                return Err(ModelError::Unmapped(o));
            },
        };
        proof {
            assert(first_missing(target@, inputs@, 0).is_none()) by {
                crate::translator::lemma_all_present(target@, inputs@, 0);
            }
        }
        match target.wire(old_node.name.clone(), op, facts, &inputs) {
            Ok(outlets) => Ok(outlets),
            Err(e) => {
                assert(false);
                Err(e)
            },
        }
    }
}

} // verus!
