//! The simplifications that operators offer: a padding that pads nothing, a
//! slice that takes everything or stays within one input of a
//! concatenation, a downsampling that keeps everything or follows a slice.

use vstd::prelude::*;
use crate::dim::tree::{TDim, Expr};
use crate::error::OpError;
use crate::facts::TypedFact;
use crate::model::fact::Fact;
use crate::model::graph::{Graph, InletId, Model, ModelError, Operator, OutletId};
use crate::model::access::{first_missing, outlets_of};
use crate::model::order::lemma_inputs_outlets;
use crate::ops::downsample::{Commuted, Downsample};
use crate::ops::op::Op;
use crate::ops::pad::Pad;
use crate::ops::slice::Slice;
use crate::patch::builder::ModelPatch;
use crate::patch::spec::Patch;

verus! {

/// The number that the tree `d` is, where it is one and not below zero.
pub open spec fn number(d: Expr) -> Option<int> {
    match d.eval(Map::empty()) {
        Ok(v) => if v >= 0 {
            Some(v)
        } else {
            None
        },
        Err(_) => None,
    }
}

/// The number that `d` is, where it is one and not below zero.
pub fn as_number(d: &TDim) -> (r: Option<usize>)
    ensures
        match r {
            Some(v) => number(d@) == Some(v as int) && v <= i32::MAX,
            None => number(d@).is_none(),
        },
{
    match d.to_integer() {
        Ok(v) => if v >= 0 {
            Some(v as usize)
        } else {
            None
        },
        Err(_) => None,
    }
}

/// Whether the padding pads nothing.
pub open spec fn pad_noop(p: &Pad) -> bool {
    forall|i: int| 0 <= i < p.pads.len() ==> (#[trigger] p.pads[i]).0 == 0 && p.pads[i].1 == 0
}

/// Whether the slice `s`, the node `n`, takes the whole of the axis it
/// slices.
pub open spec fn slice_whole(g: Graph<TypedFact, Op>, n: int, s: &Slice) -> bool {
    let f = g.fact(g.nodes[n].inputs[0]);
    s.axis < f.shape.len() && s.start@ == Expr::Val(0) && s.end@ == f.shape[s.axis as int]@
}

/// The input of a concatenation along `axis`, from the `i`-th on, that
/// holds the elements from `start` to `end`, with the place of its first
/// element; `offset` is the place of the first element of the `i`-th. The
/// search ends at an input whose length is no number.
pub open spec fn concat_find(
    g: Graph<TypedFact, Op>,
    inputs: Seq<OutletId>,
    axis: int,
    start: int,
    end: int,
    i: int,
    offset: int,
) -> Option<(int, int)>
    decreases inputs.len() - i,
{
    if i < 0 || i >= inputs.len() {
        None
    } else {
        let f = g.fact(inputs[i]);
        if axis >= f.shape.len() {
            None
        } else {
            match number(f.shape[axis]@) {
                None => None,
                Some(len) => if offset + len > usize::MAX {
                    None
                } else if start >= offset && end <= offset + len {
                    Some((i, offset))
                } else {
                    concat_find(g, inputs, axis, start, end, i + 1, offset + len)
                },
            }
        }
    }
}

/// Whether the slice `s`, the node `n`, reads a concatenation along its
/// axis and stays within one input of it.
pub open spec fn slice_in_concat(g: Graph<TypedFact, Op>, n: int, s: &Slice) -> bool {
    let prec = g.nodes[g.nodes[n].inputs[0].node as int];
    &&& prec.op == Op::Concat(s.axis)
    &&& number(s.start@).is_some()
    &&& number(s.end@).is_some()
    &&& concat_find(
        g,
        prec.inputs,
        s.axis as int,
        number(s.start@).unwrap(),
        number(s.end@).unwrap(),
        0,
        0,
    ).is_some()
}

/// Whether the downsampling `d`, the node `n`, alone reads a slice along
/// its axis.
pub open spec fn down_over_slice(g: Graph<TypedFact, Op>, n: int, d: &Downsample) -> bool {
    match g.single_prec(n) {
        Some(prec) => match g.nodes[prec as int].op {
            Op::Slice(sl) => sl.axis == d.axis,
            _ => false,
        },
        None => false,
    }
}

/// Whether the node `n` does nothing, so that what reads it can read what
/// it reads.
pub open spec fn is_noop(g: Graph<TypedFact, Op>, n: int) -> bool {
    match g.nodes[n].op {
        Op::Pad(p) => pad_noop(&p),
        Op::Slice(s) => g.nodes[n].inputs.len() > 0 && slice_whole(g, n, &s),
        Op::Downsample(d) => d.stride == 1,
        _ => false,
    }
}

/// Whether the operator of the node `n` has a simplification to offer.
pub open spec fn wants(g: Graph<TypedFact, Op>, n: int) -> bool {
    is_noop(g, n) || match g.nodes[n].op {
        Op::Slice(s) => g.nodes[n].inputs.len() > 0 && slice_in_concat(g, n, &s),
        Op::Downsample(d) => down_over_slice(g, n, &d),
        _ => false,
    }
}

/// The length of a slice from `start` to `end`, as slices give it.
pub open spec fn span(start: int, end: int) -> Expr {
    Expr::Val(end).plus(Expr::Val(start).times(-1).reduced()).reduced()
}

/// Whether `host` is what is known of a tensor of the type `datum_type`
/// and the shape `shape`, and nothing of its value.
pub open spec fn known_as(host: TypedFact, datum_type: crate::datum::DatumType, shape: Seq<Expr>) -> bool {
    &&& host.datum_type == datum_type
    &&& crate::dim::tree::views(host.shape@) == shape
    &&& host.konst.is_none()
}

/// The input of the concatenation that the slice `s`, the node `n`, stays
/// within, and the place of its first element.
pub open spec fn found_in_concat(g: Graph<TypedFact, Op>, n: int, s: &Slice) -> (int, int) {
    concat_find(
        g,
        g.nodes[g.nodes[n].inputs[0].node as int].inputs,
        s.axis as int,
        number(s.start@).unwrap(),
        number(s.end@).unwrap(),
        0,
        0,
    ).unwrap()
}

/// The shape of a slice from `start` to `end` along `axis` of a tensor of
/// the shape `shape`.
pub open spec fn narrowed_shape(shape: Seq<Expr>, axis: int, start: int, end: int) -> Seq<Expr> {
    Seq::new(
        shape.len(),
        |i: int|
            if i == axis {
                span(start, end)
            } else {
                shape[i]
            },
    )
}

/// Why the slice `s`, the node `n`, that stays within one input of the
/// concatenation it reads cannot slice that input in its place, if it
/// cannot: it ends before that input begins; the node has no outlet; or
/// what is known of its outlet is not what the new slice gives.
pub open spec fn narrow_refusal(g: Graph<TypedFact, Op>, n: int, s: &Slice) -> Option<ModelError> {
    let (ix, offset) = found_in_concat(g, n, s);
    let from = g.nodes[g.nodes[n].inputs[0].node as int].inputs[ix];
    let out = OutletId { node: n as usize, slot: 0 };
    let start = number(s.start@).unwrap();
    let end = number(s.end@).unwrap();
    if end < offset {
        Some(ModelError::Op(OpError::Overflow))
    } else if !g.has_outlet(out) {
        Some(ModelError::NoSuchOutlet(out))
    } else if !known_as(
        g.fact(out),
        g.fact(from).datum_type,
        narrowed_shape(
            crate::dim::tree::views(g.fact(from).shape@),
            s.axis as int,
            start - offset,
            end - offset,
        ),
    ) {
        Some(ModelError::FactMismatch(out))
    } else {
        None
    }
}

/// Whether `p` is the patch that has the slice `s`, the node `n`, slice
/// the one input of the concatenation that it stays within: a tap of
/// that input, a slice of it with the bounds counted from where the input
/// begins, under the name of the node, and the slice in the place of the
/// outlet of the node.
pub open spec fn narrows(p: Patch<TypedFact, Op>, g: Graph<TypedFact, Op>, n: int, s: &Slice) -> bool {
    let (ix, offset) = found_in_concat(g, n, s);
    let from = g.nodes[g.nodes[n].inputs[0].node as int].inputs[ix];
    let tap = OutletId { node: 0, slot: 0 };
    &&& p.graph.nodes.len() == 2
    &&& p.graph.nodes[0].op == Op::Source
    &&& p.incoming == Map::<OutletId, OutletId>::empty().insert(tap, from)
    &&& p.graph.nodes[1].op matches Op::Slice(s2) && s2.axis == s.axis && s2.start@ == Expr::Val(
        number(s.start@).unwrap() - offset,
    ) && s2.end@ == Expr::Val(number(s.end@).unwrap() - offset)
    &&& p.graph.nodes[1].inputs == seq![tap]
    &&& p.graph.nodes[1].name == g.nodes[n].name
    &&& p.shunts == seq![(OutletId { node: n as usize, slot: 0 }, OutletId { node: 1, slot: 0 })]
    &&& p.obliterate.len() == 0
}

/// The shape of a tensor of the shape `shape` once downsampled and sliced
/// as `c` has it, the slice along `slice_axis`.
pub open spec fn pulled_shape(shape: Seq<Expr>, c: Commuted, slice_axis: int) -> Seq<Expr> {
    Seq::new(
        shape.len(),
        |i: int|
            if i == slice_axis {
                span(c.start as int, c.end as int)
            } else if i == c.down.axis {
                c.down.transformed(shape[i])
            } else {
                shape[i]
            },
    )
}

/// The downsampling and the slice that do what the slice `slice_op`, the
/// node `slice_node`, and the downsampling `down_op`, the node
/// `down_node`, that follows it did; or why there are none: the start of
/// the slice or the length that the downsampling leaves is no number, a
/// node lacks its input or its outlet, the outlet lacks the axis, or the
/// downsampling and the slice do not commute.
pub open spec fn pull_start(
    g: Graph<TypedFact, Op>,
    slice_node: int,
    slice_op: &Slice,
    down_node: int,
    down_op: &Downsample,
) -> Result<Commuted, ModelError> {
    let out = OutletId { node: down_node as usize, slot: 0 };
    if number(slice_op.start@).is_none() {
        Err(ModelError::Op(OpError::Overflow))
    } else if g.nodes[slice_node].inputs.len() == 0 {
        Err(ModelError::NoSuchInput(InletId { node: slice_node as usize, slot: 0 }))
    } else if g.nodes[down_node].facts.len() == 0 {
        Err(ModelError::NoSuchOutlet(out))
    } else if down_op.axis >= g.fact(out).shape.len() {
        Err(ModelError::Op(OpError::NoSuchAxis(down_op.axis)))
    } else if number(g.fact(out).shape[down_op.axis as int]@).is_none() {
        Err(ModelError::Op(OpError::Overflow))
    } else {
        match down_op.commuted(
            number(slice_op.start@).unwrap(),
            number(g.fact(out).shape[down_op.axis as int]@).unwrap(),
        ) {
            Err(e) => Err(ModelError::Op(e)),
            Ok(c) => Ok(c),
        }
    }
}

/// The downsampling and the slice that take the place of the slice
/// `slice_op`, the node `slice_node`, and the downsampling `down_op`, the
/// node `down_node`, that follows it; or why the downsampling cannot go
/// before the slice: there are no such two, the new downsampling cannot
/// be done on what the slice read, a bound of the new slice leaves the
/// `i32` range, the tensor lacks the axis of the slice, or what is known
/// of the outlet of the downsampling is not what the new slice gives.
pub open spec fn pull_plan(
    g: Graph<TypedFact, Op>,
    slice_node: int,
    slice_op: &Slice,
    down_node: int,
    down_op: &Downsample,
) -> Result<Commuted, ModelError> {
    let out = OutletId { node: down_node as usize, slot: 0 };
    let tapped = g.fact(g.nodes[slice_node].inputs[0]);
    match pull_start(g, slice_node, slice_op, down_node, down_op) {
        Err(e) => Err(e),
        Ok(c) => if let Some(e) = c.down.refusal(tapped.shape.len() as int) {
            Err(ModelError::Op(e))
        } else if c.start > i32::MAX || c.end > i32::MAX {
            Err(ModelError::Op(OpError::Overflow))
        } else if slice_op.axis >= tapped.shape.len() {
            Err(ModelError::Op(OpError::NoSuchAxis(slice_op.axis)))
        } else if !known_as(
            g.fact(out),
            tapped.datum_type,
            pulled_shape(crate::dim::tree::views(tapped.shape@), c, slice_op.axis as int),
        ) {
            Err(ModelError::FactMismatch(out))
        } else {
            Ok(c)
        },
    }
}

/// Whether `p` is the patch that puts the downsampling of the node
/// `down_node` before the slice of the node `slice_node`, as `c` has it: a
/// tap of what the slice read, the downsampling of it under the name of
/// the old one, the slice of that under the name of the old one, and this
/// slice in the place of the outlet of the old downsampling.
pub open spec fn pulls(
    p: Patch<TypedFact, Op>,
    g: Graph<TypedFact, Op>,
    slice_node: int,
    slice_axis: usize,
    down_node: int,
    c: Commuted,
) -> bool {
    let tap = OutletId { node: 0, slot: 0 };
    &&& p.graph.nodes.len() == 3
    &&& p.graph.nodes[0].op == Op::Source
    &&& p.incoming == Map::<OutletId, OutletId>::empty().insert(tap, g.nodes[slice_node].inputs[0])
    &&& p.graph.nodes[1].op == Op::Downsample(c.down)
    &&& p.graph.nodes[1].inputs == seq![tap]
    &&& p.graph.nodes[1].name == g.nodes[down_node].name
    &&& p.graph.nodes[2].op matches Op::Slice(s) && s.axis == slice_axis && s.start@ == Expr::Val(
        c.start as int,
    ) && s.end@ == Expr::Val(c.end as int)
    &&& p.graph.nodes[2].inputs == seq![OutletId { node: 1, slot: 0 }]
    &&& p.graph.nodes[2].name == g.nodes[slice_node].name
    &&& p.shunts == seq![
        (OutletId { node: down_node as usize, slot: 0 }, OutletId { node: 2, slot: 0 }),
    ]
    &&& p.obliterate.len() == 0
}

/// Whether `p` is the patch that removes the node `n`, which does nothing:
/// what read its outlet reads what it read.
pub open spec fn removes(p: Patch<TypedFact, Op>, g: Graph<TypedFact, Op>, n: int) -> bool {
    &&& g.nodes[n].inputs.len() > 0
    &&& p.taps_with(g, seq![g.nodes[n].inputs[0]], 0)
    &&& p.shunts == seq![(OutletId { node: n as usize, slot: 0 }, OutletId { node: 0, slot: 0 })]
    &&& p.obliterate == seq![n as usize]
}

/// Whether `p` is the simplification that the node `n`, which has one to
/// offer, offers.
pub open spec fn simplifies(p: Patch<TypedFact, Op>, g: Graph<TypedFact, Op>, n: int) -> bool {
    if is_noop(g, n) {
        removes(p, g, n)
    } else {
        match g.nodes[n].op {
            Op::Slice(s) => narrows(p, g, n, &s),
            Op::Downsample(d) => {
                let prec = g.single_prec(n).unwrap() as int;
                match g.nodes[prec].op {
                    Op::Slice(sl) => pull_plan(g, prec, &sl, n, &d) matches Ok(c) && pulls(
                        p,
                        g,
                        prec,
                        sl.axis,
                        n,
                        c,
                    ),
                    _ => false,
                }
            },
            _ => false,
        }
    }
}

/// Why the node `n`, which has a simplification to offer, cannot offer
/// it, if it cannot.
pub open spec fn simplify_refusal(g: Graph<TypedFact, Op>, n: int) -> Option<ModelError> {
    if is_noop(g, n) {
        match ModelPatch::<TypedFact, Op>::shunt_one_op_check(g, n as usize) {
            Ok(_) => None,
            Err(e) => Some(e),
        }
    } else {
        match g.nodes[n].op {
            Op::Slice(s) => narrow_refusal(g, n, &s),
            Op::Downsample(d) => {
                let prec = g.single_prec(n).unwrap() as int;
                match g.nodes[prec].op {
                    Op::Slice(sl) => match pull_plan(g, prec, &sl, n, &d) {
                        Ok(_) => None,
                        Err(e) => Some(e),
                    },
                    _ => None,
                }
            },
            _ => None,
        }
    }
}

/// The input of the concatenation that holds the elements from `start` to
/// `end`, and the place of its first element.
fn find_in_concat(
    model: &Model<TypedFact, Op>,
    prec: usize,
    axis: usize,
    start: usize,
    end: usize,
) -> (r: Option<(usize, usize)>)
    requires
        model.wf(),
        prec < model.nodes.len(),
    ensures
        match r {
            Some((i, offset)) => concat_find(
                model@,
                model@.nodes[prec as int].inputs,
                axis as int,
                start as int,
                end as int,
                0,
                0,
            ) == Some((i as int, offset as int)) && i < model@.nodes[prec as int].inputs.len(),
            None => concat_find(
                model@,
                model@.nodes[prec as int].inputs,
                axis as int,
                start as int,
                end as int,
                0,
                0,
            ).is_none(),
        },
{
    let inputs = &model.nodes[prec].inputs;
    proof {
        assert(model@.nodes[prec as int].inputs.len() == inputs.len());
        lemma_inputs_outlets(model@, prec);
    }
    let mut offset: usize = 0;
    let mut i: usize = 0;
    while i < inputs.len()
        invariant
            0 <= i <= inputs.len(),
            model.wf(),
            prec < model.nodes.len(),
            inputs@ == model@.nodes[prec as int].inputs,
            forall|k: int| 0 <= k < inputs.len() ==> model@.has_outlet(#[trigger] inputs@[k]),
            concat_find(model@, inputs@, axis as int, start as int, end as int, 0, 0) == concat_find(
                model@,
                inputs@,
                axis as int,
                start as int,
                end as int,
                i as int,
                offset as int,
            ),
        decreases inputs.len() - i,
    {
        assert(model@.has_outlet(inputs@[i as int]));
        let fact = match model.outlet_fact(inputs[i]) {
            Ok(f) => f,
            Err(_) => {
                return None;
            },
        };
        if axis >= fact.shape.len() {
            return None;
        }
        let len = match as_number(&fact.shape[axis]) {
            Some(l) => l,
            None => {
                return None;
            },
        };
        if len > usize::MAX - offset {
            return None;
        }
        if start >= offset && end <= offset + len {
            return Some((i, offset));
        }
        offset = offset + len;
        i += 1;
    }
    None
}

/// What the search in a concatenation finds: an input of it from the
/// `i`-th on, which has the axis, and begins at or before `start`.
pub proof fn lemma_concat_found(
    g: Graph<TypedFact, Op>,
    inputs: Seq<OutletId>,
    axis: int,
    start: int,
    end: int,
    i: int,
    offset: int,
)
    requires
        0 <= i,
        concat_find(g, inputs, axis, start, end, i, offset).is_some(),
    ensures
        i <= concat_find(g, inputs, axis, start, end, i, offset).unwrap().0 < inputs.len(),
        axis < g.fact(
            inputs[concat_find(g, inputs, axis, start, end, i, offset).unwrap().0],
        ).shape.len(),
        concat_find(g, inputs, axis, start, end, i, offset).unwrap().1 <= start,
    decreases inputs.len() - i,
{
    let f = g.fact(inputs[i]);
    let len = number(f.shape[axis]@).unwrap();
    if !(start >= offset && end <= offset + len) {
        lemma_concat_found(g, inputs, axis, start, end, i + 1, offset + len);
    }
}

/// What is known of a slice of a tapped outlet is the same as `host` where
/// `host` is known as a tensor of the narrowed shape.
pub proof fn lemma_narrowed_fact(
    host: TypedFact,
    tapped_of: TypedFact,
    tapped: TypedFact,
    sliced: TypedFact,
    slice: Slice,
    start: int,
    end: int,
)
    requires
        tapped.same(&tapped_of),
        slice.typed(&tapped, &sliced),
        slice.start@ == Expr::Val(start),
        slice.end@ == Expr::Val(end),
    ensures
        host.same(&sliced) == known_as(
            host,
            tapped_of.datum_type,
            narrowed_shape(crate::dim::tree::views(tapped_of.shape@), slice.axis as int, start, end),
        ),
{
    crate::dim::tree::lemma_views_len(tapped_of.shape@);
    crate::dim::tree::lemma_views_len(tapped.shape@);
    crate::dim::tree::lemma_views_len(sliced.shape@);
    assert(crate::dim::tree::views(sliced.shape@) =~= narrowed_shape(
        crate::dim::tree::views(tapped_of.shape@),
        slice.axis as int,
        start,
        end,
    ));
}

/// What is known of a downsampled and then sliced tapped outlet is the
/// same as `host` where `host` is known as a tensor of the shape that the
/// two leave.
pub proof fn lemma_pulled_fact(
    host: TypedFact,
    tapped_of: TypedFact,
    tapped: TypedFact,
    down: TypedFact,
    sliced: TypedFact,
    slice: Slice,
    c: Commuted,
)
    requires
        tapped.same(&tapped_of),
        c.down.typed(&tapped, &down),
        slice.typed(&down, &sliced),
        slice.start@ == Expr::Val(c.start as int),
        slice.end@ == Expr::Val(c.end as int),
    ensures
        host.same(&sliced) == known_as(
            host,
            tapped_of.datum_type,
            pulled_shape(crate::dim::tree::views(tapped_of.shape@), c, slice.axis as int),
        ),
{
    crate::dim::tree::lemma_views_len(tapped_of.shape@);
    crate::dim::tree::lemma_views_len(tapped.shape@);
    crate::dim::tree::lemma_views_len(down.shape@);
    crate::dim::tree::lemma_views_len(sliced.shape@);
    assert(crate::dim::tree::views(sliced.shape@) =~= pulled_shape(
        crate::dim::tree::views(tapped_of.shape@),
        c,
        slice.axis as int,
    ));
}

/// The patch that has the slice `s`, the node `node`, slice the input of
/// the concatenation that it stays within, the `ix`-th, which begins at
/// `offset`.
fn narrow_slice(
    model: &Model<TypedFact, Op>,
    node: usize,
    s: &Slice,
    start: usize,
    end: usize,
    ix: usize,
    offset: usize,
) -> (r: Result<ModelPatch<TypedFact, Op>, ModelError>)
    requires
        model.wf(),
        node < model.nodes.len(),
        model@.nodes[node as int].inputs.len() > 0,
        slice_in_concat(model@, node as int, s),
        found_in_concat(model@, node as int, s) == (ix as int, offset as int),
        number(s.start@) == Some(start as int),
        number(s.end@) == Some(end as int),
        start <= i32::MAX,
        end <= i32::MAX,
    ensures
        match r {
            Ok(p) => p.wf() && narrow_refusal(model@, node as int, s).is_none() && narrows(
                p@,
                model@,
                node as int,
                s,
            ),
            Err(e) => narrow_refusal(model@, node as int, s) == Some(e),
        },
{
    let ghost g = model@;
    let prec = model.nodes[node].inputs[0].node;
    proof {
        assert(g.nodes[node as int].inputs.len() == model.nodes[node as int].inputs.len());
        lemma_inputs_outlets(g, node);
        assert(g.has_outlet(g.nodes[node as int].inputs[0]));
        lemma_concat_found(
            g,
            g.nodes[prec as int].inputs,
            s.axis as int,
            start as int,
            end as int,
            0,
            0,
        );
        assert(g.nodes[prec as int].inputs.len() == model.nodes[prec as int].inputs.len());
        lemma_inputs_outlets(g, prec);
        assert(g.has_outlet(g.nodes[prec as int].inputs[ix as int]));
    }
    let from = model.nodes[prec].inputs[ix];
    if end < offset {
        return Err(ModelError::Op(OpError::Overflow));
    }
    let out = OutletId { node, slot: 0 };
    let mut patch: ModelPatch<TypedFact, Op> = ModelPatch::new();
    let tap = match patch.tap_model(model, from) {
        Ok(t) => t,
        Err(e) => {
            assert(false);
            return Err(e);
        },
    };
    let slice = Slice::new(s.axis, TDim::Val((start - offset) as i32), TDim::Val((end - offset) as i32));
    let tapped = match patch.model.outlet_fact(tap) {
        Ok(f) => f,
        Err(e) => {
            assert(false);
            return Err(e);
        },
    };
    let ghost tapped_fact = *tapped;
    proof {
        crate::dim::tree::lemma_views_len(tapped.shape@);
        crate::dim::tree::lemma_views_len(g.fact(from).shape@);
    }
    let out_fact = match slice.output_facts(tapped) {
        Ok(f) => f,
        Err(e) => {
            assert(false);
            return Err(ModelError::Op(e));
        },
    };
    proof {
        if g.has_outlet(out) {
            lemma_narrowed_fact(
                g.fact(out),
                g.fact(from),
                tapped_fact,
                out_fact,
                slice,
                start - offset,
                end - offset,
            );
        }
    }
    let mut facts: Vec<TypedFact> = Vec::new();
    facts.push(out_fact);
    let mut inputs: Vec<OutletId> = Vec::new();
    inputs.push(tap);
    let ghost tapping = patch@;
    proof {
        assert(first_missing(tapping.graph, inputs@, 1).is_none());
    }
    let outs = match patch.wire_node(model.nodes[node].name.clone(), Op::Slice(slice), facts, &inputs) {
        Ok(o) => o,
        Err(e) => {
            assert(false);
            return Err(e);
        },
    };
    proof {
        assert(patch@.graph.nodes.len() == 2);
        assert(outlets_of(1, 1)[0] == (OutletId { node: 1, slot: 0 }));
        assert(patch@.graph.has_outlet(OutletId { node: 1, slot: 0 }));
        assert(patch@.graph.nodes[1].facts[0] == out_fact);
        assert(patch@.graph.nodes[1].inputs =~= seq![tap]);
    }
    match patch.shunt_outside(model, out, OutletId { node: 1, slot: 0 }) {
        Ok(_) => {
            proof {
                assert(patch@.shunts =~= seq![(out, OutletId { node: 1, slot: 0 })]);
            }
            Ok(patch)
        },
        Err(e) => Err(e),
    }
}

/// The simplification that the operator of the node `node` has to offer,
/// as a patch to `model`, if it has one: a node that does nothing is
/// removed; a slice that stays within one input of a concatenation slices
/// that input; a downsampling that follows a slice goes before it.
pub fn declutter_node(model: &Model<TypedFact, Op>, node: usize) -> (r: Result<
    Option<ModelPatch<TypedFact, Op>>,
    ModelError,
>)
    requires
        model.wf(),
        node < model.nodes.len(),
    ensures
        match r {
            Ok(None) => !wants(model@, node as int),
            Ok(Some(p)) => {
                &&& wants(model@, node as int)
                &&& simplify_refusal(model@, node as int).is_none()
                &&& p.wf()
                &&& simplifies(p@, model@, node as int)
            },
            Err(e) => wants(model@, node as int) && simplify_refusal(model@, node as int) == Some(
                e,
            ),
        },
{
    match &model.nodes[node].op {
        Op::Pad(p) => {
            if p.is_noop() {
                match ModelPatch::shunt_one_op(model, node) {
                    Ok(patch) => Ok(Some(patch)),
                    Err(e) => Err(e),
                }
            } else {
                Ok(None)
            }
        },
        Op::Slice(s) => {
            if model.nodes[node].inputs.len() == 0 {
                return Ok(None);
            }
            let input = model.nodes[node].inputs[0];
            proof {
                assert(model@.nodes[node as int].inputs.len() == model.nodes[node as int].inputs.len());
                lemma_inputs_outlets(model@, node);
                assert(model@.has_outlet(model@.nodes[node as int].inputs[0]));
            }
            let fact = match model.outlet_fact(input) {
                Ok(f) => f,
                Err(e) => {
                    assert(false);
                    return Err(e);
                },
            };
            if s.axis < fact.shape.len() && s.is_whole(&fact.shape[s.axis]) {
                return match ModelPatch::shunt_one_op(model, node) {
                    Ok(patch) => Ok(Some(patch)),
                    Err(e) => Err(e),
                };
            }
            let prec = input.node;
            let same_axis = match &model.nodes[prec].op {
                Op::Concat(axis) => *axis == s.axis,
                _ => false,
            };
            if !same_axis {
                return Ok(None);
            }
            let start = match as_number(&s.start) {
                Some(v) => v,
                None => {
                    return Ok(None);
                },
            };
            let end = match as_number(&s.end) {
                Some(v) => v,
                None => {
                    return Ok(None);
                },
            };
            let (ix, offset) = match find_in_concat(model, prec, s.axis, start, end) {
                Some(found) => found,
                None => {
                    return Ok(None);
                },
            };
            match narrow_slice(model, node, s, start, end, ix, offset) {
                Ok(patch) => Ok(Some(patch)),
                Err(e) => Err(e),
            }
        },
        Op::Downsample(d) => {
            if d.stride == 1 {
                return match ModelPatch::shunt_one_op(model, node) {
                    Ok(patch) => Ok(Some(patch)),
                    Err(e) => Err(e),
                };
            }
            let prec = match model.single_prec(node) {
                Some(p) => p,
                None => {
                    return Ok(None);
                },
            };
            proof {
                let inlet = InletId { node, slot: 0 };
                assert(model@.has_inlet(inlet));
                assert(model@.has_outlet(model@.input(inlet)));
            }
            match &model.nodes[prec].op {
                Op::Slice(sl) => {
                    if sl.axis != d.axis {
                        return Ok(None);
                    }
                    pull_downsample_over_slice(model, prec, sl, node, d)
                },
                _ => Ok(None),
            }
        },
        _ => Ok(None),
    }
}

/// The downsampling and the slice that do what the slice `slice_op` and
/// the downsampling `down_op` that follows it did.
fn pull_numbers(
    model: &Model<TypedFact, Op>,
    slice_node: usize,
    slice_op: &Slice,
    down_node: usize,
    down_op: &Downsample,
) -> (r: Result<Commuted, ModelError>)
    requires
        model.wf(),
        slice_node < model.nodes.len(),
        down_node < model.nodes.len(),
    ensures
        r == pull_start(model@, slice_node as int, slice_op, down_node as int, down_op),
{
    let start = match as_number(&slice_op.start) {
        Some(v) => v,
        None => {
            return Err(ModelError::Op(OpError::Overflow));
        },
    };
    if model.nodes[slice_node].inputs.len() == 0 {
        return Err(ModelError::NoSuchInput(InletId { node: slice_node, slot: 0 }));
    }
    if model.nodes[down_node].outputs.len() == 0 {
        return Err(ModelError::NoSuchOutlet(OutletId { node: down_node, slot: 0 }));
    }
    let down_fact = &model.nodes[down_node].outputs[0].fact;
    assert(*down_fact == model@.fact(OutletId { node: down_node, slot: 0 }));
    if down_op.axis >= down_fact.shape.len() {
        return Err(ModelError::Op(OpError::NoSuchAxis(down_op.axis)));
    }
    let final_len = match as_number(&down_fact.shape[down_op.axis]) {
        Some(v) => v,
        None => {
            return Err(ModelError::Op(OpError::Overflow));
        },
    };
    match down_op.commute_with_slice(start, final_len) {
        Ok(p) => Ok(p),
        Err(e) => Err(ModelError::Op(e)),
    }
}

/// The patch that puts the downsampling `down_op`, the node `down_node`,
/// before the slice `slice_op`, the node `slice_node`, that it followed: a
/// downsampling with the offset that the start of the slice gives it
/// reads what the slice read, a slice of what it gives follows, and
/// replaces the old downsampling. There is no such patch where the two work
/// along different axes.
pub fn pull_downsample_over_slice(
    model: &Model<TypedFact, Op>,
    slice_node: usize,
    slice_op: &Slice,
    down_node: usize,
    down_op: &Downsample,
) -> (r: Result<Option<ModelPatch<TypedFact, Op>>, ModelError>)
    requires
        model.wf(),
        slice_node < model.nodes.len(),
        down_node < model.nodes.len(),
    ensures
        match r {
            Ok(None) => down_op.axis != slice_op.axis,
            Ok(Some(p)) => {
                &&& down_op.axis == slice_op.axis
                &&& p.wf()
                &&& pull_plan(model@, slice_node as int, slice_op, down_node as int, down_op) matches Ok(
                    c,
                ) && pulls(p@, model@, slice_node as int, slice_op.axis, down_node as int, c)
            },
            Err(e) => down_op.axis == slice_op.axis && pull_plan(
                model@,
                slice_node as int,
                slice_op,
                down_node as int,
                down_op,
            ) == Err::<Commuted, ModelError>(e),
        },
{
    if down_op.axis != slice_op.axis {
        return Ok(None);
    }
    let ghost g = model@;
    let plan = match pull_numbers(model, slice_node, slice_op, down_node, down_op) {
        Ok(p) => p,
        Err(e) => {
            return Err(e);
        },
    };
    let out = OutletId { node: down_node, slot: 0 };
    let mut patch: ModelPatch<TypedFact, Op> = ModelPatch::new();
    let from = model.nodes[slice_node].inputs[0];
    proof {
        assert(g.nodes[slice_node as int].inputs.len() == model.nodes[slice_node as int].inputs.len());
        lemma_inputs_outlets(g, slice_node);
        assert(g.has_outlet(g.nodes[slice_node as int].inputs[0]));
    }
    let tap = match patch.tap_model(model, from) {
        Ok(t) => t,
        Err(e) => {
            assert(false);
            return Err(e);
        },
    };
    let tapped = match patch.model.outlet_fact(tap) {
        Ok(f) => f,
        Err(e) => {
            assert(false);
            return Err(e);
        },
    };
    let ghost tapped_fact = *tapped;
    proof {
        crate::dim::tree::lemma_views_len(tapped.shape@);
        crate::dim::tree::lemma_views_len(g.fact(from).shape@);
    }
    let fact1 = match plan.down.output_facts(tapped) {
        Ok(f) => f,
        Err(e) => {
            return Err(ModelError::Op(e));
        },
    };
    if plan.start > 0x7fff_ffff || plan.end > 0x7fff_ffff {
        return Err(ModelError::Op(OpError::Overflow));
    }
    let slice = Slice::new(slice_op.axis, TDim::Val(plan.start as i32), TDim::Val(plan.end as i32));
    let fact2 = match slice.output_facts(&fact1) {
        Ok(f) => f,
        Err(e) => {
            return Err(ModelError::Op(e));
        },
    };
    proof {
        lemma_pulled_fact(g.fact(out), g.fact(from), tapped_fact, fact1, fact2, slice, plan);
    }
    match build_pulled(model, patch, tap, slice_node, down_node, plan, slice, fact1, fact2) {
        Ok(patch) => Ok(Some(patch)),
        Err(e) => Err(e),
    }
}

/// Completes the patch that puts a downsampling before a slice, once the
/// tap is made: wires the two and has the new slice replace the outlet of
/// the old downsampling.
fn build_pulled(
    model: &Model<TypedFact, Op>,
    patch: ModelPatch<TypedFact, Op>,
    tap: OutletId,
    slice_node: usize,
    down_node: usize,
    plan: Commuted,
    slice: Slice,
    fact1: TypedFact,
    fact2: TypedFact,
) -> (r: Result<ModelPatch<TypedFact, Op>, ModelError>)
    requires
        model.wf(),
        patch.wf(),
        slice_node < model.nodes.len(),
        down_node < model.nodes.len(),
        model@.nodes[slice_node as int].inputs.len() > 0,
        model@.nodes[down_node as int].facts.len() > 0,
        tap == (OutletId { node: 0, slot: 0 }),
        patch@.graph.nodes.len() == 1,
        patch@.graph.nodes[0].op == Op::Source,
        patch@.graph.has_outlet(tap),
        patch@.incoming == Map::<OutletId, OutletId>::empty().insert(
            tap,
            model@.nodes[slice_node as int].inputs[0],
        ),
        patch@.shunts.len() == 0,
        patch.shunt_outlet_by.keys.len() == 0,
        patch@.obliterate.len() == 0,
        slice.start@ == Expr::Val(plan.start as int),
        slice.end@ == Expr::Val(plan.end as int),
    ensures
        match r {
            Ok(p) => {
                &&& p.wf()
                &&& model@.fact(OutletId { node: down_node, slot: 0 }).same(&fact2)
                &&& pulls(p@, model@, slice_node as int, slice.axis, down_node as int, plan)
            },
            Err(e) => !model@.fact(OutletId { node: down_node, slot: 0 }).same(&fact2) && e
                == ModelError::FactMismatch(OutletId { node: down_node, slot: 0 }),
        },
{
    let mut patch = patch;
    let out = OutletId { node: down_node, slot: 0 };
    let ghost axis = slice.axis;
    let mut facts: Vec<TypedFact> = Vec::new();
    facts.push(fact1);
    let mut inputs: Vec<OutletId> = Vec::new();
    inputs.push(tap);
    proof {
        assert(first_missing(patch@.graph, inputs@, 1).is_none());
    }
    let ds = match patch.wire_node(
        model.nodes[down_node].name.clone(),
        Op::Downsample(plan.down),
        facts,
        &inputs,
    ) {
        Ok(o) => o,
        Err(e) => {
            assert(false);
            return Err(e);
        },
    };
    let mut facts: Vec<TypedFact> = Vec::new();
    facts.push(fact2);
    let mut inputs: Vec<OutletId> = Vec::new();
    inputs.push(OutletId { node: 1, slot: 0 });
    proof {
        assert(patch@.graph.nodes.len() == 2);
        assert(patch@.graph.nodes[1].inputs =~= seq![tap]);
        assert(outlets_of(1, 1)[0] == (OutletId { node: 1, slot: 0 }));
        assert(patch@.graph.has_outlet(OutletId { node: 1, slot: 0 }));
        assert(first_missing(patch@.graph, inputs@, 1).is_none());
    }
    let ghost wired1 = patch@;
    let new_slice = match patch.wire_node(
        model.nodes[slice_node].name.clone(),
        Op::Slice(slice),
        facts,
        &inputs,
    ) {
        Ok(o) => o,
        Err(e) => {
            assert(false);
            return Err(e);
        },
    };
    proof {
        assert(patch@.graph.nodes.len() == 3);
        assert(outlets_of(2, 1)[0] == (OutletId { node: 2, slot: 0 }));
        assert(patch@.graph.has_outlet(OutletId { node: 2, slot: 0 }));
        assert(patch@.graph.nodes[2].facts[0] == fact2);
        assert(model@.has_outlet(out));
    }
    match patch.shunt_outside(model, out, OutletId { node: 2, slot: 0 }) {
        Ok(_) => {
            proof {
                assert(patch@.shunts =~= seq![(out, OutletId { node: 2, slot: 0 })]);
                assert(patch@.graph.nodes[2].inputs =~= seq![OutletId { node: 1, slot: 0 }]);
                assert(patch@.graph.nodes[1].op == wired1.graph.nodes[1].op);
                assert(patch@.graph.nodes[1].inputs == wired1.graph.nodes[1].inputs);
                assert(patch@.graph.nodes[0].op == wired1.graph.nodes[0].op);
            }
            Ok(patch)
        },
        Err(e) => Err(e),
    }
}

/// What removing a node does. The patch that removes the node `n`, which
/// does nothing, applied: what read the outlet of the node reads what the
/// node read, and the node is a dummy.
pub proof fn lemma_removed(p: Patch<TypedFact, Op>, host: Graph<TypedFact, Op>, n: int)
    requires
        removes(p, host, n),
        0 <= n <= usize::MAX,
    ensures
        p.applied(host) == host.shunted(
            OutletId { node: n as usize, slot: 0 },
            host.nodes[n].inputs[0],
        ).with_op(n, Op::Dummy),
{
    let base = host.nodes.len() as int;
    let tap = OutletId { node: 0, slot: 0 };
    let from = OutletId { node: n as usize, slot: 0 };
    let to = host.nodes[n].inputs[0];
    assert(p.graph.nodes.len() == 1);
    let first = 0int;
    let i = 0int;
    assert(p.graph.nodes[first + i].op == <Op as Operator>::source_spec());
    assert(p.graph.nodes[0].op == Op::Source);
    assert(p.incoming.contains_key(tap) && p.incoming[tap] == seq![to][0]);
    reveal_with_fuel(Graph::grafted, 2);
    reveal_with_fuel(Patch::shunt_all, 2);
    reveal_with_fuel(Patch::connect_all, 2);
    reveal_with_fuel(Graph::obliterated, 2);
    let g1 = host.grafted(p.graph, 1);
    assert(g1 == host);
    assert(p.mapped(base, tap) == to);
    let g2 = p.shunt_all(base, g1, 1);
    assert(g2 == host.shunted(from, to));
    let g3 = p.connect_all(base, g2, 1);
    assert(g3 == g2);
}

} // verus!
