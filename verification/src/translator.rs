//! Translating a model node by node into another, which may hold facts and
//! operators of another flavour.

use vstd::prelude::*;
use crate::model::fact::Fact;
use crate::model::graph::{Graph, Model, ModelError, Operator, OutletId};
use crate::model::access::first_missing;
use crate::model::map::OutletMap;

verus! {

/// Whether `mapping` gives each of `outlets` an outlet of `target`.
pub open spec fn all_mapped<F, O>(
    mapping: Map<OutletId, OutletId>,
    outlets: Seq<OutletId>,
    target: Graph<F, O>,
) -> bool {
    forall|k: int|
        0 <= k < outlets.len() ==> mapping.contains_key(#[trigger] outlets[k]) && target.has_outlet(
            mapping[outlets[k]],
        )
}

/// The outlets that `mapping` gives `outlets`.
pub open spec fn images(mapping: Map<OutletId, OutletId>, outlets: Seq<OutletId>) -> Seq<OutletId> {
    Seq::new(outlets.len(), |k: int| mapping[outlets[k]])
}

/// Whether `target` stands for `source` by `mapping`: its inputs and its
/// outputs are the outlets that `mapping` gives those of `source`, one
/// for one and in order.
pub open spec fn stands_for<F1, O1, F2, O2>(
    source: Graph<F1, O1>,
    target: Graph<F2, O2>,
    mapping: Map<OutletId, OutletId>,
) -> bool {
    &&& all_mapped(mapping, source.inputs, target)
    &&& all_mapped(mapping, source.outputs, target)
    &&& target.inputs == images(mapping, source.inputs)
    &&& target.outputs == images(mapping, source.outputs)
}

/// Whether `mapping` gives each outlet of the nodes of `source` that its
/// outputs depend on an outlet of `target`.
pub open spec fn maps_needed<F1, O1, F2, O2>(
    source: Graph<F1, O1>,
    target: Graph<F2, O2>,
    mapping: Map<OutletId, OutletId>,
) -> bool {
    forall|o: OutletId|
        source.needed(o.node as int) && #[trigger] source.has_outlet(o) ==> mapping.contains_key(o)
            && target.has_outlet(mapping[o])
}

/// The outlets that `mapping` gives `outlets`, or the first of them that
/// it gives none.
pub fn map_all(mapping: &OutletMap, outlets: &Vec<OutletId>) -> (r: Result<Vec<OutletId>, OutletId>)
    requires
        mapping.wf(),
    ensures
        match r {
            Ok(v) => v@ == images(mapping@, outlets@) && forall|k: int|
                0 <= k < outlets.len() ==> mapping@.contains_key(#[trigger] outlets[k]),
            Err(o) => !mapping@.contains_key(o) && outlets@.contains(o),
        },
{
    let mut out: Vec<OutletId> = Vec::new();
    let mut k: usize = 0;
    while k < outlets.len()
        invariant
            0 <= k <= outlets.len(),
            mapping.wf(),
            out.len() == k,
            forall|j: int| 0 <= j < k ==> mapping@.contains_key(#[trigger] outlets[j]),
            forall|j: int| 0 <= j < k ==> #[trigger] out[j] == mapping@[outlets[j]],
        decreases outlets.len() - k,
    {
        match mapping.get(outlets[k]) {
            Some(o) => {
                out.push(o);
            },
            None => {
                assert(outlets@[k as int] == outlets[k as int]);
                return Err(outlets[k]);
            },
        }
        k += 1;
    }
    assert(out@ =~= images(mapping@, outlets@));
    Ok(out)
}

/// The mapping once the first `k` of the outlets `outlets` that stand for
/// the outlets of the node `node` are entered in `mapping`.
pub open spec fn entered(
    node: usize,
    outlets: Seq<OutletId>,
    mapping: Map<OutletId, OutletId>,
    k: int,
) -> Map<OutletId, OutletId>
    decreases k,
{
    if k <= 0 {
        mapping
    } else {
        entered(node, outlets, mapping, k - 1).insert(
            OutletId { node, slot: (k - 1) as usize },
            outlets[k - 1],
        )
    }
}

/// The target once the first `k` of the outlets `outlets` that stand for
/// the outlets of the node `node` of `source` have the labels of those.
pub open spec fn labelled<F1, O1, F2, O2>(
    source: Graph<F1, O1>,
    node: usize,
    outlets: Seq<OutletId>,
    target: Graph<F2, O2>,
    k: int,
) -> Graph<F2, O2>
    decreases k,
{
    if k <= 0 {
        target
    } else {
        let before = labelled(source, node, outlets, target, k - 1);
        match source.label(OutletId { node, slot: (k - 1) as usize }) {
            Some(l) => before.with_label(outlets[k - 1], l),
            None => before,
        }
    }
}

/// Records a translated node: enters in `mapping` the outlets `outlets` of
/// `target` for the outlets of the node `node` of `source`, one for one,
/// and gives each the label of the outlet it stands for, where that has
/// one.
pub fn record<F1: Fact, O1: Operator, F2: Fact, O2: Operator>(
    source: &Model<F1, O1>,
    node: usize,
    outlets: &Vec<OutletId>,
    target: &mut Model<F2, O2>,
    mapping: &mut OutletMap,
)
    requires
        old(target).wf(),
        old(mapping).wf(),
        forall|k: int| 0 <= k < outlets.len() ==> old(target)@.has_outlet(#[trigger] outlets[k]),
        forall|o: OutletId|
            old(mapping)@.contains_key(o) ==> old(target)@.has_outlet(#[trigger] old(mapping)@[o]),
    ensures
        final(target).wf(),
        final(mapping).wf(),
        final(target)@ == labelled(source@, node, outlets@, old(target)@, outlets.len() as int),
        final(mapping)@ == entered(node, outlets@, old(mapping)@, outlets.len() as int),
        final(target)@.nodes == old(target)@.nodes,
        final(target)@.inputs == old(target)@.inputs,
        final(target)@.outputs == old(target)@.outputs,
        forall|o: OutletId|
            final(mapping)@.contains_key(o) ==> final(target)@.has_outlet(
                #[trigger] final(mapping)@[o],
            ),
        forall|o: OutletId| old(mapping)@.contains_key(o) ==> final(mapping)@.contains_key(o),
        forall|k: int|
            0 <= k < outlets.len() ==> final(mapping)@.contains_key(#[trigger] mapped_key(node, k)),
{
    let ghost g0 = target@;
    let ghost m0 = mapping@;
    let mut ix: usize = 0;
    while ix < outlets.len()
        invariant
            0 <= ix <= outlets.len(),
            target.wf(),
            mapping.wf(),
            target@ == labelled(source@, node, outlets@, g0, ix as int),
            mapping@ == entered(node, outlets@, m0, ix as int),
            target@.nodes == g0.nodes,
            target@.inputs == g0.inputs,
            target@.outputs == g0.outputs,
            forall|k: int| 0 <= k < outlets.len() ==> g0.has_outlet(#[trigger] outlets[k]),
            forall|o: OutletId|
                mapping@.contains_key(o) ==> target@.has_outlet(#[trigger] mapping@[o]),
            forall|o: OutletId| m0.contains_key(o) ==> mapping@.contains_key(o),
            forall|k: int| 0 <= k < ix ==> mapping@.contains_key(#[trigger] mapped_key(node, k)),
        decreases outlets.len() - ix,
    {
        let from = OutletId { node, slot: ix };
        let to = outlets[ix];
        assert(g0.has_outlet(outlets[ix as int]));
        assert(target@.has_outlet(to));
        mapping.insert(from, to);
        let label = match source.outlet_label(from) {
            Some(l) => Some(l.clone()),
            None => None,
        };
        match label {
            Some(l) => {
                target.set_outlet_label(to, l);
            },
            None => {},
        }
        assert(mapped_key(node, ix as int) == from);
        ix += 1;
    }
}

/// What a translator does with one node: whether it takes it, and what it
/// makes of the target.
pub trait Steps<F1, O1, F2, O2>: Sized {
    /// Whether the translator takes the node `node` of `source` into
    /// `target`, `mapping` telling the outlets of the target that stand
    /// for those that the node reads.
    spec fn takes(
        &self,
        source: Graph<F1, O1>,
        node: int,
        target: Graph<F2, O2>,
        mapping: Map<OutletId, OutletId>,
    ) -> bool;

    /// Whether `after` is what the translator makes of the target `before`
    /// in taking the node `node` of `source`, and `outlets` the outlets
    /// that stand for those of the node.
    spec fn puts(
        &self,
        source: Graph<F1, O1>,
        node: int,
        before: Graph<F2, O2>,
        after: Graph<F2, O2>,
        mapping: Map<OutletId, OutletId>,
        outlets: Seq<OutletId>,
    ) -> bool;
}

/// Whether `after` and `later` are the target and the mapping once the
/// translator `t` has taken the node `node` of `source` into the target
/// `before`, under the mapping `earlier`: it takes the node and makes
/// `mid` of the target, which has grown, with `outlets` for the outlets
/// of the node; these are then recorded.
pub open spec fn stepped<F1, O1, F2, O2, T: Steps<F1, O1, F2, O2>>(
    t: T,
    source: Graph<F1, O1>,
    node: usize,
    before: Graph<F2, O2>,
    earlier: Map<OutletId, OutletId>,
    mid: Graph<F2, O2>,
    outlets: Seq<OutletId>,
    after: Graph<F2, O2>,
    later: Map<OutletId, OutletId>,
) -> bool {
    &&& all_mapped(earlier, source.nodes[node as int].inputs, before)
    &&& t.takes(source, node as int, before, earlier)
    &&& t.puts(source, node as int, before, mid, earlier, outlets)
    &&& mid.extends(before)
    &&& outlets.len() == source.nodes[node as int].facts.len()
    &&& forall|k: int| 0 <= k < outlets.len() ==> mid.has_outlet(#[trigger] outlets[k])
    &&& after == labelled(source, node, outlets, mid, outlets.len() as int)
    &&& later == entered(node, outlets, earlier, outlets.len() as int)
}

/// Whether the step `q` of a run is a step: the node at the place `q`
/// of `order` is taken into the target `graphs[q]` under the mapping
/// `maps[q]`, which makes `mids[q]` of the target, with the outlets
/// `outs[q]`, and these recorded give the next target and mapping.
pub open spec fn step_at<F1, O1, F2, O2, T: Steps<F1, O1, F2, O2>>(
    t: T,
    source: Graph<F1, O1>,
    order: Seq<usize>,
    graphs: Seq<Graph<F2, O2>>,
    maps: Seq<Map<OutletId, OutletId>>,
    mids: Seq<Graph<F2, O2>>,
    outs: Seq<Seq<OutletId>>,
    q: int,
) -> bool {
    stepped(t, source,
        order[q],
        graphs[q],
        maps[q],
        mids[q],
        outs[q],
        graphs[q + 1],
        maps[q + 1],
    )
}

/// Whether `graphs` and `maps` are the targets and the mappings of a
/// run of the translator over the first `p` nodes of `order`, from
/// the empty model on, each step as `step_at` has it.
pub open spec fn chained<F1, O1, F2, O2, T: Steps<F1, O1, F2, O2>>(
    t: T,
    source: Graph<F1, O1>,
    order: Seq<usize>,
    p: int,
    graphs: Seq<Graph<F2, O2>>,
    maps: Seq<Map<OutletId, OutletId>>,
    mids: Seq<Graph<F2, O2>>,
    outs: Seq<Seq<OutletId>>,
) -> bool {
    &&& 0 <= p <= order.len()
    &&& graphs.len() == p + 1
    &&& maps.len() == p + 1
    &&& mids.len() == p
    &&& outs.len() == p
    &&& graphs[0] == Graph::<F2, O2>::empty()
    &&& maps[0] == Map::<OutletId, OutletId>::empty()
    &&& forall|q: int|
        0 <= q < p ==> #[trigger] step_at(t, source, order, graphs, maps, mids, outs, q)
}

/// Whether `target` and `mapping` are what the translator has made
/// once the first `p` nodes of `order` are translated, one after the
/// other, from the empty model on.
pub open spec fn translated<F1, O1, F2, O2, T: Steps<F1, O1, F2, O2>>(
    t: T,
    source: Graph<F1, O1>,
    order: Seq<usize>,
    p: int,
    target: Graph<F2, O2>,
    mapping: Map<OutletId, OutletId>,
) -> bool {
    exists|
        graphs: Seq<Graph<F2, O2>>,
        maps: Seq<Map<OutletId, OutletId>>,
        mids: Seq<Graph<F2, O2>>,
        outs: Seq<Seq<OutletId>>,
    |
        #[trigger] chained(t, source, order, p, graphs, maps, mids, outs) && graphs[p]
            == target && maps[p] == mapping
}

/// Whether `target` and `mapping` are the translation of `source` that the
/// translator `t` makes by way of the evaluation order `order`: `made` and
/// `by` are what it makes of the nodes of the order, and where `by` gives
/// every input of `source` an outlet, the translation is `made` with the
/// inputs and outputs that `by` gives those of `source`.
pub open spec fn made<F1, O1, F2, O2, T: Steps<F1, O1, F2, O2>>(
    t: T,
    source: Graph<F1, O1>,
    order: Seq<usize>,
    made: Graph<F2, O2>,
    by: Map<OutletId, OutletId>,
    target: Graph<F2, O2>,
    mapping: Map<OutletId, OutletId>,
) -> bool {
    &&& source.is_eval_order(order)
    &&& forall|n: usize| order.contains(n) <==> source.needed(n as int)
    &&& translated(t, source, order, order.len() as int, made, by)
    &&& (forall|j: int| 0 <= j < source.inputs.len() ==> by.contains_key(#[trigger] source.inputs[j]))
        ==> mapping == by && target == (Graph {
        inputs: images(by, source.inputs),
        outputs: images(by, source.outputs),
        ..made
    })
}

/// Whether `target` and `mapping` are a translation of `source` by the
/// translator `t`: the nodes that the outputs depend on are translated one
/// after the other, in an evaluation order.
#[verifier::opaque]
pub open spec fn translation<F1, O1, F2, O2, T: Steps<F1, O1, F2, O2>>(
    t: T,
    source: Graph<F1, O1>,
    target: Graph<F2, O2>,
    mapping: Map<OutletId, OutletId>,
) -> bool {
    exists|order: Seq<usize>, g: Graph<F2, O2>, by: Map<OutletId, OutletId>| #[trigger] made(t, source, order, g, by, target, mapping)
}

/// Whether the translator `t` cannot go on once the first `p` nodes of the
/// evaluation order `order` of `source` are translated into `g` under the
/// mapping `m`: the next node reads an outlet for which nothing stands, or
/// the translator does not take it; or, all nodes of the order being
/// translated, an input of `source` is left that nothing depends on.
pub open spec fn stops<F1, O1, F2, O2, T: Steps<F1, O1, F2, O2>>(
    t: T,
    source: Graph<F1, O1>,
    order: Seq<usize>,
    p: int,
    g: Graph<F2, O2>,
    m: Map<OutletId, OutletId>,
) -> bool {
    &&& source.is_eval_order(order)
    &&& forall|n: usize| order.contains(n) <==> source.needed(n as int)
    &&& 0 <= p <= order.len()
    &&& translated(t, source, order, p, g, m)
    &&& if p < order.len() {
        !all_mapped(m, source.nodes[order[p] as int].inputs, g) || !t.takes(
            source,
            order[p] as int,
            g,
            m,
        )
    } else {
        exists|j: int| 0 <= j < source.inputs.len() && !m.contains_key(#[trigger] source.inputs[j])
    }
}

/// Whether the translation of `source` by the translator `t` halts at a
/// node.
#[verifier::opaque]
pub open spec fn halted<F1, O1, F2, O2, T: Steps<F1, O1, F2, O2>>(
    t: T,
    source: Graph<F1, O1>,
) -> bool {
    exists|order: Seq<usize>, p: int, g: Graph<F2, O2>, m: Map<OutletId, OutletId>| #[trigger] stops(t, source, order, p, g, m)
}

/// Whether the translator `t` takes every node of `source` that is handed
/// to it, a node that the outputs depend on or a node of the inputs,
/// whatever the target holds.
pub open spec fn always_taken<F1, O1, F2, O2, T: Steps<F1, O1, F2, O2>>(
    t: T,
    source: Graph<F1, O1>,
) -> bool {
    forall|n: int, g: Graph<F2, O2>, m: Map<OutletId, OutletId>|
        source.needed(n) || source.is_input_node(n) ==> #[trigger] t.takes(source, n, g, m)
}

/// Whether the nodes of the inputs of `source` read nothing.
pub open spec fn plain_inputs<F, O>(source: Graph<F, O>) -> bool {
    forall|n: int| #[trigger] source.is_input_node(n) ==> source.nodes[n].inputs.len() == 0
}

/// What is made by way of an evaluation order is a translation.
pub proof fn lemma_translation<F1, O1, F2, O2, T: Steps<F1, O1, F2, O2>>(
    t: T,
    source: Graph<F1, O1>,
    order: Seq<usize>,
    g: Graph<F2, O2>,
    by: Map<OutletId, OutletId>,
    target: Graph<F2, O2>,
    mapping: Map<OutletId, OutletId>,
)
    requires
        made(t, source, order, g, by, target, mapping),
    ensures
        translation(t, source, target, mapping),
{
    reveal(translation);
}

/// A translation that stops has halted.
pub proof fn lemma_halted<F1, O1, F2, O2, T: Steps<F1, O1, F2, O2>>(
    t: T,
    source: Graph<F1, O1>,
    order: Seq<usize>,
    p: int,
    g: Graph<F2, O2>,
    m: Map<OutletId, OutletId>,
)
    requires
        stops(t, source, order, p, g, m),
    ensures
        halted(t, source),
{
    reveal(halted);
}

/// A way to translate a model: how one node of the source goes into the
/// target, once the nodes it reads have.
pub trait Translate<F1: Fact, O1: Operator, F2: Fact, O2: Operator>: Steps<F1, O1, F2, O2> {
    /// Puts into `target` what stands for the node `node` of `source`, and
    /// gives the outlets that stand for its outlets. `mapping` tells the
    /// outlets of the target that stand for those that the node reads.
    /// The target grows: it keeps the nodes and the labels it has.
    fn translate_node(
        &self,
        source: &Model<F1, O1>,
        node: usize,
        target: &mut Model<F2, O2>,
        mapping: &OutletMap,
    ) -> (r: Result<Vec<OutletId>, ModelError>)
        requires
            source.wf(),
            node < source.nodes.len(),
            old(target).wf(),
            mapping.wf(),
            all_mapped(mapping@, source@.nodes[node as int].inputs, old(target)@),
        ensures
            final(target).wf(),
            forall|o: OutletId| old(target)@.has_outlet(o) ==> final(target)@.has_outlet(o),
            r is Ok <==> self.takes(source@, node as int, old(target)@, mapping@),
            r is Ok ==> r.unwrap().len() == source@.nodes[node as int].facts.len() && forall|k: int|
                0 <= k < r.unwrap().len() ==> final(target)@.has_outlet(#[trigger] r.unwrap()[k]),
            r is Ok ==> final(target)@.extends(old(target)@) && self.puts(
                source@,
                node as int,
                old(target)@,
                final(target)@,
                mapping@,
                r.unwrap()@,
            ),
    ;

    /// The translation of `source`: a model that stands for it by some
    /// mapping of the outlets, made node by node. There is none of a
    /// model in which nodes that the outputs depend on depend on each
    /// other in a circle; else the translation fails only where it halts
    /// at a node; a model without inputs and outputs has one.
    fn translate_model(&self, source: &Model<F1, O1>) -> (r: Result<Model<F2, O2>, ModelError>)
        requires
            source.wf(),
        ensures
            match r {
                Ok(target) => target.wf() && exists|mapping: Map<OutletId, OutletId>| #[trigger]
                    stands_for(source@, target@, mapping) && maps_needed(
                        source@,
                        target@,
                        mapping,
                    ) && translation(*self, source@, target@, mapping),
                Err(e) => (e is Cycle <==> source@.has_cycle()) && (!(e is Cycle) ==> halted(*self, source@,
                )),
            },
            r is Ok ==> !source@.has_cycle(),
            source@.inputs.len() == 0 && source@.outputs.len() == 0 ==> r is Ok,
            !source@.has_cycle() && always_taken(*self, source@) && plain_inputs(source@) ==> r is Ok,
    {
        match self.translate_model_with_mappings(source) {
            Ok((model, mapping)) => {
                proof {
                    let by = mapping@;
                    let g = model@;
                    assert(stands_for(source@, g, by) && maps_needed(source@, g, by) && translation(*self, source@,
                        g,
                        by,
                    ));
                }
                Ok(model)
            },
            Err(e) => Err(e),
        }
    }

    /// The translation of `source`, with the outlets of it that stand for
    /// the outlets of `source`. The nodes that the outputs depend on are
    /// translated in evaluation order, each recorded as `record` has it,
    /// and so are the nodes of inputs that nothing depends on. The inputs
    /// and outputs of the translation are those that stand for the inputs
    /// and outputs of `source`, in order. There is none of a model in
    /// which nodes that the outputs depend on depend on each other in a
    /// circle; else the translation fails only where it halts at a node; a
    /// model without inputs and outputs has one.
    fn translate_model_with_mappings(&self, source: &Model<F1, O1>) -> (r: Result<
        (Model<F2, O2>, OutletMap),
        ModelError,
    >)
        requires
            source.wf(),
        ensures
            match r {
                Ok((target, mapping)) => {
                    &&& target.wf()
                    &&& mapping.wf()
                    &&& stands_for(source@, target@, mapping@)
                    &&& maps_needed(source@, target@, mapping@)
                    &&& translation(*self, source@, target@, mapping@)
                },
                Err(e) => (e is Cycle <==> source@.has_cycle()) && (!(e is Cycle) ==> halted(*self, source@,
                )),
            },
            r is Ok ==> !source@.has_cycle(),
            source@.inputs.len() == 0 && source@.outputs.len() == 0 ==> r is Ok,
            !source@.has_cycle() && always_taken(*self, source@) && plain_inputs(source@) ==> r is Ok,
            r is Ok && (forall|i: int|
                0 <= i < source@.inputs.len() ==> source@.needed(
                    (#[trigger] source@.inputs[i]).node as int,
                )) ==> crate::translate_laws::labels_kept(
                source@,
                r.unwrap().0@,
                r.unwrap().1@,
            ),
    {
        let mut target: Model<F2, O2> = Model::new();
        let mut mapping = OutletMap::new();
        let order = match source.eval_order() {
            Ok(o) => o,
            Err(e) => {
                return Err(e);
            },
        };
        proof {
            if source@.outputs.len() == 0 {
                assert forall|n: usize| !source@.needed(n as int) by {
                    if source@.needed(n as int) {
                        let chain = choose|chain: Seq<usize>| #[trigger]
                            source@.leads_to(chain, n as int);
                    }
                }
                assert(order.len() == 0) by {
                    if order.len() > 0 {
                        assert(order@.contains(order@[0]));
                    }
                }
            }
        }
        let ghost mut graphs: Seq<Graph<F2, O2>> = seq![target@];
        let ghost mut maps: Seq<Map<OutletId, OutletId>> = seq![mapping@];
        let ghost mut mids: Seq<Graph<F2, O2>> = Seq::empty();
        let ghost mut outs: Seq<Seq<OutletId>> = Seq::empty();
        let mut p: usize = 0;
        while p < order.len()
            invariant
                0 <= p <= order.len(),
                source.wf(),
                target.wf(),
                mapping.wf(),
                !source@.has_cycle(),
                source@.outputs.len() == 0 ==> order.len() == 0,
                forall|n: usize| order@.contains(n) <==> source@.needed(n as int),
                source@.is_eval_order(order@),
                chained(*self, source@, order@, p as int, graphs, maps, mids, outs),
                graphs[p as int] == target@,
                maps[p as int] == mapping@,
                forall|o: OutletId|
                    mapping@.contains_key(o) ==> target@.has_outlet(#[trigger] mapping@[o]),
                forall|q: int, k: int|
                    0 <= q < p && 0 <= k < source@.nodes[order[q] as int].facts.len()
                        ==> mapping@.contains_key(
                        #[trigger] mapped_key(order[q], k),
                    ),
            decreases order.len() - p,
        {
            let old_id = order[p];
            let ghost before = target@;
            let ghost earlier = mapping@;
            assert(order@.contains(order@[p as int]));
            assert(source@.needed(old_id as int));
            let inputs = match map_all(&mapping, &source.nodes[old_id].inputs) {
                Ok(v) => v,
                Err(o) => {
                    proof {
                        let ins = source@.nodes[old_id as int].inputs;
                        let k = choose|k: int| 0 <= k < ins.len() && ins[k] == o;
                        assert(!earlier.contains_key(ins[k]));
                        if plain_inputs(source@) {
                            assert(!source@.is_input_node(old_id as int));
                            assert(crate::model::order::reads_earlier(source@, order@, p as int, k));
                            let q = choose|q: int| 0 <= q < p && order@[q] == o.node;
                            assert(source@.nodes[old_id as int].inputs.len()
                                == source.nodes[old_id as int].inputs.len());
                            crate::model::order::lemma_inputs_outlets(source@, old_id);
                            assert(source@.has_outlet(ins[k]));
                            assert(mapped_key(order[q], o.slot as int) == o);
                            assert(false);
                        }
                        assert(stops(*self, source@, order@, p as int, before, earlier));
                    lemma_halted(*self, source@, order@, p as int, before, earlier);
                    }
                    return Err(ModelError::Unmapped(o));
                },
            };
            let outlets = match self.translate_node(source, old_id, &mut target, &mapping) {
                Ok(v) => v,
                Err(e) => {
                    proof {
                        assert(stops(*self, source@, order@, p as int, before, earlier));
                    lemma_halted(*self, source@, order@, p as int, before, earlier);
                    }
                    return Err(not_cycle(e));
                },
            };
            let ghost mid = target@;
            record(source, old_id, &outlets, &mut target, &mut mapping);
            proof {
                assert(stepped(*self, source@, old_id, before, earlier, mid, outlets@, target@, mapping@));
                let g2 = graphs.push(target@);
                let m2 = maps.push(mapping@);
                let d2 = mids.push(mid);
                let o2 = outs.push(outlets@);
                assert forall|q: int| 0 <= q < p + 1 implies #[trigger] step_at(*self, source@,
                    order@,
                    g2,
                    m2,
                    d2,
                    o2,
                    q,
                ) by {
                    if q < p {
                        assert(step_at(*self, source@, order@, graphs, maps, mids, outs, q));
                    }
                }
                graphs = g2;
                maps = m2;
                mids = d2;
                outs = o2;
            }
            p += 1;
        }
        let ghost made_graph = target@;
        let ghost made_map = mapping@;
        let mut i: usize = 0;
        while i < source.inputs.len()
            invariant
                0 <= i <= source.inputs.len(),
                source.wf(),
                target.wf(),
                mapping.wf(),
                !source@.has_cycle(),
                forall|n: usize| order@.contains(n) <==> source@.needed(n as int),
                source@.is_eval_order(order@),
                translated(*self, source@, order@, order.len() as int, made_graph, made_map),
                forall|o: OutletId| made_map.contains_key(o) ==> mapping@.contains_key(o),
                (forall|j: int|
                    0 <= j < source@.inputs.len() ==> made_map.contains_key(
                        #[trigger] source@.inputs[j],
                    )) ==> target@ == made_graph && mapping@ == made_map,
                forall|o: OutletId|
                    mapping@.contains_key(o) ==> target@.has_outlet(#[trigger] mapping@[o]),
                forall|q: int, k: int|
                    0 <= q < order.len() && 0 <= k < source@.nodes[order[q] as int].facts.len()
                        ==> mapping@.contains_key(
                        #[trigger] mapped_key(order[q], k),
                    ),
                forall|k: int| 0 <= k < i ==> mapping@.contains_key(#[trigger] source@.inputs[k]),
            decreases source.inputs.len() - i,
        {
            let input = source.inputs[i];
            if !mapping.contains_key(input) {
                proof {
                    assert(!made_map.contains_key(source@.inputs[i as int]));
                    assert(stops(*self, source@, order@, order.len() as int, made_graph, made_map));
                lemma_halted(*self, source@, order@, order.len() as int, made_graph, made_map);
                }
                assert(source@.has_outlet(source@.inputs[i as int]));
                assert(source@.is_input_node(input.node as int));
                let inputs = match map_all(&mapping, &source.nodes[input.node].inputs) {
                    Ok(v) => v,
                    Err(o) => {
                        return Err(ModelError::Unmapped(o));
                    },
                };
                let outlets = match self.translate_node(source, input.node, &mut target, &mapping) {
                    Ok(v) => v,
                    Err(e) => {
                        return Err(not_cycle(e));
                    },
                };
                if outlets.len() == 0 {
                    assert(false);
                    return Err(ModelError::Unmapped(input));
                }
                mapping.insert(input, outlets[0]);
            }
            i += 1;
        }
        let inputs = match map_all(&mapping, &source.inputs) {
            Ok(v) => v,
            Err(o) => {
                proof {
                    let k = choose|k: int| 0 <= k < source@.inputs.len() && source@.inputs[k] == o;
                    assert(mapping@.contains_key(source@.inputs[k]));
                }
                return Err(ModelError::Unmapped(o));
            },
        };
        proof {
            assert forall|k: int| 0 <= k < source@.outputs.len() implies mapping@.contains_key(
                #[trigger] source@.outputs[k],
            ) by {
                let o = source@.outputs[k];
                assert(source@.has_outlet(o));
                assert(order@.contains(o.node));
                let q = choose|q: int| 0 <= q < order.len() && order[q] == o.node;
                assert(mapped_key(order[q], o.slot as int) == o);
            }
        }
        let outputs = match map_all(&mapping, &source.outputs) {
            Ok(v) => v,
            Err(o) => {
                proof {
                    let k = choose|k: int| 0 <= k < source@.outputs.len() && source@.outputs[k]
                        == o;
                    assert(mapping@.contains_key(source@.outputs[k]));
                }
                return Err(ModelError::Unmapped(o));
            },
        };
        proof {
            assert(first_missing(target@, inputs@, 0).is_none()) by {
                lemma_all_present(target@, inputs@, 0);
            }
        }
        let ghost nearly = target@;
        let r1 = target.set_input_outlets(&inputs);
        proof {
            assert(first_missing(target@, outputs@, 0).is_none()) by {
                lemma_all_present(target@, outputs@, 0);
            }
        }
        let r2 = target.set_output_outlets(&outputs);
        proof {
            assert forall|o: OutletId|
                source@.needed(o.node as int) && #[trigger] source@.has_outlet(
                    o,
                ) implies mapping@.contains_key(o) && target@.has_outlet(mapping@[o]) by {
                assert(order@.contains(o.node));
                let q = choose|q: int| 0 <= q < order.len() && order[q] == o.node;
                assert(mapped_key(order[q], o.slot as int) == o);
            }
            assert(made(*self, source@, order@, made_graph, made_map, target@, mapping@)) by {
                if forall|j: int|
                    0 <= j < source@.inputs.len() ==> made_map.contains_key(
                        #[trigger] source@.inputs[j],
                    ) {
                    assert(nearly == made_graph);
                    assert(target@ =~~= (Graph {
                        inputs: images(made_map, source@.inputs),
                        outputs: images(made_map, source@.outputs),
                        ..made_graph
                    }));
                }
            }
            lemma_translation(*self, source@, order@, made_graph, made_map, target@, mapping@);
            if forall|i: int|
                0 <= i < source@.inputs.len() ==> source@.needed(
                    (#[trigger] source@.inputs[i]).node as int,
                ) {
                assert(source@.sized()) by {
                    assert forall|n: int| 0 <= n < source@.nodes.len() implies (
                    #[trigger] source@.nodes[n]).facts.len() <= usize::MAX by {
                        assert(source@.nodes[n].facts.len() == source.nodes[n].outputs.len());
                    }
                }
                crate::translate_laws::lemma_labels_kept(*self, source@, target@, mapping@);
            }
        }
        Ok((target, mapping))
    }
}

/// The outlet of slot `k` of the node `node`.
pub open spec fn mapped_key(node: usize, k: int) -> OutletId {
    OutletId { node, slot: k as usize }
}

/// The error `e` of a translator, which cannot tell of a cycle: a cycle is
/// found before any node is translated.
pub fn not_cycle(e: ModelError) -> (r: ModelError)
    ensures
        !(r is Cycle),
        !(e is Cycle) ==> r == e,
{
    match e {
        ModelError::Cycle => ModelError::Refused(0),
        other => other,
    }
}

/// Where each of `outlets` from `i` on is an outlet of `g`, none is
/// missing.
pub proof fn lemma_all_present<F, O>(g: Graph<F, O>, outlets: Seq<OutletId>, i: int)
    requires
        0 <= i,
        forall|k: int| i <= k < outlets.len() ==> g.has_outlet(#[trigger] outlets[k]),
    ensures
        first_missing(g, outlets, i).is_none(),
    decreases outlets.len() - i,
{
    if i < outlets.len() {
        lemma_all_present(g, outlets, i + 1);
    }
}

/// A way to take a value of another type over, where it can be.
pub trait ConvertFrom<T>: Sized {
    /// Whether `t` can be taken over.
    spec fn accepts(t: &T) -> bool;

    /// Whether `r` is `t` taken over.
    spec fn taken(t: &T, r: &Self) -> bool;

    /// `t` taken over, where it can be.
    fn convert(t: &T) -> (r: Option<Self>)
        ensures
            r.is_some() == Self::accepts(t),
            r.is_some() ==> Self::taken(t, &r.unwrap()),
    ;
}

/// The translator that takes each node over as it is, its operator and its
/// facts converted.
#[derive(Debug, Clone, Copy, PartialEq, Eq, Structural)]
pub struct IntoTranslator;

/// The first of `facts`, from `i` on, that cannot be taken over.
pub open spec fn first_refused<F1, F2: ConvertFrom<F1>>(facts: Seq<F1>, i: int) -> int
    decreases facts.len() - i,
{
    if i < 0 || i >= facts.len() {
        facts.len() as int
    } else if !F2::accepts(&facts[i]) {
        i
    } else {
        first_refused::<F1, F2>(facts, i + 1)
    }
}

impl<F1: Fact, O1: Operator, F2: Fact + ConvertFrom<F1>, O2: Operator + ConvertFrom<O1>> Steps<
    F1,
    O1,
    F2,
    O2,
> for IntoTranslator {
    /// The translator takes a node whose operator and facts can be taken
    /// over.
    open spec fn takes(
        &self,
        source: Graph<F1, O1>,
        node: int,
        target: Graph<F2, O2>,
        mapping: Map<OutletId, OutletId>,
    ) -> bool {
        let n = source.nodes[node];
        O2::accepts(&n.op) && first_refused::<F1, F2>(n.facts, 0) == n.facts.len()
    }

    /// The target has one node more: it has the name of the node, its
    /// operator and its facts taken over, and reads what stands for what
    /// the node reads. Its outlets stand for those of the node. The inputs
    /// and outputs of the target stay.
    open spec fn puts(
        &self,
        source: Graph<F1, O1>,
        node: int,
        before: Graph<F2, O2>,
        after: Graph<F2, O2>,
        mapping: Map<OutletId, OutletId>,
        outlets: Seq<OutletId>,
    ) -> bool {
        let n = source.nodes[node];
        &&& after.nodes.len() == before.nodes.len() + 1
        &&& after.inputs == before.inputs
        &&& after.outputs == before.outputs
        &&& outlets == crate::model::access::outlets_of(
            before.nodes.len() as usize,
            n.facts.len() as int,
        )
        &&& O2::taken(&n.op, &after.nodes.last().op)
        &&& after.nodes.last().name == n.name
        &&& after.nodes.last().inputs == images(mapping, n.inputs)
        &&& after.nodes.last().facts.len() == n.facts.len()
        &&& forall|k: int|
            0 <= k < n.facts.len() ==> F2::taken(&n.facts[k], &#[trigger] after.nodes.last().facts[k])
    }

}

impl<F1: Fact, O1: Operator, F2: Fact + ConvertFrom<F1>, O2: Operator + ConvertFrom<O1>> Translate<
    F1,
    O1,
    F2,
    O2,
> for IntoTranslator {
    /// Appends to `target` a node with the name of the node `node`, its
    /// operator and its facts converted, that reads what stands for what
    /// the node reads. It fails where the operator or a fact cannot be
    /// taken over.
    fn translate_node(
        &self,
        source: &Model<F1, O1>,
        node: usize,
        target: &mut Model<F2, O2>,
        mapping: &OutletMap,
    ) -> (r: Result<Vec<OutletId>, ModelError>)
        ensures
            r matches Err(e) ==> {
                let n = source@.nodes[node as int];
                &&& final(target)@ == old(target)@
                &&& if !O2::accepts(&n.op) {
                    e == ModelError::Refused(node)
                } else {
                    first_refused::<F1, F2>(n.facts, 0) < n.facts.len() && e
                        == ModelError::Incomplete(
                        OutletId { node, slot: first_refused::<F1, F2>(n.facts, 0) as usize },
                    )
                }
            },
    {
        let old_node = source.node(node);
        let ghost n = source@.nodes[node as int];
        let op = match O2::convert(&old_node.op) {
            Some(op) => op,
            None => {
                return Err(ModelError::Refused(node));
            },
        };
        let mut facts: Vec<F2> = Vec::new();
        let mut k: usize = 0;
        while k < old_node.outputs.len()
            invariant
                0 <= k <= old_node.outputs.len(),
                n == old_node.shape(),
                node < source.nodes.len(),
                n == source@.nodes[node as int],
                O2::accepts(&n.op),
                target.wf(),
                target@ == old(target)@,
                facts.len() == k,
                first_refused::<F1, F2>(n.facts, 0) == first_refused::<F1, F2>(n.facts, k as int),
                forall|j: int| 0 <= j < k ==> F2::taken(&n.facts[j], &#[trigger] facts[j]),
            decreases old_node.outputs.len() - k,
        {
            match F2::convert(&old_node.outputs[k].fact) {
                Some(f) => {
                    facts.push(f);
                },
                None => {
                    return Err(ModelError::Incomplete(OutletId { node, slot: k }));
                },
            }
            k += 1;
        }
        let inputs = match map_all(mapping, &old_node.inputs) {
            Ok(v) => v,
            Err(o) => {
                assert(false);
                return Err(ModelError::Unmapped(o));
            },
        };
        proof {
            assert(first_missing(target@, inputs@, 0).is_none()) by {
                lemma_all_present(target@, inputs@, 0);
            }
        }
        let ghost converted = facts@;
        let ghost the_op = op;
        match target.wire(old_node.name.clone(), op, facts, &inputs) {
            Ok(outlets) => {
                proof {
                    let g1 = old(target)@.add_node(n.name, the_op, converted);
                    assert(g1.nodes.len() == target.nodes.len());
                    crate::model::graph::lemma_add_node_wf(old(target)@, n.name, the_op, converted);
                    assert forall|j: int| 0 <= j < inputs.len() implies g1.has_outlet(
                        #[trigger] inputs@[j],
                    ) by {
                        assert(old(target)@.has_outlet(inputs@[j]));
                    }
                    crate::model::access::lemma_connect(g1, inputs@, inputs.len() as int);
                    crate::model::access::lemma_connected_inputs(
                        g1,
                        inputs@,
                        inputs.len() as int,
                    );
                    assert forall|o: OutletId| old(target)@.has_outlet(o) implies target@.has_outlet(
                        o,
                    ) by {
                        assert(g1.has_outlet(o));
                    }
                    assert forall|j: int| 0 <= j < outlets.len() implies target@.has_outlet(
                        #[trigger] outlets[j],
                    ) by {
                        assert(g1.has_outlet(outlets[j]));
                    }
                }
                Ok(outlets)
            },
            Err(e) => {
                assert(false);
                Err(e)
            },
        }
    }
}

} // verus!
