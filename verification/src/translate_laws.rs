//! What a translation keeps: a labelled outlet keeps its label where it
//! goes.

use vstd::prelude::*;
use crate::model::graph::{Graph, OutletId, label_at, label_from};
use crate::facts::TypedFact;
use crate::model::fact::Fact;
use crate::model::graph::Operator;
use crate::model::order::comes_before;
use crate::ops::op::Op;
use crate::translator::{
    IntoTranslator, Steps, chained, entered, images, labelled, made, mapped_key, step_at,
    translation,
};

verus! {

/// The first entry for `to` from `i` on lies behind entries for other
/// outlets.
pub proof fn lemma_label_at(labels: Seq<(OutletId, Seq<char>)>, to: OutletId, i: int)
    requires
        0 <= i <= labels.len(),
    ensures
        i <= label_at(labels, to, i) <= labels.len(),
        forall|k: int| i <= k < label_at(labels, to, i) ==> (#[trigger] labels[k]).0 != to,
        label_at(labels, to, i) < labels.len() ==> labels[label_at(labels, to, i)].0 == to,
    decreases labels.len() - i,
{
    if i < labels.len() && labels[i].0 != to {
        lemma_label_at(labels, to, i + 1);
    }
}

/// Entries for `to` that are changed or added leave the label of another
/// outlet as it was.
pub proof fn lemma_label_other(
    labels: Seq<(OutletId, Seq<char>)>,
    new: Seq<(OutletId, Seq<char>)>,
    to: OutletId,
    x: OutletId,
    i: int,
)
    requires
        0 <= i,
        x != to,
        labels.len() <= new.len(),
        forall|k: int|
            0 <= k < labels.len() ==> #[trigger] new[k] == labels[k] || (new[k].0 == to
                && labels[k].0 == to),
        forall|k: int| labels.len() <= k < new.len() ==> (#[trigger] new[k]).0 == to,
    ensures
        label_from(new, x, i) == label_from(labels, x, i),
    decreases new.len() - i,
{
    if i < new.len() {
        lemma_label_other(labels, new, to, x, i + 1);
    }
}

/// The label of an outlet is that of its first entry.
pub proof fn lemma_label_self(
    new: Seq<(OutletId, Seq<char>)>,
    to: OutletId,
    l: Seq<char>,
    j: int,
    i: int,
)
    requires
        0 <= i <= j < new.len(),
        new[j] == (to, l),
        forall|k: int| i <= k < j ==> (#[trigger] new[k]).0 != to,
    ensures
        label_from(new, to, i) == Some(l),
    decreases j - i,
{
    if i < j {
        lemma_label_self(new, to, l, j, i + 1);
    }
}

/// A label given to an outlet is its label, and leaves the labels of the
/// other outlets.
pub proof fn lemma_with_label<F, O>(g: Graph<F, O>, to: OutletId, l: Seq<char>, x: OutletId)
    ensures
        g.with_label(to, l).label(x) == (if x == to {
            Some(l)
        } else {
            g.label(x)
        }),
        g.with_label(to, l).nodes == g.nodes,
{
    let j = label_at(g.labels, to, 0);
    lemma_label_at(g.labels, to, 0);
    let new = g.with_label(to, l).labels;
    if x == to {
        lemma_label_self(new, to, l, j, 0);
    } else {
        lemma_label_other(g.labels, new, to, x, 0);
    }
}

/// The label that the outlet `x` is given in recording the first `k` of the
/// outlets `outlets` that stand for those of the node `node` of `source`:
/// that of the last of them that it stands for and that has one.
pub open spec fn given<F1, O1>(
    source: Graph<F1, O1>,
    node: usize,
    outlets: Seq<OutletId>,
    k: int,
    x: OutletId,
) -> Option<Seq<char>>
    decreases k,
{
    if k <= 0 {
        None
    } else if outlets[k - 1] == x && source.label(OutletId { node, slot: (k - 1) as usize }).is_some() {
        source.label(OutletId { node, slot: (k - 1) as usize })
    } else {
        given(source, node, outlets, k - 1, x)
    }
}

/// The labels once a node is recorded: an outlet has the label that it is
/// given, or else the one it had.
pub proof fn lemma_labelled<F1, O1, F2, O2>(
    source: Graph<F1, O1>,
    node: usize,
    outlets: Seq<OutletId>,
    target: Graph<F2, O2>,
    k: int,
    x: OutletId,
)
    ensures
        labelled(source, node, outlets, target, k).nodes == target.nodes,
        labelled(source, node, outlets, target, k).label(x) == (match given(
            source,
            node,
            outlets,
            k,
            x,
        ) {
            Some(l) => Some(l),
            None => target.label(x),
        }),
    decreases k,
{
    if k > 0 {
        lemma_labelled(source, node, outlets, target, k - 1, x);
        let before = labelled(source, node, outlets, target, k - 1);
        match source.label(OutletId { node, slot: (k - 1) as usize }) {
            Some(l) => {
                lemma_with_label(before, outlets[k - 1], l, x);
            },
            None => {},
        }
    }
}

/// An outlet is given the label of the outlet that it stands for, unless
/// it also stands for a later one.
pub proof fn lemma_given<F1, O1>(
    source: Graph<F1, O1>,
    node: usize,
    outlets: Seq<OutletId>,
    k: int,
    j: int,
)
    requires
        0 <= j < k <= outlets.len(),
        source.label(OutletId { node, slot: j as usize }).is_some(),
    ensures
        given(source, node, outlets, k, outlets[j]) == source.label(
            OutletId { node, slot: j as usize },
        ) || exists|j2: int| j < j2 < k && #[trigger] outlets[j2] == outlets[j],
    decreases k,
{
    if j < k - 1 {
        lemma_given(source, node, outlets, k - 1, j);
        if outlets[k - 1] == outlets[j] {
            assert(outlets[k - 1] == outlets[j]);
        } else if !(given(source, node, outlets, k - 1, outlets[j]) == source.label(
            OutletId { node, slot: j as usize },
        )) {
            let j2 = choose|j2: int| j < j2 < k - 1 && #[trigger] outlets[j2] == outlets[j];
            assert(outlets[j2] == outlets[j]);
        }
    }
}

/// An outlet that is given a label stands for an outlet of the node.
pub proof fn lemma_given_some<F1, O1>(
    source: Graph<F1, O1>,
    node: usize,
    outlets: Seq<OutletId>,
    k: int,
    x: OutletId,
)
    requires
        k <= outlets.len(),
        given(source, node, outlets, k, x).is_some(),
    ensures
        exists|j: int| 0 <= j < k && #[trigger] outlets[j] == x,
    decreases k,
{
    if k > 0 {
        if outlets[k - 1] == x {
            assert(outlets[k - 1] == x);
        } else {
            lemma_given_some(source, node, outlets, k - 1, x);
            let j = choose|j: int| 0 <= j < k - 1 && #[trigger] outlets[j] == x;
            assert(outlets[j] == x);
        }
    }
}

/// The mapping once a node is recorded: an outlet of the node has the
/// outlet that stands for it.
pub proof fn lemma_entered_own(
    node: usize,
    outlets: Seq<OutletId>,
    mapping: Map<OutletId, OutletId>,
    k: int,
    j: int,
)
    requires
        0 <= j < k <= outlets.len(),
        k <= usize::MAX,
    ensures
        entered(node, outlets, mapping, k).contains_key(OutletId { node, slot: j as usize }),
        entered(node, outlets, mapping, k)[OutletId { node, slot: j as usize }] == outlets[j],
    decreases k,
{
    if j < k - 1 {
        lemma_entered_own(node, outlets, mapping, k - 1, j);
        assert((OutletId { node, slot: j as usize }) != (OutletId { node, slot: (k - 1) as usize }));
    }
}

/// The mapping once a node is recorded: the outlets of other nodes have
/// what they had.
pub proof fn lemma_entered_other(
    node: usize,
    outlets: Seq<OutletId>,
    mapping: Map<OutletId, OutletId>,
    k: int,
    o: OutletId,
)
    requires
        o.node != node,
    ensures
        entered(node, outlets, mapping, k).contains_key(o) <==> mapping.contains_key(o),
        mapping.contains_key(o) ==> entered(node, outlets, mapping, k)[o] == mapping[o],
    decreases k,
{
    if k > 0 {
        lemma_entered_other(node, outlets, mapping, k - 1, o);
    }
}

/// Whether the outlet `k` of the node at the place `q` of a run goes where
/// another outlet of the first `j` nodes of the run goes.
pub open spec fn shared(outs: Seq<Seq<OutletId>>, j: int, q: int, k: int) -> bool {
    exists|q2: int, k2: int|
        0 <= q2 < j && 0 <= k2 < outs[q2].len() && (q2 != q || k2 != k) && #[trigger] outs[q2][k2]
            == outs[q][k]
}

/// Whether, once the first `j` nodes of a run are translated, the outlet
/// `k` of the node at the place `q` has in the mapping the outlet that
/// stands for it, and that one has its label, unless another outlet goes
/// there too.
pub open spec fn kept_at<F1, O1, F2, O2>(
    source: Graph<F1, O1>,
    order: Seq<usize>,
    graphs: Seq<Graph<F2, O2>>,
    maps: Seq<Map<OutletId, OutletId>>,
    outs: Seq<Seq<OutletId>>,
    j: int,
    q: int,
    k: int,
) -> bool {
    let o = OutletId { node: order[q], slot: k as usize };
    &&& maps[j].contains_key(o)
    &&& maps[j][o] == outs[q][k]
    &&& source.label(o).is_some() ==> graphs[j].label(outs[q][k]) == source.label(o) || shared(
        outs,
        j,
        q,
        k,
    )
}

/// Whether, once the first `j` nodes of a run are translated, each outlet
/// of them has in the mapping the outlet that stands for it, and that one
/// has its label, unless another outlet goes there too.
pub open spec fn kept_to<F1, O1, F2, O2>(
    source: Graph<F1, O1>,
    order: Seq<usize>,
    graphs: Seq<Graph<F2, O2>>,
    maps: Seq<Map<OutletId, OutletId>>,
    outs: Seq<Seq<OutletId>>,
    j: int,
) -> bool {
    forall|q: int, k: int|
        0 <= q < j && 0 <= k < outs[q].len() ==> #[trigger] kept_at(
            source,
            order,
            graphs,
            maps,
            outs,
            j,
            q,
            k,
        )
}

/// A run keeps the labels: after each step, each outlet translated so far
/// has its image, which has its label unless another outlet goes there
/// too.
pub proof fn lemma_chain_labels<F1, O1, F2, O2, T: Steps<F1, O1, F2, O2>>(
    t: T,
    source: Graph<F1, O1>,
    order: Seq<usize>,
    p: int,
    graphs: Seq<Graph<F2, O2>>,
    maps: Seq<Map<OutletId, OutletId>>,
    mids: Seq<Graph<F2, O2>>,
    outs: Seq<Seq<OutletId>>,
    j: int,
)
    requires
        chained(t, source, order, p, graphs, maps, mids, outs),
        order.no_duplicates(),
        forall|q: int| 0 <= q < p ==> (#[trigger] outs[q]).len() <= usize::MAX,
        0 <= j <= p,
    ensures
        kept_to(source, order, graphs, maps, outs, j),
    decreases j,
{
    if j > 0 {
        lemma_chain_labels(t, source, order, p, graphs, maps, mids, outs, j - 1);
        let last = j - 1;
        assert(step_at(t, source, order, graphs, maps, mids, outs, last));
        let node = order[last];
        let these = outs[last];
        let n = these.len() as int;
        assert forall|q: int, k: int| 0 <= q < j && 0 <= k < outs[q].len() implies #[trigger] kept_at(
            source,
            order,
            graphs,
            maps,
            outs,
            j,
            q,
            k,
        ) by {
            let o = OutletId { node: order[q], slot: k as usize };
            let to = outs[q][k];
            lemma_labelled(source, node, these, mids[last], n, to);
            if q == last {
                lemma_entered_own(node, these, maps[last], n, k);
                if source.label(o).is_some() {
                    lemma_given(source, node, these, n, k);
                    if !(given(source, node, these, n, to) == source.label(o)) {
                        let k2 = choose|k2: int| k < k2 < n && #[trigger] these[k2] == these[k];
                        assert(outs[last][k2] == outs[q][k]);
                    }
                }
            } else {
                assert(order[q] != order[last]);
                assert(kept_at(source, order, graphs, maps, outs, last, q, k));
                lemma_entered_other(node, these, maps[last], n, o);
                assert(maps[last][o] == outs[q][k]);
                if source.label(o).is_some() {
                    if given(source, node, these, n, to).is_some() {
                        lemma_given_some(source, node, these, n, to);
                        let k2 = choose|k2: int| 0 <= k2 < n && #[trigger] these[k2] == to;
                        assert(outs[last][k2] == outs[q][k]);
                    } else if shared(outs, last, q, k) {
                        let (q2, k2) = choose|q2: int, k2: int|
                            0 <= q2 < last && 0 <= k2 < outs[q2].len() && (q2 != q || k2 != k)
                                && #[trigger] outs[q2][k2] == outs[q][k];
                        assert(outs[q2][k2] == outs[q][k]);
                    }
                }
            }
        }
    }
}

/// Whether the translation keeps the labels: where a labelled outlet of a
/// node that the outputs depend on goes, there is its label, unless
/// another such outlet goes there too.
pub open spec fn labels_kept<F1, O1, F2, O2>(
    source: Graph<F1, O1>,
    target: Graph<F2, O2>,
    mapping: Map<OutletId, OutletId>,
) -> bool {
    forall|o: OutletId|
        source.needed(o.node as int) && source.has_outlet(o) && (#[trigger] source.label(
            o,
        )).is_some() ==> target.label(mapping[o]) == source.label(o) || crowded(source, mapping, o)
}

/// Whether another outlet of a node that the outputs depend on goes where
/// the outlet `o` goes.
pub open spec fn crowded<F1, O1>(source: Graph<F1, O1>, mapping: Map<OutletId, OutletId>, o: OutletId) -> bool {
    exists|o2: OutletId|
        o2 != o && source.needed(o2.node as int) && source.has_outlet(o2) && #[trigger] mapping[o2]
            == mapping[o]
}

/// A translation keeps the labels. Where every input of the model is an
/// outlet of a node that the outputs depend on, a labelled outlet of such
/// a node has its label where it goes, unless another such outlet goes
/// there too; and each outlet of such a node goes to an outlet.
pub proof fn lemma_labels_kept<F1, O1, F2, O2, T: Steps<F1, O1, F2, O2>>(
    t: T,
    source: Graph<F1, O1>,
    target: Graph<F2, O2>,
    mapping: Map<OutletId, OutletId>,
)
    requires
        source.sized(),
        translation(t, source, target, mapping),
        forall|i: int| 0 <= i < source.inputs.len() ==> source.has_outlet(#[trigger] source.inputs[i])
            && source.needed(source.inputs[i].node as int),
    ensures
        labels_kept(source, target, mapping),
{
    reveal(translation);
    let (order, g, by) = choose|order: Seq<usize>, g: Graph<F2, O2>, by: Map<OutletId, OutletId>| #[trigger]
        made(t, source, order, g, by, target, mapping);
    let p = order.len() as int;
    let (graphs, maps, mids, outs) = choose|
        graphs: Seq<Graph<F2, O2>>,
        maps: Seq<Map<OutletId, OutletId>>,
        mids: Seq<Graph<F2, O2>>,
        outs: Seq<Seq<OutletId>>,
    | #[trigger]
        chained(t, source, order, p, graphs, maps, mids, outs) && graphs[p] == g && maps[p] == by;
    assert forall|q: int| 0 <= q < p implies (#[trigger] outs[q]).len() <= usize::MAX
        && outs[q].len() == source.nodes[order[q] as int].facts.len() by {
        assert(step_at(t, source, order, graphs, maps, mids, outs, q));
    }
    lemma_chain_labels(t, source, order, p, graphs, maps, mids, outs, p);
    assert forall|i: int| 0 <= i < source.inputs.len() implies by.contains_key(
        #[trigger] source.inputs[i],
    ) by {
        let o = source.inputs[i];
        assert(order.contains(o.node));
        let q = choose|q: int| 0 <= q < order.len() && order[q] == o.node;
        assert(kept_at(source, order, graphs, maps, outs, p, q, o.slot as int));
    }
    assert(mapping == by && target.labels == g.labels);
    assert forall|o: OutletId|
        source.needed(o.node as int) && source.has_outlet(o) && (#[trigger] source.label(
            o,
        )).is_some() implies target.label(mapping[o]) == source.label(o) || crowded(
        source,
        mapping,
        o,
    ) by {
        assert(order.contains(o.node));
        let q = choose|q: int| 0 <= q < order.len() && order[q] == o.node;
        let k = o.slot as int;
        assert(kept_at(source, order, graphs, maps, outs, p, q, k));
        if shared(outs, p, q, k) {
            let (q2, k2) = choose|q2: int, k2: int|
                0 <= q2 < p && 0 <= k2 < outs[q2].len() && (q2 != q || k2 != k) && #[trigger] outs[q2][k2]
                    == outs[q][k];
            let o2 = OutletId { node: order[q2], slot: k2 as usize };
            assert(kept_at(source, order, graphs, maps, outs, p, q2, k2));
            assert(order.contains(order[q2]));
            assert(o2 != o) by {
                if q2 != q {
                    assert(order[q2] != order[q]);
                }
            }
            assert(mapping[o2] == mapping[o]);
        }
    }
}

/// Whether the node at the place `q` of the graph `g` is the node at the
/// place `q` of `order` in `source`, taken over as it is: it has its name,
/// the same operator and the same facts, and reads what stands for what
/// that one reads; and its outlets stand for the outlets of that one.
pub open spec fn mirrors_at(
    source: Graph<TypedFact, Op>,
    order: Seq<usize>,
    g: Graph<TypedFact, Op>,
    m: Map<OutletId, OutletId>,
    q: int,
) -> bool {
    let n = source.nodes[order[q] as int];
    let node = g.nodes[q];
    &&& q < g.nodes.len()
    &&& node.name == n.name
    &&& node.op.same(&n.op)
    &&& node.facts.len() == n.facts.len()
    &&& forall|k: int| 0 <= k < n.facts.len() ==> (#[trigger] node.facts[k]).same(&n.facts[k])
    &&& node.inputs == images(m, n.inputs)
    &&& forall|i: int| 0 <= i < n.inputs.len() ==> m.contains_key(#[trigger] n.inputs[i])
    &&& forall|k: int|
        0 <= k < n.facts.len() ==> m.contains_key(#[trigger] mapped_key(order[q], k)) && m[mapped_key(
            order[q],
            k,
        )] == (OutletId { node: q as usize, slot: k as usize })
}

/// Whether the graph `g` is the first `j` nodes of `order` in `source`,
/// taken over as they are and numbered as they come in the order.
pub open spec fn mirrored(
    source: Graph<TypedFact, Op>,
    order: Seq<usize>,
    g: Graph<TypedFact, Op>,
    m: Map<OutletId, OutletId>,
    j: int,
) -> bool {
    &&& g.nodes.len() == j
    &&& forall|o: OutletId| #[trigger] m.contains_key(o) ==> comes_before(order, j, o.node)
    &&& forall|q: int| 0 <= q < j ==> #[trigger] mirrors_at(source, order, g, m, q)
}

/// A run of the translator that takes each node over as it is has made
/// as many nodes as it has taken.
pub proof fn lemma_chain_count(
    source: Graph<TypedFact, Op>,
    order: Seq<usize>,
    p: int,
    graphs: Seq<Graph<TypedFact, Op>>,
    maps: Seq<Map<OutletId, OutletId>>,
    mids: Seq<Graph<TypedFact, Op>>,
    outs: Seq<Seq<OutletId>>,
    j: int,
)
    requires
        chained(IntoTranslator, source, order, p, graphs, maps, mids, outs),
        0 <= j <= p,
    ensures
        graphs[j].nodes.len() == j,
    decreases j,
{
    if j > 0 {
        let last = j - 1;
        lemma_chain_count(source, order, p, graphs, maps, mids, outs, last);
        assert(step_at(IntoTranslator, source, order, graphs, maps, mids, outs, last));
        lemma_labelled(
            source,
            order[last],
            outs[last],
            mids[last],
            outs[last].len() as int,
            OutletId { node: 0, slot: 0 },
        );
    }
}

/// A run of the translator that takes each node over as it is, into the
/// same flavour, numbers the nodes as they come in the order and leaves
/// them as they are.
pub proof fn lemma_chain_mirrors(
    source: Graph<TypedFact, Op>,
    order: Seq<usize>,
    p: int,
    graphs: Seq<Graph<TypedFact, Op>>,
    maps: Seq<Map<OutletId, OutletId>>,
    mids: Seq<Graph<TypedFact, Op>>,
    outs: Seq<Seq<OutletId>>,
    j: int,
)
    requires
        chained(IntoTranslator, source, order, p, graphs, maps, mids, outs),
        order.no_duplicates(),
        source.sized(),
        forall|q: int| 0 <= q < order.len() ==> (#[trigger] order[q]) < source.nodes.len(),
        p <= usize::MAX,
        0 <= j <= p,
    ensures
        mirrored(source, order, graphs[j], maps[j], j),
    decreases j,
{
    if j > 0 {
        let last = j - 1;
        lemma_chain_mirrors(source, order, p, graphs, maps, mids, outs, last);
        assert(step_at(IntoTranslator, source, order, graphs, maps, mids, outs, last));
        let node = order[last];
        let these = outs[last];
        let n = these.len() as int;
        let g = graphs[j];
        let m = maps[j];
        let before = graphs[last];
        let earlier = maps[last];
        lemma_labelled(source, node, these, mids[last], n, OutletId { node: 0, slot: 0 });
        assert(g.nodes == mids[last].nodes);
        assert forall|o: OutletId| #[trigger] m.contains_key(o) implies comes_before(
            order,
            j,
            o.node,
        ) by {
            if o.node == node {
                assert(order[last] == o.node);
            } else {
                lemma_entered_other(node, these, earlier, n, o);
                assert(comes_before(order, last, o.node));
                let q = choose|q: int| 0 <= q < last && order[q] == o.node;
                assert(order[q] == o.node);
            }
        }
        assert forall|q: int| 0 <= q < j implies #[trigger] mirrors_at(source, order, g, m, q) by {
            let sn = source.nodes[order[q] as int];
            if q < last {
                assert(mirrors_at(source, order, before, earlier, q));
                assert(order[q] != order[last]);
                assert(g.nodes[q].name == before.nodes[q].name);
                assert forall|i: int| 0 <= i < sn.inputs.len() implies m.contains_key(
                    #[trigger] sn.inputs[i],
                ) && m[sn.inputs[i]] == earlier[sn.inputs[i]] by {
                    let o = sn.inputs[i];
                    assert(earlier.contains_key(o));
                    assert(comes_before(order, last, o.node));
                    let q0 = choose|q0: int| 0 <= q0 < last && order[q0] == o.node;
                    assert(order[q0] != order[last]);
                    lemma_entered_other(node, these, earlier, n, o);
                }
                assert(images(m, sn.inputs) =~= images(earlier, sn.inputs));
                assert forall|k: int| 0 <= k < sn.facts.len() implies m.contains_key(
                    #[trigger] mapped_key(order[q], k),
                ) && m[mapped_key(order[q], k)] == (OutletId { node: q as usize, slot: k as usize }) by {
                    lemma_entered_other(node, these, earlier, n, mapped_key(order[q], k));
                }
            } else {
                assert forall|i: int| 0 <= i < sn.inputs.len() implies m.contains_key(
                    #[trigger] sn.inputs[i],
                ) && m[sn.inputs[i]] == earlier[sn.inputs[i]] by {
                    let o = sn.inputs[i];
                    assert(earlier.contains_key(o));
                    assert(comes_before(order, last, o.node));
                    let q0 = choose|q0: int| 0 <= q0 < last && order[q0] == o.node;
                    assert(order[q0] != order[last]);
                    lemma_entered_other(node, these, earlier, n, o);
                }
                assert(images(m, sn.inputs) =~= images(earlier, sn.inputs));
                assert forall|k: int| 0 <= k < sn.facts.len() implies m.contains_key(
                    #[trigger] mapped_key(order[q], k),
                ) && m[mapped_key(order[q], k)] == (OutletId { node: q as usize, slot: k as usize }) by {
                    lemma_entered_own(node, these, earlier, n, k);
                    assert(these[k] == crate::model::access::outlets_of(
                        before.nodes.len() as usize,
                        sn.facts.len() as int,
                    )[k]);
                }
            }
        }
    }
}

/// Whether `target` is `source` with its nodes numbered as they come in
/// the evaluation order `order`: node for node the same names, operators,
/// facts and inputs, and the same inputs and outputs, `mapping` telling
/// the new number of each outlet.
pub open spec fn renumbered(
    source: Graph<TypedFact, Op>,
    order: Seq<usize>,
    target: Graph<TypedFact, Op>,
    mapping: Map<OutletId, OutletId>,
) -> bool {
    &&& source.is_eval_order(order)
    &&& forall|n: usize| order.contains(n) <==> source.needed(n as int)
    &&& mirrored(source, order, target, mapping, order.len() as int)
    &&& target.inputs == images(mapping, source.inputs)
    &&& target.outputs == images(mapping, source.outputs)
}

/// Translating a model into its own flavour gives the model back. Where
/// every input of the model is an outlet of a node that the outputs depend
/// on, the translation that takes each node over as it is is the nodes
/// that the outputs depend on, numbered as they come in an evaluation
/// order: with the same names, operators, facts and inputs, the same
/// inputs and outputs in the same order, and the labels where the outlets
/// have gone.
pub proof fn lemma_round_trip(
    source: Graph<TypedFact, Op>,
    target: Graph<TypedFact, Op>,
    mapping: Map<OutletId, OutletId>,
)
    requires
        source.sized(),
        target.sized(),
        translation(IntoTranslator, source, target, mapping),
        forall|i: int| 0 <= i < source.inputs.len() ==> source.has_outlet(#[trigger] source.inputs[i])
            && source.needed(source.inputs[i].node as int),
    ensures
        exists|order: Seq<usize>| #[trigger] renumbered(source, order, target, mapping),
        labels_kept(source, target, mapping),
{
    lemma_labels_kept(IntoTranslator, source, target, mapping);
    reveal(translation);
    let (order, g, by) = choose|
        order: Seq<usize>,
        g: Graph<TypedFact, Op>,
        by: Map<OutletId, OutletId>,
    | #[trigger] made(IntoTranslator, source, order, g, by, target, mapping);
    let p = order.len() as int;
    let (graphs, maps, mids, outs) = choose|
        graphs: Seq<Graph<TypedFact, Op>>,
        maps: Seq<Map<OutletId, OutletId>>,
        mids: Seq<Graph<TypedFact, Op>>,
        outs: Seq<Seq<OutletId>>,
    | #[trigger]
        chained(IntoTranslator, source, order, p, graphs, maps, mids, outs) && graphs[p] == g
            && maps[p] == by;
    lemma_chain_count(source, order, p, graphs, maps, mids, outs, p);
    assert forall|q: int| 0 <= q < p implies (#[trigger] outs[q]).len() <= usize::MAX by {
        assert(step_at(IntoTranslator, source, order, graphs, maps, mids, outs, q));
    }
    lemma_chain_labels(IntoTranslator, source, order, p, graphs, maps, mids, outs, p);
    assert forall|i: int| 0 <= i < source.inputs.len() implies by.contains_key(
        #[trigger] source.inputs[i],
    ) by {
        let o = source.inputs[i];
        assert(order.contains(o.node));
        let q = choose|q: int| 0 <= q < order.len() && order[q] == o.node;
        assert(step_at(IntoTranslator, source, order, graphs, maps, mids, outs, q));
        assert(kept_at(source, order, graphs, maps, outs, p, q, o.slot as int));
    }
    assert(mapping == by);
    assert(target.nodes == g.nodes);
    assert(p <= usize::MAX);
    lemma_chain_mirrors(source, order, p, graphs, maps, mids, outs, p);
    assert forall|q: int| 0 <= q < p implies #[trigger] mirrors_at(
        source,
        order,
        target,
        mapping,
        q,
    ) by {
        assert(mirrors_at(source, order, g, by, q));
    }
    assert(renumbered(source, order, target, mapping));
}

} // verus!
