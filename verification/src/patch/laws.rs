//! What holds of every patch of a kind.

use vstd::prelude::*;
use crate::model::graph::{
    Graph, GNode, InletId, Operator, OutletId, label_at, label_from, lemma_index_of_unique,
    lemma_successor_of, without,
};
use crate::patch::spec::Patch;

verus! {

/// `s` begun at its `n`-th element and ended with its first `n`.
pub open spec fn rotated<T>(s: Seq<T>, n: int) -> Seq<T> {
    s.skip(n) + s.take(n)
}

impl<F, O> Graph<F, O> {
    /// Whether the nodes and their outputs can be numbered: a model can
    /// hold the graph.
    pub open spec fn sized(self) -> bool {
        &&& self.nodes.len() <= usize::MAX
        &&& forall|n: int|
            0 <= n < self.nodes.len() ==> (#[trigger] self.nodes[n]).facts.len() <= usize::MAX
    }

    /// The graph in which the outlet `o` lists the successors `s`.
    pub open spec fn with_successors(self, o: OutletId, s: Seq<InletId>) -> Self {
        Graph {
            nodes: self.nodes.update(
                o.node as int,
                GNode {
                    successors: self.nodes[o.node as int].successors.update(o.slot as int, s),
                    ..self.nodes[o.node as int]
                },
            ),
            ..self
        }
    }
}

impl<F, O: Operator> Patch<F, O> {
    /// Whether the patch does no more than tap outlets of `host` and put
    /// each tap in the place of the outlet it taps: its nodes are sources,
    /// each replacement is the tap of the outlet it replaces, and no node
    /// is neutralized.
    pub open spec fn is_identity(self, host: Graph<F, O>) -> bool {
        &&& forall|n: int|
            0 <= n < self.graph.nodes.len() ==> (#[trigger] self.graph.nodes[n]).op.is_source_spec()
        &&& forall|i: int|
            0 <= i < self.shunts.len() ==> {
                let (from, by) = #[trigger] self.shunts[i];
                &&& by.node < self.graph.nodes.len()
                &&& self.incoming.contains_key(by)
                &&& self.incoming[by] == from
                &&& host.has_outlet(from)
            }
        &&& self.obliterate.len() == 0
    }
}

/// A sequence that holds nothing twice still holds nothing twice when it is
/// begun elsewhere.
pub proof fn lemma_rotated_no_duplicates(s: Seq<InletId>, n: int)
    requires
        s.no_duplicates(),
        0 <= n <= s.len(),
    ensures
        rotated(s, n).no_duplicates(),
        rotated(s, n).len() == s.len(),
{
    let r = rotated(s, n);
    assert forall|a: int, b: int| 0 <= a < r.len() && 0 <= b < r.len() && a != b implies r[a]
        != r[b] by {
        let a2 = if a < s.len() - n {
            a + n
        } else {
            a - (s.len() - n)
        };
        let b2 = if b < s.len() - n {
            b + n
        } else {
            b - (s.len() - n)
        };
        assert(r[a] == s[a2]);
        assert(r[b] == s[b2]);
    }
}

/// Where an outlet has a label, the first entry for it holds that label.
pub proof fn lemma_label_at(labels: Seq<(OutletId, Seq<char>)>, o: OutletId, j: int)
    requires
        0 <= j,
        label_from(labels, o, j).is_some(),
    ensures
        j <= label_at(labels, o, j) < labels.len(),
        labels[label_at(labels, o, j)] == (o, label_from(labels, o, j).unwrap()),
    decreases labels.len() - j,
{
    if j < labels.len() && labels[j].0 != o {
        lemma_label_at(labels, o, j + 1);
    }
}

/// Having the first successors of an outlet read the outlet anew takes
/// them to the end of its list, and changes nothing else.
pub proof fn lemma_rewired_self<F, O: Operator>(g: Graph<F, O>, o: OutletId, n: int)
    requires
        g.wf(),
        g.sized(),
        g.has_outlet(o),
        0 <= n <= g.successors(o).len(),
    ensures
        g.rewired(o, g.successors(o), n) == g.with_successors(o, rotated(g.successors(o), n)),
    decreases n,
{
    let succs = g.successors(o);
    if n == 0 {
        assert(rotated(succs, 0) =~= succs);
        assert(g.nodes[o.node as int].successors.update(o.slot as int, succs)
            =~= g.nodes[o.node as int].successors);
        assert(g.with_successors(o, rotated(succs, 0)) =~~= g);
    } else {
        lemma_rewired_self(g, o, n - 1);
        let rot = rotated(succs, n - 1);
        let next = rotated(succs, n);
        let gn = g.with_successors(o, rot);
        let inlet = succs[n - 1];
        let h = gn.add_edge(o, inlet);
        let want = g.with_successors(o, next);
        assert(g.successors(o).contains(inlet));
        lemma_successor_of(g, o, inlet);
        lemma_rotated_no_duplicates(succs, n - 1);
        assert(rot[0] == inlet);
        lemma_index_of_unique(rot, inlet, 0);
        assert(without(rot, inlet) =~= rot.skip(1));
        assert(rot.skip(1).push(inlet) =~= next);
        assert(g.successors(o).no_duplicates());
        assert(g.nodes[o.node as int].successors.len() == g.nodes[o.node as int].facts.len());
        assert forall|m: int| 0 <= m < g.nodes.len() implies #[trigger] h.nodes[m] =~~= want.nodes[m] by {
            assert(g.nodes[m].successors.len() == g.nodes[m].facts.len());
            assert(h.nodes[m].inputs =~= want.nodes[m].inputs) by {
                if m == inlet.node {
                    assert(g.input(inlet) == o);
                }
            }
            assert forall|k: int| 0 <= k < g.nodes[m].successors.len() implies h.nodes[m].successors[k]
                == want.nodes[m].successors[k] by {
                assert(g.nodes[m].facts.len() <= usize::MAX);
                let x = OutletId { node: m as usize, slot: k as usize };
                if x == o {
                } else {
                    assert(g.has_outlet(x));
                    assert(gn.successors(x) == g.successors(x));
                    if g.successors(x).contains(inlet) {
                        lemma_successor_of(g, x, inlet);
                    }
                }
            }
        }
        assert(h =~~= want);
    }
}

/// An outlet that replaces itself changes nothing.
pub proof fn lemma_shunted_self<F, O: Operator>(g: Graph<F, O>, o: OutletId)
    requires
        g.wf(),
        g.sized(),
        g.has_outlet(o),
    ensures
        g.shunted(o, o) == g,
{
    let succs = g.successors(o);
    lemma_rewired_self(g, o, succs.len() as int);
    assert(rotated(succs, succs.len() as int) =~= succs);
    assert(g.nodes[o.node as int].successors.len() == g.nodes[o.node as int].facts.len());
    assert(g.nodes[o.node as int].successors.update(o.slot as int, succs)
        =~= g.nodes[o.node as int].successors);
    assert(g.with_successors(o, succs) =~~= g);
    let r = g.rewired(o, succs, succs.len() as int);
    assert(r == g);
    let outputs = Seq::new(
        g.outputs.len(),
        |k: int|
            if g.outputs[k] == o {
                o
            } else {
                g.outputs[k]
            },
    );
    assert(outputs =~= g.outputs);
    match g.label(o) {
        Some(l) => {
            lemma_label_at(g.labels, o, 0);
            let i = label_at(g.labels, o, 0);
            assert(g.labels.update(i, (o, l)) =~= g.labels);
            assert(g.shunted(o, o) =~~= g);
        },
        None => {
            assert(g.shunted(o, o) =~~= g);
        },
    }
}

/// A graph of sources has nothing to graft.
pub proof fn lemma_grafted_sources<F, O: Operator>(host: Graph<F, O>, pg: Graph<F, O>, n: int)
    requires
        0 <= n <= pg.nodes.len(),
        forall|k: int| 0 <= k < pg.nodes.len() ==> (#[trigger] pg.nodes[k]).op.is_source_spec(),
    ensures
        host.grafted(pg, n) == host,
        pg.bodies(n) == 0,
    decreases n,
{
    if n > 0 {
        lemma_grafted_sources(host, pg, n - 1);
        assert(pg.nodes[n - 1].op.is_source_spec());
    }
}

/// Patch neutrality on the identity: a patch that taps outlets of its host
/// and puts each tap in the place of the outlet it taps leaves the host as
/// it is.
pub proof fn lemma_identity_patch<F, O: Operator>(p: Patch<F, O>, host: Graph<F, O>)
    requires
        host.wf(),
        host.sized(),
        p.is_identity(host),
    ensures
        p.applied(host) == host,
{
    let base = host.nodes.len() as int;
    let total = p.graph.nodes.len() as int;
    lemma_grafted_sources(host, p.graph, total);
    lemma_shunt_all_identity(p, host, p.shunts.len() as int);
    lemma_connect_all_sources(p, base, host, total);
}

/// The replacements of an identity patch change nothing.
pub proof fn lemma_shunt_all_identity<F, O: Operator>(p: Patch<F, O>, host: Graph<F, O>, n: int)
    requires
        host.wf(),
        host.sized(),
        p.is_identity(host),
        0 <= n <= p.shunts.len(),
    ensures
        p.shunt_all(host.nodes.len() as int, host, n) == host,
    decreases n,
{
    if n > 0 {
        lemma_shunt_all_identity(p, host, n - 1);
        let (from, by) = p.shunts[n - 1];
        assert(p.graph.nodes[by.node as int].op.is_source_spec());
        assert(p.mapped(host.nodes.len() as int, by) == from);
        lemma_shunted_self(host, from);
    }
}

/// A graph of sources has no inputs to connect.
pub proof fn lemma_connect_all_sources<F, O: Operator>(
    p: Patch<F, O>,
    base: int,
    g: Graph<F, O>,
    n: int,
)
    requires
        0 <= n <= p.graph.nodes.len(),
        forall|k: int|
            0 <= k < p.graph.nodes.len() ==> (#[trigger] p.graph.nodes[k]).op.is_source_spec(),
    ensures
        p.connect_all(base, g, n) == g,
    decreases n,
{
    if n > 0 {
        lemma_connect_all_sources(p, base, g, n - 1);
        assert(p.graph.nodes[n - 1].op.is_source_spec());
    }
}

/// Whether the patch has a replacement for the outlet `o` of its host.
pub open spec fn replaced<F, O: Operator>(p: Patch<F, O>, o: OutletId) -> bool {
    exists|s: int| 0 <= s < p.shunts.len() && (#[trigger] p.shunts[s]).0 == o
}

/// Whether each outlet of a source of the patch taps an outlet of `host`.
pub open spec fn all_tapped<F, O: Operator>(p: Patch<F, O>, host: Graph<F, O>) -> bool {
    forall|o: OutletId|
        #[trigger] p.graph.has_outlet(o) && p.graph.nodes[o.node as int].op.is_source_spec()
            ==> p.incoming.contains_key(o) && host.has_outlet(p.incoming[o])
}

/// No outlet of a source is left untapped where each is tapped.
pub proof fn lemma_all_tapped<F, O: Operator>(p: Patch<F, O>, host: Graph<F, O>, n: int, k: int)
    requires
        0 <= n,
        0 <= k,
        p.graph.sized(),
        all_tapped(p, host),
    ensures
        p.first_untapped(host, n, k).is_none(),
    decreases p.graph.nodes.len() - n, p.graph.nodes[n].facts.len() - k,
{
    if n < p.graph.nodes.len() {
        if !p.graph.nodes[n].op.is_source_spec() || k >= p.graph.nodes[n].facts.len() {
            lemma_all_tapped(p, host, n + 1, 0);
        } else {
            let o = OutletId { node: n as usize, slot: k as usize };
            assert(p.graph.has_outlet(o));
            lemma_all_tapped(p, host, n, k + 1);
        }
    }
}

/// Each replacement is in its place where each is an outlet of the patch
/// for an outlet of the host.
pub proof fn lemma_shunts_in_place<F, O: Operator>(p: Patch<F, O>, host: Graph<F, O>, i: int)
    requires
        0 <= i,
        forall|s: int|
            0 <= s < p.shunts.len() ==> host.has_outlet((#[trigger] p.shunts[s]).0)
                && p.graph.has_outlet(p.shunts[s].1),
    ensures
        p.first_bad_shunt(host, i).is_none(),
    decreases p.shunts.len() - i,
{
    if i < p.shunts.len() {
        lemma_shunts_in_place(p, host, i + 1);
    }
}

} // verus!
