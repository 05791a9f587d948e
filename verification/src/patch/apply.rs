//! Applying a patch to its host.

use vstd::prelude::*;
use crate::model::fact::Fact;
use crate::model::graph::{
    Graph, GNode, InletId, Model, ModelError, Node, Operator, Outlet, OutletId, lemma_add_edge_wf, lemma_add_node_wf, lemma_wf_same_edges,
};
use crate::model::map::OutletMap;
use crate::patch::builder::ModelPatch;
use crate::patch::spec::Patch;
use crate::tensor::copied;

verus! {

/// Among more nodes there are no fewer that are no sources, and a node that
/// is no source counts.
pub proof fn lemma_bodies<F, O: Operator>(pg: Graph<F, O>, k: int, n: int)
    requires
        0 <= k <= n,
    ensures
        0 <= pg.bodies(k) <= pg.bodies(n) <= n,
        k < n && !pg.nodes[k].op.is_source_spec() ==> pg.bodies(k) < pg.bodies(n),
    decreases n - k,
{
    lemma_bodies_bound(pg, k);
    if k < n {
        lemma_bodies(pg, k + 1, n);
    }
}

pub proof fn lemma_bodies_bound<F, O: Operator>(pg: Graph<F, O>, n: int)
    requires
        0 <= n,
    ensures
        0 <= pg.bodies(n) <= n,
    decreases n,
{
    if n > 0 {
        lemma_bodies_bound(pg, n - 1);
    }
}

/// Two nodes that are no sources get different copies.
pub proof fn lemma_bodies_apart<F, O: Operator>(pg: Graph<F, O>, a: int, b: int)
    requires
        0 <= a < b,
        !pg.nodes[a].op.is_source_spec(),
    ensures
        pg.bodies(a) < pg.bodies(b),
{
    lemma_bodies(pg, a, b);
}

/// The copy of a node that is no source.
pub open spec fn copy_of<F, O>(node: GNode<F, O>) -> GNode<F, O> {
    GNode {
        name: node.name,
        op: node.op,
        inputs: Seq::empty(),
        facts: node.facts,
        successors: Seq::new(node.facts.len(), |k: int| Seq::empty()),
    }
}

/// What grafting does: the nodes of the host stay, and the copies follow.
pub proof fn lemma_grafted<F, O: Operator>(host: Graph<F, O>, pg: Graph<F, O>, n: int)
    requires
        host.wf(),
        0 <= n <= pg.nodes.len(),
    ensures
        host.grafted(pg, n).wf(),
        host.grafted(pg, n).nodes.len() == host.nodes.len() + pg.bodies(n),
        host.grafted(pg, n).inputs == host.inputs,
        host.grafted(pg, n).outputs == host.outputs,
        host.grafted(pg, n).labels == host.labels,
        forall|m: int|
            0 <= m < host.nodes.len() ==> #[trigger] host.grafted(pg, n).nodes[m] == host.nodes[m],
        forall|k: int|
            0 <= k < n && !pg.nodes[k].op.is_source_spec() ==> host.grafted(
                pg,
                n,
            ).nodes[host.nodes.len() + #[trigger] pg.bodies(k)] == copy_of(pg.nodes[k]),
    decreases n,
{
    if n > 0 {
        lemma_grafted(host, pg, n - 1);
        lemma_bodies_bound(pg, n - 1);
        let g = host.grafted(pg, n - 1);
        let node = pg.nodes[n - 1];
        if !node.op.is_source_spec() {
            lemma_add_node_wf(g, node.name, node.op, node.facts);
            let h = host.grafted(pg, n);
            assert(h.nodes[host.nodes.len() + pg.bodies(n - 1)] == copy_of(node));
            assert forall|k: int| 0 <= k < n && !pg.nodes[k].op.is_source_spec() implies h.nodes[host.nodes.len()
                + #[trigger] pg.bodies(k)] == copy_of(pg.nodes[k]) by {
                if k < n - 1 {
                    lemma_bodies(pg, k, n - 1);
                }
            }
        }
    }
}

impl<F, O: Operator> Patch<F, O> {
    /// The patch fits the host: what `check` asks.
    pub open spec fn fits(self, host: Graph<F, O>) -> bool {
        &&& host.nodes.len() + self.graph.nodes.len() <= usize::MAX
        &&& forall|o: OutletId|
            self.graph.has_outlet(o) && self.graph.nodes[o.node as int].op.is_source_spec()
                ==> #[trigger] self.taps(host, o)
        &&& forall|i: int|
            0 <= i < self.shunts.len() ==> host.has_outlet((#[trigger] self.shunts[i]).0)
                && self.graph.has_outlet(self.shunts[i].1)
        &&& forall|i: int|
            0 <= i < self.obliterate.len() ==> (#[trigger] self.obliterate[i]) < host.nodes.len()
    }

    /// Whether the outlet `o` of the patch taps an outlet of `host`.
    pub open spec fn taps(self, host: Graph<F, O>, o: OutletId) -> bool {
        self.incoming.contains_key(o) && host.has_outlet(self.incoming[o])
    }

    /// A graph that the host has become on the way: it has the nodes of
    /// the host and the copies, with their outlets.
    pub open spec fn hosted(self, host: Graph<F, O>, g: Graph<F, O>) -> bool {
        &&& g.wf()
        &&& g.nodes.len() == host.nodes.len() + self.graph.bodies(self.graph.nodes.len() as int)
        &&& forall|m: int|
            0 <= m < host.nodes.len() ==> (#[trigger] g.nodes[m]).facts.len()
                == host.nodes[m].facts.len()
        &&& forall|k: int|
            0 <= k < self.graph.nodes.len() && !self.graph.nodes[k].op.is_source_spec()
                ==> g.nodes[host.nodes.len() + #[trigger] self.graph.bodies(k)].facts.len()
                == self.graph.nodes[k].facts.len()
    }

    /// The copies of the nodes from `k` on read nothing yet.
    pub open spec fn fresh_from(self, base: int, g: Graph<F, O>, k: int) -> bool {
        forall|j: int|
            k <= j < self.graph.nodes.len() && !self.graph.nodes[j].op.is_source_spec()
                ==> g.nodes[base + #[trigger] self.graph.bodies(j)].inputs.len() == 0
    }
}

/// Where no outlet of a source is untapped from some place on, each
/// outlet of a source from there on taps an outlet of the host.
pub proof fn lemma_tapped<F, O: Operator>(p: Patch<F, O>, host: Graph<F, O>, n: int, k: int, o: OutletId)
    requires
        0 <= n,
        0 <= k,
        p.first_untapped(host, n, k).is_none(),
        p.graph.has_outlet(o),
        p.graph.nodes[o.node as int].op.is_source_spec(),
        o.node > n || (o.node == n && o.slot >= k),
    ensures
        p.incoming.contains_key(o),
        host.has_outlet(p.incoming[o]),
    decreases p.graph.nodes.len() - n, p.graph.nodes[n].facts.len() - k,
{
    if n < p.graph.nodes.len() {
        if !p.graph.nodes[n].op.is_source_spec() || k >= p.graph.nodes[n].facts.len() {
            lemma_tapped(p, host, n + 1, 0, o);
        } else {
            if o.node == n && o.slot == k {
            } else {
                lemma_tapped(p, host, n, k + 1, o);
            }
        }
    }
}

/// Where no replacement is out of place from `i` on, each from there on
/// has its place.
pub proof fn lemma_shunts_fit<F, O: Operator>(p: Patch<F, O>, host: Graph<F, O>, i: int, j: int)
    requires
        0 <= i <= j < p.shunts.len(),
        p.first_bad_shunt(host, i).is_none(),
    ensures
        host.has_outlet(p.shunts[j].0),
        p.graph.has_outlet(p.shunts[j].1),
    decreases p.shunts.len() - i,
{
    if i < j {
        lemma_shunts_fit(p, host, i + 1, j);
    }
}

/// Where each node to neutralize from `i` on is one of the host, so is the
/// one at `j`.
pub proof fn lemma_obliterate_fits<F, O: Operator>(p: Patch<F, O>, host: Graph<F, O>, i: int, j: int)
    requires
        0 <= i <= j < p.obliterate.len(),
        p.first_bad_obliterate(host, i).is_none(),
    ensures
        p.obliterate[j] < host.nodes.len(),
    decreases p.obliterate.len() - i,
{
    if i < j {
        lemma_obliterate_fits(p, host, i + 1, j);
    }
}

/// A patch that passes the check fits.
pub proof fn lemma_check_fits<F, O: Operator>(p: Patch<F, O>, host: Graph<F, O>)
    requires
        p.check(host) is Ok,
    ensures
        p.fits(host),
{
    assert forall|o: OutletId|
        p.graph.has_outlet(o) && p.graph.nodes[o.node as int].op.is_source_spec()
            implies #[trigger] p.taps(host, o) by {
        lemma_tapped(p, host, 0, 0, o);
    }
    assert forall|i: int| 0 <= i < p.shunts.len() implies host.has_outlet(
        (#[trigger] p.shunts[i]).0,
    ) && p.graph.has_outlet(p.shunts[i].1) by {
        lemma_shunts_fit(p, host, 0, i);
    }
    assert forall|i: int| 0 <= i < p.obliterate.len() implies (#[trigger] p.obliterate[i])
        < host.nodes.len() by {
        lemma_obliterate_fits(p, host, 0, i);
    }
}

/// The outlet that stands for an outlet of a fitting patch is an outlet of
/// the host as it has become.
pub proof fn lemma_mapped<F, O: Operator>(p: Patch<F, O>, host: Graph<F, O>, g: Graph<F, O>, o: OutletId)
    requires
        host.wf(),
        p.fits(host),
        p.hosted(host, g),
        p.graph.has_outlet(o),
    ensures
        g.has_outlet(p.mapped(host.nodes.len() as int, o)),
{
    let base = host.nodes.len() as int;
    if p.graph.nodes[o.node as int].op.is_source_spec() {
        let h = p.incoming[o];
        assert(p.taps(host, o));
        assert(host.has_outlet(h));
        lemma_bodies_bound(p.graph, p.graph.nodes.len() as int);
        assert(g.nodes[h.node as int].facts.len() == host.nodes[h.node as int].facts.len());
    } else {
        lemma_bodies(p.graph, o.node as int, p.graph.nodes.len() as int);
        assert(g.nodes[base + p.graph.bodies(o.node as int)].facts.len()
            == p.graph.nodes[o.node as int].facts.len());
    }
}

/// Making an edge keeps what the host has become, and a copy that is not
/// at the reading end of the edge reads as much as before.
pub proof fn lemma_edge_hosted<F, O: Operator>(
    p: Patch<F, O>,
    host: Graph<F, O>,
    g: Graph<F, O>,
    outlet: OutletId,
    inlet: InletId,
)
    requires
        p.hosted(host, g),
        g.edge_check(outlet, inlet) is Ok,
    ensures
        p.hosted(host, g.add_edge(outlet, inlet)),
        g.add_edge(outlet, inlet).inputs == g.inputs,
        g.add_edge(outlet, inlet).outputs == g.outputs,
        g.add_edge(outlet, inlet).labels == g.labels,
        forall|n: int|
            0 <= n < g.nodes.len() && n != inlet.node ==> (#[trigger] g.add_edge(
                outlet,
                inlet,
            ).nodes[n]).inputs == g.nodes[n].inputs,
        g.add_edge(outlet, inlet).nodes[inlet.node as int].inputs.len() == (if inlet.slot
            == g.nodes[inlet.node as int].inputs.len() {
            g.nodes[inlet.node as int].inputs.len() + 1
        } else {
            g.nodes[inlet.node as int].inputs.len()
        }),
        forall|i: InletId| g.has_inlet(i) ==> g.add_edge(outlet, inlet).has_inlet(i),
{
    lemma_add_edge_wf(g, outlet, inlet);
    let h = g.add_edge(outlet, inlet);
    lemma_bodies_bound(p.graph, p.graph.nodes.len() as int);
    assert forall|k: int|
        0 <= k < p.graph.nodes.len() && !p.graph.nodes[k].op.is_source_spec()
            implies h.nodes[host.nodes.len() + #[trigger] p.graph.bodies(k)].facts.len()
        == p.graph.nodes[k].facts.len() by {
        lemma_bodies(p.graph, k, p.graph.nodes.len() as int);
    }
}

/// The facts of `outputs`, in order.
fn take_facts<F>(outputs: Vec<Outlet<F>>) -> (r: Vec<F>)
    ensures
        r@ == Seq::new(outputs.len() as nat, |k: int| outputs[k].fact),
{
    let mut outputs = outputs;
    let ghost all = outputs@;
    let mut facts: Vec<F> = Vec::new();
    while outputs.len() > 0
        invariant
            facts.len() + outputs.len() == all.len(),
            outputs@ == all.skip(facts.len() as int),
            forall|k: int| 0 <= k < facts.len() ==> #[trigger] facts[k] == all[k].fact,
        decreases outputs.len(),
    {
        let o = outputs.remove(0);
        facts.push(o.fact);
    }
    assert(facts@ =~= Seq::new(all.len(), |k: int| all[k].fact));
    facts
}

impl<F: Fact, O: Operator> ModelPatch<F, O> {
    /// Whether the patch can be applied to `target`, and why not.
    pub fn check(&self, target: &Model<F, O>) -> (r: Result<(), ModelError>)
        requires
            self.wf(),
        ensures
            r == self@.check(target@),
    {
        if self.model.nodes.len() > usize::MAX - target.nodes.len() {
            return Err(ModelError::NoSuchNode(usize::MAX));
        }
        let ghost p = self@;
        let ghost host = target@;
        let mut n: usize = 0;
        while n < self.model.nodes.len()
            invariant
                0 <= n <= self.model.nodes.len(),
                self.wf(),
                p == self@,
                host == target@,
                host.nodes.len() + p.graph.nodes.len() <= usize::MAX,
                p.first_untapped(host, 0, 0) == p.first_untapped(host, n as int, 0),
            decreases self.model.nodes.len() - n,
        {
            if self.model.nodes[n].op.is_source() {
                let mut k: usize = 0;
                while k < self.model.nodes[n].outputs.len()
                    invariant
                        n < self.model.nodes.len(),
                        0 <= k <= self.model.nodes[n as int].outputs.len(),
                        self.wf(),
                        p == self@,
                        host == target@,
                        host.nodes.len() + p.graph.nodes.len() <= usize::MAX,
                        p.graph.nodes[n as int].op.is_source_spec(),
                        p.graph.nodes[n as int].facts.len() == self.model.nodes[n as int].outputs.len(),
                        p.first_untapped(host, 0, 0) == p.first_untapped(host, n as int, k as int),
                    decreases self.model.nodes[n as int].outputs.len() - k,
                {
                    let o = OutletId { node: n, slot: k };
                    match self.incoming.get(o) {
                        Some(h) => {
                            if !target.has_outlet(h) {
                                return Err(ModelError::Unmapped(o));
                            }
                        },
                        None => {
                            return Err(ModelError::Unmapped(o));
                        },
                    }
                    k += 1;
                }
            }
            n += 1;
        }
        let mut i: usize = 0;
        while i < self.shunt_outlet_by.len()
            invariant
                0 <= i <= self.shunt_outlet_by.keys.len(),
                self.wf(),
                p == self@,
                host == target@,
                host.nodes.len() + p.graph.nodes.len() <= usize::MAX,
                p.first_untapped(host, 0, 0).is_none(),
                p.first_bad_shunt(host, 0) == p.first_bad_shunt(host, i as int),
            decreases self.shunt_outlet_by.keys.len() - i,
        {
            let outlet = self.shunt_outlet_by.keys[i];
            let by = self.shunt_outlet_by.values[i];
            assert(p.shunts[i as int] == (outlet, by));
            if !target.has_outlet(outlet) {
                return Err(ModelError::NoSuchOutlet(outlet));
            }
            if !self.model.has_outlet(by) {
                return Err(ModelError::NoSuchOutlet(by));
            }
            i += 1;
        }
        let mut j: usize = 0;
        while j < self.obliterate.len()
            invariant
                0 <= j <= self.obliterate.len(),
                p == self@,
                host == target@,
                p.first_untapped(host, 0, 0).is_none(),
                p.first_bad_shunt(host, 0).is_none(),
                p.first_bad_obliterate(host, 0) == p.first_bad_obliterate(host, j as int),
                host.nodes.len() + p.graph.nodes.len() <= usize::MAX,
            decreases self.obliterate.len() - j,
        {
            if self.obliterate[j] >= target.nodes.len() {
                return Err(ModelError::NoSuchNode(self.obliterate[j]));
            }
            j += 1;
        }
        Ok(())
    }
}

/// The outlet of the host that stands for the outlet `o` of the patch.
fn map_outlet<F, O: Operator>(
    incoming: &OutletMap,
    is_source: &Vec<bool>,
    new_ids: &Vec<usize>,
    o: OutletId,
    Ghost(p): Ghost<Patch<F, O>>,
    Ghost(base): Ghost<int>,
) -> (r: OutletId)
    requires
        incoming.wf(),
        incoming@ == p.incoming,
        is_source.len() == p.graph.nodes.len(),
        new_ids.len() == p.graph.nodes.len(),
        forall|k: int|
            0 <= k < is_source.len() ==> #[trigger] is_source[k] == p.graph.nodes[k].op.is_source_spec(),
        forall|k: int|
            0 <= k < new_ids.len() && !p.graph.nodes[k].op.is_source_spec() ==> #[trigger] new_ids[k]
                == base + p.graph.bodies(k),
        o.node < p.graph.nodes.len(),
        p.graph.nodes[o.node as int].op.is_source_spec() ==> p.incoming.contains_key(o),
    ensures
        r == p.mapped(base, o),
{
    if is_source[o.node] {
        match incoming.get(o) {
            Some(h) => h,
            None => o,
        }
    } else {
        OutletId { node: new_ids[o.node], slot: o.slot }
    }
}

impl<F: Fact, O: Operator> ModelPatch<F, O> {
    /// Applies the patch to `target`, or changes nothing where it does not
    /// fit. The nodes of the patch that are no sources are copied; each
    /// replacement takes over from the outlet it replaces; the inputs of
    /// the copies are connected; the nodes to neutralize become dummies.
    pub fn apply(self, target: &mut Model<F, O>) -> (r: Result<(), ModelError>)
        requires
            self.wf(),
            old(target).wf(),
        ensures
            final(target).wf(),
            r == self@.check(old(target)@),
            r is Err ==> final(target)@ == old(target)@,
            r is Ok ==> final(target)@ == self@.applied(old(target)@),
            r is Ok ==> final(target)@.inputs == old(target)@.inputs && final(target)@.outputs.len()
                == old(target)@.outputs.len() && final(target)@.nodes.len() == old(target)@.nodes.len() + self@.graph.bodies(self@.graph.nodes.len() as int),
    {
        match self.check(target) {
            Ok(_) => {},
            Err(e) => {
                return Err(e);
            },
        }
        let ghost p = self@;
        let ghost host = target@;
        let ghost base = host.nodes.len() as int;
        let ghost total = p.graph.nodes.len() as int;
        proof {
            lemma_check_fits(p, host);
        }
        let ghost patch_model = self.model;
        let ModelPatch { model, incoming, shunt_outlet_by, obliterate } = self;
        let Model { nodes, inputs: _, outputs: _, labels: _ } = model;
        let mut nodes = nodes;
        let ghost wired = nodes@;
        let mut is_source: Vec<bool> = Vec::new();
        let mut new_ids: Vec<usize> = Vec::new();
        let mut kept: Vec<Vec<OutletId>> = Vec::new();
        proof {
            assert forall|k: int| 0 <= k < total implies p.graph.nodes[k] == (#[trigger] wired[k]).shape() by {}
        }
        while nodes.len() > 0
            invariant
                target.wf(),
                host.wf(),
                wired.len() == total,
                total == p.graph.nodes.len(),
                base == host.nodes.len(),
                base + total <= usize::MAX,
                forall|k: int| 0 <= k < total ==> p.graph.nodes[k] == (#[trigger] wired[k]).shape(),
                is_source.len() + nodes.len() == total,
                new_ids.len() == is_source.len(),
                kept.len() == is_source.len(),
                nodes@ == wired.skip(is_source.len() as int),
                target@ == host.grafted(p.graph, is_source.len() as int),
                forall|k: int|
                    0 <= k < is_source.len() ==> #[trigger] is_source[k]
                        == p.graph.nodes[k].op.is_source_spec(),
                forall|k: int|
                    0 <= k < new_ids.len() && !p.graph.nodes[k].op.is_source_spec()
                        ==> #[trigger] new_ids[k] == base + p.graph.bodies(k),
                forall|k: int| 0 <= k < kept.len() ==> (#[trigger] kept[k])@ == p.graph.nodes[k].inputs,
            decreases nodes.len(),
        {
            let ghost i = is_source.len() as int;
            let node = nodes.remove(0);
            assert(node == wired[i]);
            let Node { id: _, name, inputs, op, outputs } = node;
            proof {
                lemma_grafted(host, p.graph, i);
            }
            if op.is_source() {
                is_source.push(true);
                new_ids.push(0);
            } else {
                let facts = take_facts(outputs);
                assert(facts@ =~= p.graph.nodes[i].facts);
                let nid = target.add_node(name, op, facts);
                is_source.push(false);
                new_ids.push(nid);
            }
            kept.push(inputs);
        }
        let ghost g1 = target@;
        proof {
            lemma_grafted(host, p.graph, total);
            assert(p.hosted(host, g1)) by {
                assert forall|k: int|
                    0 <= k < total && !p.graph.nodes[k].op.is_source_spec()
                        implies g1.nodes[host.nodes.len() + #[trigger] p.graph.bodies(k)].facts.len()
                    == p.graph.nodes[k].facts.len() by {
                    assert(g1.nodes[base + p.graph.bodies(k)] == copy_of(p.graph.nodes[k]));
                }
            }
            assert(p.fresh_from(base, g1, 0)) by {
                assert forall|j: int|
                    0 <= j < total && !p.graph.nodes[j].op.is_source_spec() implies g1.nodes[base
                    + #[trigger] p.graph.bodies(j)].inputs.len() == 0 by {
                    assert(g1.nodes[base + p.graph.bodies(j)] == copy_of(p.graph.nodes[j]));
                }
            }
        }
        let mut s: usize = 0;
        while s < shunt_outlet_by.len()
            invariant
                0 <= s <= shunt_outlet_by.keys.len(),
                target.wf(),
                host.wf(),
                p.fits(host),
                base == host.nodes.len(),
                total == p.graph.nodes.len(),
                shunt_outlet_by.wf(),
                p.shunts == shunt_outlet_by.entries(),
                incoming.wf(),
                incoming@ == p.incoming,
                is_source.len() == total,
                new_ids.len() == total,
                forall|k: int|
                    0 <= k < is_source.len() ==> #[trigger] is_source[k]
                        == p.graph.nodes[k].op.is_source_spec(),
                forall|k: int|
                    0 <= k < new_ids.len() && !p.graph.nodes[k].op.is_source_spec()
                        ==> #[trigger] new_ids[k] == base + p.graph.bodies(k),
                p.hosted(host, target@),
                p.fresh_from(base, target@, 0),
                target@.inputs == host.inputs,
                target@.outputs.len() == host.outputs.len(),
                target@ == p.shunt_all(base, g1, s as int),
            decreases shunt_outlet_by.keys.len() - s,
        {
            let outlet = shunt_outlet_by.keys[s];
            let by = shunt_outlet_by.values[s];
            let ghost gs = target@;
            proof {
                assert(p.shunts[s as int] == (outlet, by));
                assert(host.has_outlet(p.shunts[s as int].0));
                assert(p.graph.has_outlet(by));
                if p.graph.nodes[by.node as int].op.is_source_spec() {
                    assert(p.taps(host, by));
                }
                lemma_mapped(p, host, gs, by);
                lemma_bodies_bound(p.graph, total);
                assert(gs.has_outlet(outlet)) by {
                    assert(gs.nodes[outlet.node as int].facts.len()
                        == host.nodes[outlet.node as int].facts.len());
                }
            }
            let fixed = map_outlet::<F, O>(&incoming, &is_source, &new_ids, by, Ghost(p), Ghost(base));
            let succs = copied(&target.nodes[outlet.node].outputs[outlet.slot].successors);
            assert(succs@ == gs.successors(outlet));
            let mut t: usize = 0;
            while t < succs.len()
                invariant
                    0 <= t <= succs.len(),
                    target.wf(),
                    base == host.nodes.len(),
                    total == p.graph.nodes.len(),
                    p.hosted(host, target@),
                    p.fresh_from(base, target@, 0),
                    target@ == gs.rewired(fixed, succs@, t as int),
                    target@.has_outlet(fixed),
                    target@.inputs == gs.inputs,
                    target@.outputs == gs.outputs,
                    target@.labels == gs.labels,
                    forall|j: int| 0 <= j < succs.len() ==> target@.has_inlet(#[trigger] succs[j]),
                decreases succs.len() - t,
            {
                let ghost before = target@;
                proof {
                    assert(before.has_inlet(succs[t as int]));
                    lemma_edge_hosted(p, host, before, fixed, succs[t as int]);
                    lemma_bodies_bound(p.graph, total);
                }
                let r = target.add_edge(fixed, succs[t]);
                assert(r.is_ok());
                proof {
                    assert(p.fresh_from(base, target@, 0)) by {
                        assert forall|j: int|
                            0 <= j < total && !p.graph.nodes[j].op.is_source_spec()
                                implies target@.nodes[base + #[trigger] p.graph.bodies(j)].inputs.len()
                            == 0 by {
                            lemma_bodies(p.graph, j, total);
                            assert(before.nodes[base + p.graph.bodies(j)].inputs.len() == 0);
                        }
                    }
                }
                t += 1;
            }
            let ghost g_rewired = target@;
            let mut k: usize = 0;
            while k < target.outputs.len()
                invariant
                    0 <= k <= target.outputs.len(),
                    target.outputs.len() == g_rewired.outputs.len(),
                    target@.nodes == g_rewired.nodes,
                    target@.inputs == g_rewired.inputs,
                    target@.labels == g_rewired.labels,
                    forall|n: int| 0 <= n < target.nodes.len() ==> (#[trigger] target.nodes[n]).id == n,
                    forall|j: int|
                        0 <= j < k ==> #[trigger] target.outputs[j] == (if g_rewired.outputs[j]
                            == outlet {
                            fixed
                        } else {
                            g_rewired.outputs[j]
                        }),
                    forall|j: int|
                        k <= j < target.outputs.len() ==> #[trigger] target.outputs[j]
                            == g_rewired.outputs[j],
                decreases target.outputs.len() - k,
            {
                if target.outputs[k] == outlet {
                    target.outputs[k] = fixed;
                }
                k += 1;
            }
            let ghost g_out = Graph {
                outputs: Seq::new(
                    g_rewired.outputs.len(),
                    |k: int|
                        if g_rewired.outputs[k] == outlet {
                            fixed
                        } else {
                            g_rewired.outputs[k]
                        },
                ),
                ..g_rewired
            };
            proof {
                assert(target@ =~~= g_out);
                assert(g_out.same_edges(g_rewired));
                assert forall|k: int| 0 <= k < g_out.outputs.len() implies g_rewired.has_outlet(
                    #[trigger] g_out.outputs[k],
                ) by {
                    assert(g_rewired.has_outlet(g_rewired.outputs[k]));
                }
                assert forall|k: int| 0 <= k < g_out.inputs.len() implies g_rewired.has_outlet(
                    #[trigger] g_out.inputs[k],
                ) by {
                    assert(g_rewired.has_outlet(g_rewired.inputs[k]));
                }
                lemma_wf_same_edges(g_out, g_rewired);
            }
            let label = match target.outlet_label(outlet) {
                Some(l) => Some(l.clone()),
                None => None,
            };
            match label {
                Some(l) => {
                    target.set_outlet_label(fixed, l);
                },
                None => {},
            }
            proof {
                assert(target@ == gs.shunted(outlet, fixed));
                assert(p.hosted(host, target@)) by {
                    lemma_bodies_bound(p.graph, total);
                }
                assert(p.fresh_from(base, target@, 0));
            }
            s += 1;
        }
        let ghost g2 = target@;
        let mut k: usize = 0;
        proof {
            assert(kept.len() == total);
        }
        while k < kept.len()
            invariant
                0 <= k <= kept.len(),
                kept.len() == total,
                target.wf(),
                host.wf(),
                p.fits(host),
                patch_model@ == p.graph,
                patch_model.wf(),
                base == host.nodes.len(),
                total == p.graph.nodes.len(),
                base + total <= usize::MAX,
                incoming.wf(),
                incoming@ == p.incoming,
                is_source.len() == total,
                new_ids.len() == total,
                forall|k: int|
                    0 <= k < is_source.len() ==> #[trigger] is_source[k]
                        == p.graph.nodes[k].op.is_source_spec(),
                forall|k: int|
                    0 <= k < new_ids.len() && !p.graph.nodes[k].op.is_source_spec()
                        ==> #[trigger] new_ids[k] == base + p.graph.bodies(k),
                forall|k: int| 0 <= k < kept.len() ==> (#[trigger] kept[k])@ == p.graph.nodes[k].inputs,
                p.hosted(host, target@),
                p.fresh_from(base, target@, k as int),
                target@.inputs == host.inputs,
                target@.outputs.len() == host.outputs.len(),
                target@ == p.connect_all(base, g2, k as int),
            decreases kept.len() - k,
        {
            if !is_source[k] {
                let nid = new_ids[k];
                let ghost hk = target@;
                let ghost wanted = p.mapped_all(base, p.graph.nodes[k as int].inputs);
                proof {
                    lemma_bodies(p.graph, k as int, total);
                }
                let mut j: usize = 0;
                while j < kept[k].len()
                    invariant
                        k < kept.len(),
                        kept.len() == total,
                        0 <= j <= kept[k as int].len(),
                        target.wf(),
                        host.wf(),
                        p.fits(host),
                        patch_model@ == p.graph,
                        patch_model.wf(),
                        base == host.nodes.len(),
                        total == p.graph.nodes.len(),
                        base + total <= usize::MAX,
                        incoming.wf(),
                        incoming@ == p.incoming,
                        is_source.len() == total,
                        new_ids.len() == total,
                        forall|k: int|
                            0 <= k < is_source.len() ==> #[trigger] is_source[k]
                                == p.graph.nodes[k].op.is_source_spec(),
                        forall|k: int|
                            0 <= k < new_ids.len() && !p.graph.nodes[k].op.is_source_spec()
                                ==> #[trigger] new_ids[k] == base + p.graph.bodies(k),
                        kept[k as int]@ == p.graph.nodes[k as int].inputs,
                        !p.graph.nodes[k as int].op.is_source_spec(),
                        nid == base + p.graph.bodies(k as int),
                        nid < target@.nodes.len(),
                        wanted == p.mapped_all(base, p.graph.nodes[k as int].inputs),
                        p.hosted(host, target@),
                        p.fresh_from(base, target@, k as int + 1),
                        target@.inputs == host.inputs,
                        target@.outputs.len() == host.outputs.len(),
                        target@.nodes[nid as int].inputs.len() == j,
                        target@ == hk.connect_at(nid, wanted, j as int),
                    decreases kept[k as int].len() - j,
                {
                    let o = kept[k][j];
                    let ghost before = target@;
                    proof {
                        let inlet = InletId { node: k, slot: j };
                        assert(p.graph.has_inlet(inlet));
                        assert(p.graph.has_outlet(p.graph.input(inlet)));
                        assert(p.graph.input(inlet) == o);
                        if p.graph.nodes[o.node as int].op.is_source_spec() {
                            assert(p.taps(host, o));
                        }
                        lemma_mapped(p, host, before, o);
                        assert(wanted[j as int] == p.mapped(base, o));
                    }
                    let from = map_outlet::<F, O>(&incoming, &is_source, &new_ids, o, Ghost(p), Ghost(base));
                    proof {
                        lemma_edge_hosted(p, host, before, from, InletId { node: nid, slot: j });
                    }
                    let r = target.add_edge(from, InletId { node: nid, slot: j });
                    assert(r.is_ok());
                    proof {
                        assert(p.fresh_from(base, target@, k as int + 1)) by {
                            assert forall|m: int|
                                k < m < total && !p.graph.nodes[m].op.is_source_spec()
                                    implies target@.nodes[base + #[trigger] p.graph.bodies(m)].inputs.len()
                                == 0 by {
                                lemma_bodies(p.graph, m, total);
                                lemma_bodies_apart(p.graph, k as int, m);
                                assert(before.nodes[base + p.graph.bodies(m)].inputs.len() == 0);
                            }
                        }
                    }
                    j += 1;
                }
            } else {
                assert(p.fresh_from(base, target@, k as int + 1));
            }
            k += 1;
        }
        let ghost g3 = target@;
        proof {
            lemma_bodies_bound(p.graph, total);
        }
        let mut j: usize = 0;
        while j < obliterate.len()
            invariant
                0 <= j <= obliterate.len(),
                target.wf(),
                p.fits(host),
                obliterate@ == p.obliterate,
                target@.nodes.len() == host.nodes.len() + p.graph.bodies(p.graph.nodes.len() as int),
                p.graph.bodies(p.graph.nodes.len() as int) >= 0,
                target@.inputs == host.inputs,
                target@.outputs.len() == host.outputs.len(),
                target@ == g3.obliterated(p.obliterate, j as int),
            decreases obliterate.len() - j,
        {
            assert(p.obliterate[j as int] < host.nodes.len());
            target.set_node_op(obliterate[j], O::dummy());
            j += 1;
        }
        Ok(())
    }
}

} // verus!
