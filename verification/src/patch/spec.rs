//! What applying a patch does to a graph.

use vstd::prelude::*;
use crate::model::graph::{Graph, InletId, ModelError, Operator, OutletId};

verus! {

/// A patch as the graphs see it: the graph of its nodes; the outlet of the
/// host that each outlet of its sources taps; the outlets of the host to
/// replace, each with its replacement in the patch, in order; and the nodes
/// of the host to neutralize.
#[verifier::ext_equal]
pub struct Patch<F, O> {
    pub graph: Graph<F, O>,
    pub incoming: Map<OutletId, OutletId>,
    pub shunts: Seq<(OutletId, OutletId)>,
    pub obliterate: Seq<usize>,
}

impl<F, O: Operator> Graph<F, O> {
    /// How many of the first `n` nodes are no sources.
    pub open spec fn bodies(self, n: int) -> int
        decreases n,
    {
        if n <= 0 {
            0
        } else {
            self.bodies(n - 1) + (if self.nodes[n - 1].op.is_source_spec() {
                0int
            } else {
                1int
            })
        }
    }

    /// The graph with copies of those of the first `n` nodes of `patch`
    /// that are no sources, unconnected, in order.
    pub open spec fn grafted(self, patch: Graph<F, O>, n: int) -> Self
        decreases n,
    {
        if n <= 0 {
            self
        } else {
            let g = self.grafted(patch, n - 1);
            let node = patch.nodes[n - 1];
            if node.op.is_source_spec() {
                g
            } else {
                g.add_node(node.name, node.op, node.facts)
            }
        }
    }

    /// The graph in which the first `n` of the inlets `succs` read `to`.
    pub open spec fn rewired(self, to: OutletId, succs: Seq<InletId>, n: int) -> Self
        decreases n,
    {
        if n <= 0 {
            self
        } else {
            self.rewired(to, succs, n - 1).add_edge(to, succs[n - 1])
        }
    }

    /// The graph in which `to` stands for `from`: what read `from` reads
    /// `to`, where `from` was an output `to` is, and the label of `from`
    /// is that of `to` as well.
    pub open spec fn shunted(self, from: OutletId, to: OutletId) -> Self {
        let succs = self.successors(from);
        let g = self.rewired(to, succs, succs.len() as int);
        let h = Graph {
            outputs: Seq::new(
                g.outputs.len(),
                |k: int|
                    if g.outputs[k] == from {
                        to
                    } else {
                        g.outputs[k]
                    },
            ),
            ..g
        };
        match self.label(from) {
            Some(l) => h.with_label(to, l),
            None => h,
        }
    }

    /// The graph in which the first `n` inputs of the node `id` read the
    /// first `n` of `inputs`.
    pub open spec fn connect_at(self, id: usize, inputs: Seq<OutletId>, n: int) -> Self
        decreases n,
    {
        if n <= 0 {
            self
        } else {
            self.connect_at(id, inputs, n - 1).add_edge(
                inputs[n - 1],
                InletId { node: id, slot: (n - 1) as usize },
            )
        }
    }

    /// The graph in which the first `n` of the nodes `ids` are dummies.
    pub open spec fn obliterated(self, ids: Seq<usize>, n: int) -> Self
        decreases n,
    {
        if n <= 0 {
            self
        } else {
            self.obliterated(ids, n - 1).with_op(ids[n - 1] as int, O::dummy_spec())
        }
    }
}

impl<F, O: Operator> Patch<F, O> {
    /// The outlet of the host, a graph of `base` nodes before the patch,
    /// that stands for the outlet `o` of the patch: what a source taps, or
    /// the same slot of the copy of a node.
    pub open spec fn mapped(self, base: int, o: OutletId) -> OutletId {
        if self.graph.nodes[o.node as int].op.is_source_spec() {
            self.incoming[o]
        } else {
            OutletId { node: (base + self.graph.bodies(o.node as int)) as usize, slot: o.slot }
        }
    }

    /// The outlets of the host that stand for `outlets`.
    pub open spec fn mapped_all(self, base: int, outlets: Seq<OutletId>) -> Seq<OutletId> {
        Seq::new(outlets.len(), |k: int| self.mapped(base, outlets[k]))
    }

    /// Whether the patch can be applied to `host`, and why not: each outlet
    /// of a source taps an outlet of the host; each replacement is an
    /// outlet of the patch, for an outlet of the host; each node to
    /// neutralize is one of the host; and the host has room for the nodes.
    pub open spec fn check(self, host: Graph<F, O>) -> Result<(), ModelError> {
        if host.nodes.len() + self.graph.nodes.len() > usize::MAX {
            Err(ModelError::NoSuchNode(usize::MAX))
        } else if let Some(o) = self.first_untapped(host, 0, 0) {
            Err(ModelError::Unmapped(o))
        } else if let Some(o) = self.first_bad_shunt(host, 0) {
            Err(ModelError::NoSuchOutlet(o))
        } else if let Some(n) = self.first_bad_obliterate(host, 0) {
            Err(ModelError::NoSuchNode(n))
        } else {
            Ok(())
        }
    }

    /// The first outlet of a source, from slot `k` of node `n` on, that
    /// taps no outlet of `host`.
    pub open spec fn first_untapped(self, host: Graph<F, O>, n: int, k: int) -> Option<OutletId>
        decreases self.graph.nodes.len() - n, self.graph.nodes[n].facts.len() - k,
    {
        if n < 0 || n >= self.graph.nodes.len() || k < 0 {
            None
        } else if !self.graph.nodes[n].op.is_source_spec() || k >= self.graph.nodes[n].facts.len() {
            self.first_untapped(host, n + 1, 0)
        } else {
            let o = OutletId { node: n as usize, slot: k as usize };
            if self.incoming.contains_key(o) && host.has_outlet(self.incoming[o]) {
                self.first_untapped(host, n, k + 1)
            } else {
                Some(o)
            }
        }
    }

    /// The first outlet of a replacement, from `i` on, that is out of
    /// place: the outlet to replace where it is none of `host`, else the
    /// replacement where it is no outlet of the patch.
    pub open spec fn first_bad_shunt(self, host: Graph<F, O>, i: int) -> Option<OutletId>
        decreases self.shunts.len() - i,
    {
        if i < 0 || i >= self.shunts.len() {
            None
        } else if !host.has_outlet(self.shunts[i].0) {
            Some(self.shunts[i].0)
        } else if !self.graph.has_outlet(self.shunts[i].1) {
            Some(self.shunts[i].1)
        } else {
            self.first_bad_shunt(host, i + 1)
        }
    }

    /// The first node to neutralize, from `i` on, that `host` does not
    /// have.
    pub open spec fn first_bad_obliterate(self, host: Graph<F, O>, i: int) -> Option<usize>
        decreases self.obliterate.len() - i,
    {
        if i < 0 || i >= self.obliterate.len() {
            None
        } else if self.obliterate[i] >= host.nodes.len() {
            Some(self.obliterate[i])
        } else {
            self.first_bad_obliterate(host, i + 1)
        }
    }

    /// `g` after the first `n` replacements.
    pub open spec fn shunt_all(self, base: int, g: Graph<F, O>, n: int) -> Graph<F, O>
        decreases n,
    {
        if n <= 0 {
            g
        } else {
            self.shunt_all(base, g, n - 1).shunted(
                self.shunts[n - 1].0,
                self.mapped(base, self.shunts[n - 1].1),
            )
        }
    }

    /// `g` after connecting the inputs of the copies of the first `n`
    /// nodes of the patch.
    pub open spec fn connect_all(self, base: int, g: Graph<F, O>, n: int) -> Graph<F, O>
        decreases n,
    {
        if n <= 0 {
            g
        } else {
            let h = self.connect_all(base, g, n - 1);
            let node = self.graph.nodes[n - 1];
            if node.op.is_source_spec() {
                h
            } else {
                h.connect_at(
                    (base + self.graph.bodies(n - 1)) as usize,
                    self.mapped_all(base, node.inputs),
                    node.inputs.len() as int,
                )
            }
        }
    }

    /// The host with the patch applied. First the nodes of the patch that
    /// are no sources are copied, unconnected. Then each replacement takes
    /// over from the outlet it replaces. Then the inputs of the copies are
    /// connected, so that a copy still reads an outlet that was replaced.
    /// Last the nodes to neutralize become dummies.
    pub open spec fn applied(self, host: Graph<F, O>) -> Graph<F, O> {
        let base = host.nodes.len() as int;
        let g1 = host.grafted(self.graph, self.graph.nodes.len() as int);
        let g2 = self.shunt_all(base, g1, self.shunts.len() as int);
        let g3 = self.connect_all(base, g2, self.graph.nodes.len() as int);
        g3.obliterated(self.obliterate, self.obliterate.len() as int)
    }
}

} // verus!
