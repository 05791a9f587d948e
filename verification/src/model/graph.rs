//! Nodes and edges, and the operations that keep them consistent.

use vstd::prelude::*;
use crate::error::OpError;
use crate::model::fact::Fact;

verus! {

/// An output of a node: the producing end of edges.
#[derive(Debug, Clone, Copy, PartialEq, Eq, Hash, PartialOrd, Ord, Structural)]
pub struct OutletId {
    pub node: usize,
    pub slot: usize,
}

/// An input of a node: the consuming end of one edge.
#[derive(Debug, Clone, Copy, PartialEq, Eq, Hash, PartialOrd, Ord, Structural)]
pub struct InletId {
    pub node: usize,
    pub slot: usize,
}

impl OutletId {
    pub fn new(node: usize, slot: usize) -> (r: OutletId)
        ensures
            r == (OutletId { node, slot }),
    {
        OutletId { node, slot }
    }
}

impl InletId {
    pub fn new(node: usize, slot: usize) -> (r: InletId)
        ensures
            r == (InletId { node, slot }),
    {
        InletId { node, slot }
    }
}

/// Why the graph refuses a request.
#[derive(Debug, Clone, Copy, PartialEq, Eq, Structural)]
pub enum ModelError {
    /// There is no node of this number.
    NoSuchNode(usize),
    /// There is no such output.
    NoSuchOutlet(OutletId),
    /// The inputs of a node are connected in order, and this one is not the
    /// next.
    InputOutOfOrder(InletId),
    /// The node has no such input.
    NoSuchInput(InletId),
    /// The nodes that the outputs depend on form a loop.
    Cycle,
    /// The fact of the replacement for this outlet is not that of the
    /// outlet.
    FactMismatch(OutletId),
    /// The node has not exactly one successor.
    NoSingleSuccessor(usize),
    /// The outlet stands for nothing in the other graph.
    Unmapped(OutletId),
    /// A fact is not known well enough for the next stage.
    Incomplete(OutletId),
    /// The operator of this node cannot be taken over as it is.
    Refused(usize),
    /// An operator refuses the request.
    Op(OpError),
    /// The model did not settle within the patches that it was allowed.
    Unsettled,
}

/// What a graph asks of its operators: to know the sources, which stand for
/// what comes from outside, and to have a dummy, which stands for nothing.
pub trait Operator: Sized {
    /// Whether the operator is a source.
    spec fn is_source_spec(&self) -> bool;

    /// Whether the operator is a dummy.
    spec fn is_dummy_spec(&self) -> bool;

    /// Whether the two operators are the same.
    spec fn same(&self, other: &Self) -> bool;

    fn is_source(&self) -> (r: bool)
        ensures
            r == self.is_source_spec(),
    ;

    /// The source.
    spec fn source_spec() -> Self;

    /// The dummy.
    spec fn dummy_spec() -> Self;

    /// The source.
    fn source() -> (r: Self)
        ensures
            r == Self::source_spec(),
            r.is_source_spec(),
    ;

    /// The dummy.
    fn dummy() -> (r: Self)
        ensures
            r == Self::dummy_spec(),
            r.is_dummy_spec(),
            !r.is_source_spec(),
    ;

    /// A copy of the operator.
    fn duplicate(&self) -> (r: Self)
        ensures
            r.same(self),
            self.same(&r),
            r.is_source_spec() == self.is_source_spec(),
    ;
}

/// One output of a node: what is known of it, and the inputs it feeds.
pub struct Outlet<F> {
    pub fact: F,
    pub successors: Vec<InletId>,
}

/// A node: an operator, the outlets it reads and those it produces.
pub struct Node<F, O> {
    pub id: usize,
    pub name: String,
    pub inputs: Vec<OutletId>,
    pub op: O,
    pub outputs: Vec<Outlet<F>>,
}

/// A graph of operators with its inputs and outputs.
pub struct Model<F, O> {
    pub nodes: Vec<Node<F, O>>,
    pub inputs: Vec<OutletId>,
    pub outputs: Vec<OutletId>,
    pub labels: Vec<(OutletId, String)>,
}

/// `s` without `x`, for an `s` that holds nothing twice.
pub open spec fn without(s: Seq<InletId>, x: InletId) -> Seq<InletId> {
    if s.contains(x) {
        s.remove(s.index_of(x))
    } else {
        s
    }
}

/// The label that the first entry for `o` among `labels` from `i` on gives.
pub open spec fn label_from(labels: Seq<(OutletId, Seq<char>)>, o: OutletId, i: int) -> Option<
    Seq<char>,
>
    decreases labels.len() - i,
{
    if i < 0 || i >= labels.len() {
        None
    } else if labels[i].0 == o {
        Some(labels[i].1)
    } else {
        label_from(labels, o, i + 1)
    }
}

/// The first entry for `o` among `labels` from `i` on, or their number.
pub open spec fn label_at(labels: Seq<(OutletId, Seq<char>)>, o: OutletId, i: int) -> int
    decreases labels.len() - i,
{
    if i < 0 || i >= labels.len() {
        labels.len() as int
    } else if labels[i].0 == o {
        i
    } else {
        label_at(labels, o, i + 1)
    }
}

/// A node as the graph sees it.
#[verifier::ext_equal]
pub struct GNode<F, O> {
    pub name: Seq<char>,
    pub op: O,
    pub inputs: Seq<OutletId>,
    pub facts: Seq<F>,
    pub successors: Seq<Seq<InletId>>,
}

/// The graph that a model holds: its nodes by number, the outlets that are
/// its inputs and outputs, and the labels of outlets.
#[verifier::ext_equal]
pub struct Graph<F, O> {
    pub nodes: Seq<GNode<F, O>>,
    pub inputs: Seq<OutletId>,
    pub outputs: Seq<OutletId>,
    pub labels: Seq<(OutletId, Seq<char>)>,
}

impl<F, O> GNode<F, O> {
    /// How many inputs the outputs of the first `n` slots feed.
    pub open spec fn fanout(self, n: int) -> int
        decreases n,
    {
        if n <= 0 {
            0
        } else {
            self.fanout(n - 1) + self.successors[n - 1].len()
        }
    }

    /// The first slot from `k` on that feeds an input, or the number of
    /// slots.
    pub open spec fn first_fed(self, k: int) -> int
        decreases self.successors.len() - k,
    {
        if k < 0 || k >= self.successors.len() {
            self.successors.len() as int
        } else if self.successors[k].len() > 0 {
            k
        } else {
            self.first_fed(k + 1)
        }
    }
}

impl<F, O> Graph<F, O> {
    /// The graph without nodes.
    pub open spec fn empty() -> Self {
        Graph {
            nodes: Seq::empty(),
            inputs: Seq::empty(),
            outputs: Seq::empty(),
            labels: Seq::empty(),
        }
    }

    /// Whether the graph has the outlet `o`.
    pub open spec fn has_outlet(self, o: OutletId) -> bool {
        o.node < self.nodes.len() && o.slot < self.nodes[o.node as int].facts.len()
    }

    /// Whether the graph has the inlet `i`, connected.
    pub open spec fn has_inlet(self, i: InletId) -> bool {
        i.node < self.nodes.len() && i.slot < self.nodes[i.node as int].inputs.len()
    }

    /// The inlets that the outlet `o` feeds, in the order they were added.
    pub open spec fn successors(self, o: OutletId) -> Seq<InletId> {
        self.nodes[o.node as int].successors[o.slot as int]
    }

    /// The outlet that the inlet `i` reads.
    pub open spec fn input(self, i: InletId) -> OutletId {
        self.nodes[i.node as int].inputs[i.slot as int]
    }

    /// What is known of the outlet `o`.
    pub open spec fn fact(self, o: OutletId) -> F {
        self.nodes[o.node as int].facts[o.slot as int]
    }

    /// The label of the outlet `o`, if it has one.
    pub open spec fn label(self, o: OutletId) -> Option<Seq<char>> {
        label_from(self.labels, o, 0)
    }

    /// The graph is consistent: each node lists successors for each of its
    /// outputs; each connected input reads an existing outlet, which lists
    /// it once among its successors; each listed successor reads the outlet
    /// that lists it; and the inputs and outputs of the graph are outlets
    /// of it.
    pub open spec fn wf(self) -> bool {
        &&& forall|n: int|
            0 <= n < self.nodes.len() ==> (#[trigger] self.nodes[n]).successors.len()
                == self.nodes[n].facts.len()
        &&& forall|i: InletId|
            self.has_inlet(i) ==> self.has_outlet(#[trigger] self.input(i))
                && self.successors(self.input(i)).contains(i)
        &&& forall|o: OutletId, k: int|
            self.has_outlet(o) && 0 <= k < self.successors(o).len() ==> self.has_inlet(
                #[trigger] self.successors(o)[k],
            ) && self.input(self.successors(o)[k]) == o
        &&& forall|o: OutletId| self.has_outlet(o) ==> (#[trigger] self.successors(o)).no_duplicates()
        &&& forall|k: int| 0 <= k < self.inputs.len() ==> self.has_outlet(#[trigger] self.inputs[k])
        &&& forall|k: int|
            0 <= k < self.outputs.len() ==> self.has_outlet(#[trigger] self.outputs[k])
    }

    /// The graph with one more node, without inputs, that has one output
    /// for each of `facts`.
    pub open spec fn add_node(self, name: Seq<char>, op: O, facts: Seq<F>) -> Self {
        Graph {
            nodes: self.nodes.push(
                GNode {
                    name,
                    op,
                    inputs: Seq::empty(),
                    facts,
                    successors: Seq::new(facts.len(), |k: int| Seq::empty()),
                },
            ),
            ..self
        }
    }

    /// The graph with one more node, the source `op` with the one output
    /// `fact`, whose outlet is one more input of the graph.
    pub open spec fn add_source(self, name: Seq<char>, op: O, fact: F) -> Self {
        let g = self.add_node(name, op, seq![fact]);
        Graph { inputs: self.inputs.push(OutletId { node: self.nodes.len() as usize, slot: 0 }), ..g }
    }

    /// Whether an edge from `outlet` to `inlet` can be made, and why not.
    pub open spec fn edge_check(self, outlet: OutletId, inlet: InletId) -> Result<(), ModelError> {
        if inlet.node >= self.nodes.len() {
            Err(ModelError::NoSuchNode(inlet.node))
        } else if !self.has_outlet(outlet) {
            Err(ModelError::NoSuchOutlet(outlet))
        } else if inlet.slot > self.nodes[inlet.node as int].inputs.len() {
            Err(ModelError::InputOutOfOrder(inlet))
        } else {
            Ok(())
        }
    }

    /// The inputs of the node `n` once `inlet` reads `outlet`.
    pub open spec fn edge_inputs(self, n: int, outlet: OutletId, inlet: InletId) -> Seq<OutletId> {
        if n != inlet.node {
            self.nodes[n].inputs
        } else if inlet.slot == self.nodes[n].inputs.len() {
            self.nodes[n].inputs.push(outlet)
        } else {
            self.nodes[n].inputs.update(inlet.slot as int, outlet)
        }
    }

    /// The successors of `o` once `inlet` reads `outlet`: `inlet` leaves
    /// the list it was in, and comes last in that of `outlet`.
    pub open spec fn edge_successors(self, o: OutletId, outlet: OutletId, inlet: InletId) -> Seq<
        InletId,
    > {
        let base = without(self.successors(o), inlet);
        if o == outlet {
            base.push(inlet)
        } else {
            base
        }
    }

    /// The graph in which `inlet` reads `outlet`.
    pub open spec fn add_edge(self, outlet: OutletId, inlet: InletId) -> Self {
        Graph {
            nodes: Seq::new(
                self.nodes.len(),
                |n: int|
                    GNode {
                        inputs: self.edge_inputs(n, outlet, inlet),
                        successors: Seq::new(
                            self.nodes[n].successors.len(),
                            |k: int|
                                self.edge_successors(
                                    OutletId { node: n as usize, slot: k as usize },
                                    outlet,
                                    inlet,
                                ),
                        ),
                        ..self.nodes[n]
                    },
            ),
            ..self
        }
    }

    /// The graph in which the first `n` inputs of its last node read the
    /// first `n` of `inputs`.
    pub open spec fn connect(self, inputs: Seq<OutletId>, n: int) -> Self
        decreases n,
    {
        if n <= 0 {
            self
        } else {
            self.connect(inputs, n - 1).add_edge(
                inputs[n - 1],
                InletId { node: (self.nodes.len() - 1) as usize, slot: (n - 1) as usize },
            )
        }
    }

    /// The graph with one more node that reads `inputs`.
    pub open spec fn wire(
        self,
        name: Seq<char>,
        op: O,
        facts: Seq<F>,
        inputs: Seq<OutletId>,
    ) -> Self {
        self.add_node(name, op, facts).connect(inputs, inputs.len() as int)
    }

    /// The graph where `fact` is what is known of the outlet `o`.
    pub open spec fn with_fact(self, o: OutletId, fact: F) -> Self {
        Graph {
            nodes: self.nodes.update(
                o.node as int,
                GNode {
                    facts: self.nodes[o.node as int].facts.update(o.slot as int, fact),
                    ..self.nodes[o.node as int]
                },
            ),
            ..self
        }
    }

    /// The graph where `op` is the operator of the node `n`.
    pub open spec fn with_op(self, n: int, op: O) -> Self {
        Graph { nodes: self.nodes.update(n, GNode { op, ..self.nodes[n] }), ..self }
    }

    /// The graph where the outlet `o` has the label `label`.
    pub open spec fn with_label(self, o: OutletId, label: Seq<char>) -> Self {
        let i = label_at(self.labels, o, 0);
        Graph {
            labels: if i < self.labels.len() {
                self.labels.update(i, (o, label))
            } else {
                self.labels.push((o, label))
            },
            ..self
        }
    }

    /// The graph has grown out of `before`: the nodes of `before` are its
    /// first nodes, with their names, operators, facts and inputs, and the
    /// labels are those of `before`.
    pub open spec fn extends(self, before: Self) -> bool {
        &&& before.nodes.len() <= self.nodes.len()
        &&& self.labels == before.labels
        &&& forall|m: int|
            0 <= m < before.nodes.len() ==> (#[trigger] self.nodes[m]).name == before.nodes[m].name
                && self.nodes[m].op == before.nodes[m].op && self.nodes[m].facts
                == before.nodes[m].facts && self.nodes[m].inputs == before.nodes[m].inputs
    }

    /// The nodes of `self` and `other` have the same edges.
    pub open spec fn same_edges(self, other: Self) -> bool {
        &&& self.nodes.len() == other.nodes.len()
        &&& forall|n: int|
            0 <= n < self.nodes.len() ==> (#[trigger] self.nodes[n]).inputs == other.nodes[n].inputs
                && self.nodes[n].successors == other.nodes[n].successors && self.nodes[n].facts.len()
                == other.nodes[n].facts.len()
    }
}

/// What `without` leaves: everything but `x`, once each, in order.
pub proof fn lemma_without(s: Seq<InletId>, x: InletId)
    requires
        s.no_duplicates(),
    ensures
        without(s, x).no_duplicates(),
        !without(s, x).contains(x),
        forall|e: InletId| e != x ==> (without(s, x).contains(e) <==> s.contains(e)),
        forall|k: int| 0 <= k < without(s, x).len() ==> s.contains(#[trigger] without(s, x)[k]),
{
    let w = without(s, x);
    if s.contains(x) {
        let i = s.index_of(x);
        assert(0 <= i < s.len() && s[i] == x);
        assert(w.len() == s.len() - 1);
        assert forall|k: int| 0 <= k < w.len() implies #[trigger] w[k] == (if k < i {
            s[k]
        } else {
            s[k + 1]
        }) by {}
        assert forall|k: int| 0 <= k < w.len() implies s.contains(#[trigger] w[k]) by {
            if k < i {
                assert(s[k] == w[k]);
            } else {
                assert(s[k + 1] == w[k]);
            }
        }
        assert forall|a: int, b: int| 0 <= a < w.len() && 0 <= b < w.len() && a != b implies w[a]
            != w[b] by {
            let a2 = if a < i {
                a
            } else {
                a + 1
            };
            let b2 = if b < i {
                b
            } else {
                b + 1
            };
            assert(w[a] == s[a2] && w[b] == s[b2]);
        }
        assert(!w.contains(x)) by {
            if w.contains(x) {
                let k = choose|k: int| 0 <= k < w.len() && w[k] == x;
                let k2 = if k < i {
                    k
                } else {
                    k + 1
                };
                assert(s[k2] == x);
            }
        }
        assert forall|e: InletId| e != x implies (w.contains(e) <==> s.contains(e)) by {
            if s.contains(e) {
                let k = choose|k: int| 0 <= k < s.len() && s[k] == e;
                assert(k != i);
                let k2 = if k < i {
                    k
                } else {
                    k - 1
                };
                assert(w[k2] == e);
            }
            if w.contains(e) {
                let k = choose|k: int| 0 <= k < w.len() && w[k] == e;
                assert(s.contains(w[k]));
            }
        }
    } else {
        assert forall|k: int| 0 <= k < w.len() implies s.contains(#[trigger] w[k]) by {
            assert(s[k] == w[k]);
        }
    }
}

/// Where `s` holds nothing twice, `x` stands at one place only.
pub proof fn lemma_index_of_unique(s: Seq<InletId>, x: InletId, i: int)
    requires
        s.no_duplicates(),
        0 <= i < s.len(),
        s[i] == x,
    ensures
        s.index_of(x) == i,
        s.contains(x),
{
    assert(s.contains(x));
    let j = s.index_of(x);
    assert(0 <= j < s.len() && s[j] == x);
}


/// A graph with the edges of a consistent one is consistent, if its inputs
/// and outputs are outlets of it.
pub proof fn lemma_wf_same_edges<F, O>(g: Graph<F, O>, old: Graph<F, O>)
    requires
        old.wf(),
        g.same_edges(old),
        forall|k: int| 0 <= k < g.inputs.len() ==> old.has_outlet(#[trigger] g.inputs[k]),
        forall|k: int| 0 <= k < g.outputs.len() ==> old.has_outlet(#[trigger] g.outputs[k]),
    ensures
        g.wf(),
{
    assert forall|i: InletId| g.has_inlet(i) implies g.has_outlet(#[trigger] g.input(i))
        && g.successors(g.input(i)).contains(i) by {
        assert(old.has_inlet(i));
        assert(old.has_outlet(old.input(i)));
    }
    assert forall|o: OutletId, k: int|
        g.has_outlet(o) && 0 <= k < g.successors(o).len() implies g.has_inlet(
        #[trigger] g.successors(o)[k],
    ) && g.input(g.successors(o)[k]) == o by {
        assert(old.has_outlet(o));
        assert(old.has_inlet(old.successors(o)[k]));
    }
    assert forall|o: OutletId| g.has_outlet(o) implies (#[trigger] g.successors(o)).no_duplicates() by {
        assert(old.has_outlet(o));
        assert(old.successors(o).no_duplicates());
    }
}

/// Adding a node keeps a graph consistent.
pub proof fn lemma_add_node_wf<F, O>(g: Graph<F, O>, name: Seq<char>, op: O, facts: Seq<F>)
    requires
        g.wf(),
    ensures
        g.add_node(name, op, facts).wf(),
{
    let h = g.add_node(name, op, facts);
    let id = g.nodes.len() as int;
    assert forall|i: InletId| h.has_inlet(i) implies h.has_outlet(#[trigger] h.input(i))
        && h.successors(h.input(i)).contains(i) by {
        assert(g.has_inlet(i));
        assert(g.has_outlet(g.input(i)));
    }
    assert forall|o: OutletId, k: int|
        h.has_outlet(o) && 0 <= k < h.successors(o).len() implies h.has_inlet(
        #[trigger] h.successors(o)[k],
    ) && h.input(h.successors(o)[k]) == o by {
        assert(g.has_outlet(o));
        assert(g.has_inlet(g.successors(o)[k]));
    }
    assert forall|o: OutletId| h.has_outlet(o) implies (#[trigger] h.successors(o)).no_duplicates() by {
        if o.node < id {
            assert(g.has_outlet(o));
            assert(g.successors(o).no_duplicates());
        }
    }
    assert forall|k: int| 0 <= k < h.inputs.len() implies h.has_outlet(#[trigger] h.inputs[k]) by {
        assert(g.has_outlet(g.inputs[k]));
    }
    assert forall|k: int| 0 <= k < h.outputs.len() implies h.has_outlet(
        #[trigger] h.outputs[k],
    ) by {
        assert(g.has_outlet(g.outputs[k]));
    }
}

/// Adding a source keeps a graph consistent.
pub proof fn lemma_add_source_wf<F, O>(g: Graph<F, O>, name: Seq<char>, op: O, fact: F)
    requires
        g.wf(),
        g.nodes.len() < usize::MAX,
    ensures
        g.add_source(name, op, fact).wf(),
{
    let m = g.add_node(name, op, seq![fact]);
    lemma_add_node_wf(g, name, op, seq![fact]);
    let h = g.add_source(name, op, fact);
    assert(h.same_edges(m));
    assert forall|k: int| 0 <= k < h.inputs.len() implies m.has_outlet(#[trigger] h.inputs[k]) by {
        if k < g.inputs.len() {
            assert(m.has_outlet(m.inputs[k]));
        }
    }
    assert forall|k: int| 0 <= k < h.outputs.len() implies m.has_outlet(
        #[trigger] h.outputs[k],
    ) by {
        assert(m.has_outlet(m.outputs[k]));
    }
    lemma_wf_same_edges(h, m);
}

/// Making an edge that can be made keeps a graph consistent, and changes
/// neither the number of nodes nor what they produce.
pub proof fn lemma_add_edge_wf<F, O>(g: Graph<F, O>, outlet: OutletId, inlet: InletId)
    requires
        g.wf(),
        g.edge_check(outlet, inlet) is Ok,
    ensures
        g.add_edge(outlet, inlet).wf(),
        g.add_edge(outlet, inlet).nodes.len() == g.nodes.len(),
        forall|o: OutletId| g.has_outlet(o) <==> g.add_edge(outlet, inlet).has_outlet(o),
{
    let h = g.add_edge(outlet, inlet);
    assert forall|o: OutletId| g.has_outlet(o) implies #[trigger] h.successors(o)
        == g.edge_successors(o, outlet, inlet) by {}
    assert forall|i: InletId| h.has_inlet(i) implies h.has_outlet(#[trigger] h.input(i))
        && h.successors(h.input(i)).contains(i) by {
        if i == inlet {
            assert(h.input(i) == outlet);
            let s = h.successors(outlet);
            assert(s[s.len() - 1] == inlet);
        } else {
            assert(g.has_inlet(i));
            let p = g.input(i);
            assert(h.input(i) == p);
            assert(g.has_outlet(p));
            assert(g.successors(p).contains(i));
            assert(g.successors(p).no_duplicates());
            lemma_without(g.successors(p), inlet);
            assert(h.successors(p) == g.edge_successors(p, outlet, inlet));
            let w = without(g.successors(p), inlet);
            assert(w.contains(i));
            let k = choose|k: int| 0 <= k < w.len() && w[k] == i;
            assert(h.successors(p)[k] == i);
        }
    }
    assert forall|o: OutletId, k: int|
        h.has_outlet(o) && 0 <= k < h.successors(o).len() implies h.has_inlet(
        #[trigger] h.successors(o)[k],
    ) && h.input(h.successors(o)[k]) == o by {
        assert(g.has_outlet(o));
        assert(h.successors(o) == g.edge_successors(o, outlet, inlet));
        assert(g.successors(o).no_duplicates());
        lemma_without(g.successors(o), inlet);
        let w = without(g.successors(o), inlet);
        let e = h.successors(o)[k];
        if k < w.len() {
            assert(e == w[k]);
            assert(g.successors(o).contains(e));
            assert(e != inlet);
            let j = choose|j: int| 0 <= j < g.successors(o).len() && g.successors(o)[j] == e;
            assert(g.has_inlet(g.successors(o)[j]));
            assert(g.input(g.successors(o)[j]) == o);
        } else {
            assert(o == outlet && e == inlet);
        }
    }
    assert forall|o: OutletId| h.has_outlet(o) implies (#[trigger] h.successors(o)).no_duplicates() by {
        assert(g.has_outlet(o));
        assert(h.successors(o) == g.edge_successors(o, outlet, inlet));
        assert(g.successors(o).no_duplicates());
        lemma_without(g.successors(o), inlet);
        let w = without(g.successors(o), inlet);
        if o == outlet {
            assert forall|a: int, b: int|
                0 <= a < w.len() + 1 && 0 <= b < w.len() + 1 && a != b implies w.push(inlet)[a]
                != w.push(inlet)[b] by {
                if a < w.len() && b < w.len() {
                } else if a < w.len() {
                    assert(w.contains(w[a]));
                } else {
                    assert(w.contains(w[b]));
                }
            }
        }
    }
    assert forall|k: int| 0 <= k < h.inputs.len() implies h.has_outlet(#[trigger] h.inputs[k]) by {
        assert(g.has_outlet(g.inputs[k]));
    }
    assert forall|k: int| 0 <= k < h.outputs.len() implies h.has_outlet(
        #[trigger] h.outputs[k],
    ) by {
        assert(g.has_outlet(g.outputs[k]));
    }
}

/// In a consistent graph, only the outlet that an inlet reads lists it.
pub proof fn lemma_successor_of<F, O>(g: Graph<F, O>, o: OutletId, inlet: InletId)
    requires
        g.wf(),
        g.has_outlet(o),
        g.successors(o).contains(inlet),
    ensures
        g.has_inlet(inlet),
        g.input(inlet) == o,
{
    let k = choose|k: int| 0 <= k < g.successors(o).len() && g.successors(o)[k] == inlet;
    assert(g.has_inlet(g.successors(o)[k]));
}

impl<F, O> Node<F, O> {
    /// The node as the graph sees it.
    pub open spec fn shape(&self) -> GNode<F, O> {
        GNode {
            name: self.name@,
            op: self.op,
            inputs: self.inputs@,
            facts: Seq::new(self.outputs.len() as nat, |k: int| self.outputs[k].fact),
            successors: Seq::new(self.outputs.len() as nat, |k: int| self.outputs[k].successors@),
        }
    }
}

impl<F, O> View for Model<F, O> {
    type V = Graph<F, O>;

    open spec fn view(&self) -> Graph<F, O> {
        Graph {
            nodes: Seq::new(self.nodes.len() as nat, |n: int| self.nodes[n].shape()),
            inputs: self.inputs@,
            outputs: self.outputs@,
            labels: Seq::new(
                self.labels.len() as nat,
                |i: int| (self.labels[i].0, self.labels[i].1@),
            ),
        }
    }
}

impl<F: Fact, O: Operator> Model<F, O> {
    /// The model holds a consistent graph, and each node knows its number.
    pub open spec fn wf(&self) -> bool {
        &&& self@.wf()
        &&& forall|n: int| 0 <= n < self.nodes.len() ==> (#[trigger] self.nodes[n]).id == n
    }

    /// An empty model.
    pub fn new() -> (r: Self)
        ensures
            r.wf(),
            r@ == Graph::<F, O>::empty(),
    {
        let r = Model {
            nodes: Vec::new(),
            inputs: Vec::new(),
            outputs: Vec::new(),
            labels: Vec::new(),
        };
        assert(r@.labels =~= Seq::<(OutletId, Seq<char>)>::empty());
        assert(r@ =~~= Graph::<F, O>::empty());
        r
    }

    /// Appends a node without inputs that has one output for each of
    /// `facts`, and gives its number.
    pub fn add_node(&mut self, name: String, op: O, facts: Vec<F>) -> (id: usize)
        requires
            old(self).wf(),
        ensures
            final(self).wf(),
            id == old(self).nodes.len(),
            final(self).nodes.len() == id + 1,
            final(self)@ == old(self)@.add_node(name@, op, facts@),
    {
        let mut facts = facts;
        let ghost all = facts@;
        let mut outputs: Vec<Outlet<F>> = Vec::new();
        while facts.len() > 0
            invariant
                outputs.len() + facts.len() == all.len(),
                facts@ == all.skip(outputs.len() as int),
                forall|k: int|
                    0 <= k < outputs.len() ==> (#[trigger] outputs[k]).fact == all[k]
                        && outputs[k].successors.len() == 0,
            decreases facts.len(),
        {
            let fact = facts.remove(0);
            outputs.push(Outlet { fact, successors: Vec::new() });
        }
        let id = self.nodes.len();
        self.nodes.push(Node { id, name, inputs: Vec::new(), op, outputs });
        proof {
            lemma_add_node_wf(old(self)@, name@, op, all);
            assert(self.nodes[id as int].shape() =~~= old(self)@.add_node(name@, op, all).nodes[id as int]);
            assert(self@ =~~= old(self)@.add_node(name@, op, all));
        }
        id
    }

    /// Appends a source node with the one output `fact`, and declares its
    /// outlet as one more input of the model.
    pub fn add_source(&mut self, name: String, fact: F) -> (o: OutletId)
        requires
            old(self).wf(),
        ensures
            final(self).wf(),
            o == (OutletId { node: old(self).nodes.len(), slot: 0 }),
            final(self)@ == old(self)@.add_source(name@, O::source_spec(), fact),
            final(self)@.nodes.last().op.is_source_spec(),
    {
        let mut facts: Vec<F> = Vec::new();
        facts.push(fact);
        let ghost label = name@;
        let id = self.add_node(name, O::source(), facts);
        let o = OutletId { node: id, slot: 0 };
        self.inputs.push(o);
        proof {
            assert(self.nodes.len() == old(self).nodes.len() + 1);
            lemma_add_source_wf(old(self)@, label, O::source_spec(), fact);
            assert(self@ =~~= old(self)@.add_source(label, O::source_spec(), fact));
        }
        o
    }

    /// Makes `inlet` read `outlet`. The inputs of a node are connected in
    /// order: `inlet` is either connected already, and then leaves the
    /// outlet it read, or it is the next input of its node.
    pub fn add_edge(&mut self, outlet: OutletId, inlet: InletId) -> (r: Result<(), ModelError>)
        requires
            old(self).wf(),
        ensures
            final(self).wf(),
            r == old(self)@.edge_check(outlet, inlet),
            r is Err ==> final(self)@ == old(self)@,
            r is Ok ==> final(self)@ == old(self)@.add_edge(outlet, inlet),
    {
        if inlet.node >= self.nodes.len() {
            return Err(ModelError::NoSuchNode(inlet.node));
        }
        if outlet.node >= self.nodes.len() || outlet.slot >= self.nodes[outlet.node].outputs.len() {
            return Err(ModelError::NoSuchOutlet(outlet));
        }
        let n_in = self.nodes[inlet.node].inputs.len();
        if inlet.slot > n_in {
            return Err(ModelError::InputOutOfOrder(inlet));
        }
        let ghost g = self@;
        if inlet.slot < n_in {
            let prev = self.nodes[inlet.node].inputs[inlet.slot];
            proof {
                assert(g.has_inlet(inlet));
                assert(g.input(inlet) == prev);
                assert(g.has_outlet(prev));
                assert(g.successors(prev).contains(inlet));
                assert(g.successors(prev).no_duplicates());
            }
            let mut idx: usize = 0;
            while idx < self.nodes[prev.node].outputs[prev.slot].successors.len()
                && self.nodes[prev.node].outputs[prev.slot].successors[idx] != inlet
                invariant
                    *self == *old(self),
                    g == self@,
                    g.has_outlet(prev),
                    0 <= idx <= g.successors(prev).len(),
                    forall|j: int| 0 <= j < idx ==> g.successors(prev)[j] != inlet,
                decreases g.successors(prev).len() - idx,
            {
                idx += 1;
            }
            proof {
                let k = choose|k: int|
                    0 <= k < g.successors(prev).len() && g.successors(prev)[k] == inlet;
                assert(idx <= k);
                lemma_index_of_unique(g.successors(prev), inlet, idx as int);
            }
            self.nodes[prev.node].outputs[prev.slot].successors.remove(idx);
            assert(self@.successors(prev) == without(g.successors(prev), inlet));
        }
        let ghost s1 = *self;
        proof {
            assert forall|o: OutletId| g.has_outlet(o) implies #[trigger] s1@.successors(o)
                == without(g.successors(o), inlet) by {
                if g.has_inlet(inlet) && o == g.input(inlet) {
                } else {
                    if g.successors(o).contains(inlet) {
                        lemma_successor_of(g, o, inlet);
                    }
                }
            }
        }
        self.nodes[outlet.node].outputs[outlet.slot].successors.push(inlet);
        if inlet.slot == n_in {
            self.nodes[inlet.node].inputs.push(outlet);
        } else {
            self.nodes[inlet.node].inputs[inlet.slot] = outlet;
        }
        proof {
            lemma_add_edge_wf(g, outlet, inlet);
            let h = g.add_edge(outlet, inlet);
            assert forall|n: int| 0 <= n < self.nodes.len() implies #[trigger] self@.nodes[n]
                =~~= h.nodes[n] by {
                assert forall|k: int| 0 <= k < self.nodes[n].outputs.len() implies self@.nodes[n].successors[k]
                    == h.nodes[n].successors[k] by {
                    let o = OutletId { node: n as usize, slot: k as usize };
                    assert(g.has_outlet(o));
                    assert(s1@.successors(o) == without(g.successors(o), inlet));
                }
            }
            assert(self@ =~~= h);
        }
        Ok(())
    }
}

} // verus!
