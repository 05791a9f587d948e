//! The order in which the nodes of a model are evaluated.

use vstd::prelude::*;
use crate::model::fact::Fact;
use crate::model::graph::{Graph, InletId, Model, ModelError, Operator};

verus! {

impl<F, O> Graph<F, O> {
    /// Whether an outlet of the node `n` is an input of the graph.
    pub open spec fn is_input_node(self, n: int) -> bool {
        exists|k: int| 0 <= k < self.inputs.len() && #[trigger] self.inputs[k].node == n
    }

    /// Whether the node `a` reads an outlet of the node `b`.
    pub open spec fn reads(self, a: int, b: int) -> bool {
        exists|k: int| 0 <= k < self.nodes[a].inputs.len() && #[trigger] self.nodes[a].inputs[k].node == b
    }

    /// Whether `order` is an evaluation order: it lists nodes of the graph,
    /// none twice and those of the outputs among them, and each node comes
    /// after the nodes it reads, unless it is a node of the inputs, which is
    /// given from outside.
    pub open spec fn is_eval_order(self, order: Seq<usize>) -> bool {
        &&& forall|p: int| 0 <= p < order.len() ==> (#[trigger] order[p]) < self.nodes.len()
        &&& order.no_duplicates()
        &&& forall|k: int|
            0 <= k < self.outputs.len() ==> order.contains(#[trigger] self.outputs[k].node)
        &&& forall|p: int, j: int|
            0 <= p < order.len() && !self.is_input_node(order[p] as int) && 0 <= j
                < self.nodes[order[p] as int].inputs.len() ==> #[trigger] reads_earlier(
                self,
                order,
                p,
                j,
            )
    }

    /// Whether `chain` is a chain of nodes to be computed, each reading the
    /// next.
    pub open spec fn is_chain(self, chain: Seq<usize>) -> bool {
        &&& forall|i: int|
            0 <= i < chain.len() ==> (#[trigger] chain[i]) < self.nodes.len() && !self.is_input_node(
                chain[i] as int,
            )
        &&& forall|i: int|
            0 <= i < chain.len() - 1 ==> self.reads(#[trigger] chain[i] as int, chain[i + 1] as int)
    }

    /// Whether `chain` leads from a node of the outputs to the node `n`,
    /// through nodes to be computed, each reading the next.
    pub open spec fn leads_to(self, chain: Seq<usize>, n: int) -> bool {
        &&& chain.len() > 0
        &&& chain.last() == n
        &&& exists|k: int| 0 <= k < self.outputs.len() && #[trigger] self.outputs[k].node == chain[0]
        &&& forall|i: int|
            0 <= i < chain.len() - 1 ==> (#[trigger] chain[i]) < self.nodes.len()
                && !self.is_input_node(chain[i] as int) && self.reads(
                chain[i] as int,
                chain[i + 1] as int,
            )
    }

    /// Whether the outputs depend on the node `n`: it is a node of the
    /// outputs, or a node to be computed that they depend on reads it.
    pub open spec fn needed(self, n: int) -> bool {
        exists|chain: Seq<usize>| #[trigger] self.leads_to(chain, n)
    }

    /// Whether some nodes to be computed, on which the outputs depend,
    /// depend on each other in a circle.
    pub open spec fn has_cycle(self) -> bool {
        exists|chain: Seq<usize>|
            chain.len() > 0 && #[trigger] self.is_chain(chain) && self.needed(chain[0] as int)
                && self.reads(chain.last() as int, chain[0] as int)
    }
}

/// Whether `x` stands among the first `p` of `order`.
pub open spec fn comes_before(order: Seq<usize>, p: int, x: usize) -> bool {
    exists|q: int| 0 <= q < p && order[q] == x
}

/// Whether the node that input `j` of the node at place `p` of `order`
/// reads stands before it.
pub open spec fn reads_earlier<F, O>(g: Graph<F, O>, order: Seq<usize>, p: int, j: int) -> bool {
    comes_before(order, p, g.nodes[order[p] as int].inputs[j].node)
}

/// How many of `marks` are `0`.
pub open spec fn unmarked(marks: Seq<u8>) -> nat
    decreases marks.len(),
{
    if marks.len() == 0 {
        0
    } else {
        unmarked(marks.drop_last()) + (if marks.last() == 0 {
            1nat
        } else {
            0nat
        })
    }
}

/// Marking an unmarked place leaves one less; changing a mark leaves as
/// many.
pub proof fn lemma_unmarked_update(marks: Seq<u8>, i: int, m: u8)
    requires
        0 <= i < marks.len(),
        m != 0,
    ensures
        marks[i] == 0 ==> unmarked(marks.update(i, m)) + 1 == unmarked(marks),
        marks[i] != 0 ==> unmarked(marks.update(i, m)) == unmarked(marks),
    decreases marks.len(),
{
    let n = marks.len() - 1;
    if i == n {
        assert(marks.update(i, m).drop_last() =~= marks.drop_last());
    } else {
        lemma_unmarked_update(marks.drop_last(), i, m);
        assert(marks.update(i, m).drop_last() =~= marks.drop_last().update(i, m));
    }
}

/// What the search holds between two steps: `marks` tells the nodes that are
/// done (`2`), those being worked on (`1`) and the others (`0`); `order`
/// lists the nodes that are done, each after the nodes it reads; `chain`
/// lists those being worked on, each reading the next.
pub open spec fn searching<F, O>(
    g: Graph<F, O>,
    marks: Seq<u8>,
    order: Seq<usize>,
    chain: Seq<usize>,
) -> bool {
    &&& marks.len() == g.nodes.len()
    &&& forall|n: int| 0 <= n < marks.len() ==> #[trigger] marks[n] <= 2
    &&& forall|p: int| 0 <= p < order.len() ==> (#[trigger] order[p]) < g.nodes.len()
    &&& order.no_duplicates()
    &&& forall|n: usize|
        n < marks.len() ==> ((#[trigger] marks[n as int]) == 2 <==> order.contains(n))
    &&& forall|p: int, j: int|
        0 <= p < order.len() && !g.is_input_node(order[p] as int) && 0 <= j
            < g.nodes[order[p] as int].inputs.len() ==> #[trigger] reads_earlier(g, order, p, j)
    &&& g.is_chain(chain)
    &&& forall|n: usize|
        n < marks.len() ==> ((#[trigger] marks[n as int]) == 1 <==> chain.contains(n))
    &&& forall|p: int| 0 <= p < order.len() ==> g.needed(#[trigger] order[p] as int)
    &&& forall|i: int| 0 <= i < chain.len() ==> g.needed(#[trigger] chain[i] as int)
}

impl<F: Fact, O: Operator> Model<F, O> {
    /// Whether an outlet of the node `n` is an input of the model.
    pub fn is_input_node(&self, n: usize) -> (r: bool)
        ensures
            r == self@.is_input_node(n as int),
    {
        let mut k: usize = 0;
        while k < self.inputs.len()
            invariant
                0 <= k <= self.inputs.len(),
                forall|j: int| 0 <= j < k ==> self.inputs[j].node != n,
            decreases self.inputs.len() - k,
        {
            if self.inputs[k].node == n {
                assert(self@.inputs[k as int].node == n);
                return true;
            }
            k += 1;
        }
        false
    }

    /// Puts the node `n` into `order`, behind the nodes it reads.
    fn visit(
        &self,
        n: usize,
        marks: &mut Vec<u8>,
        order: &mut Vec<usize>,
        Ghost(chain): Ghost<Seq<usize>>,
    ) -> (r: Result<(), ModelError>)
        requires
            self.wf(),
            n < self.nodes.len(),
            old(marks)[n as int] == 0,
            searching(self@, old(marks)@, old(order)@, chain),
            chain.len() > 0 ==> self@.reads(chain.last() as int, n as int),
            self@.needed(n as int),
        ensures
            match r {
                Ok(_) => {
                    &&& searching(self@, final(marks)@, final(order)@, chain)
                    &&& final(marks)[n as int] == 2
                    &&& unmarked(final(marks)@) < unmarked(old(marks)@)
                    &&& final(marks).len() == old(marks).len()
                    &&& forall|m: int|
                        0 <= m < old(marks).len() && old(marks)[m] == 2 ==> final(marks)[m] == 2
                },
                Err(e) => e == ModelError::Cycle && self@.has_cycle(),
            },
        decreases unmarked(old(marks)@),
    {
        let ghost g = self@;
        if self.is_input_node(n) {
            proof {
                lemma_unmarked_update(marks@, n as int, 2);
            }
            marks.set(n, 2);
            order.push(n);
            proof {
                lemma_done(g, old(marks)@, old(order)@, chain, n);
            }
            return Ok(());
        }
        proof {
            lemma_unmarked_update(marks@, n as int, 1);
            lemma_begun(g, marks@, order@, chain, n);
        }
        marks.set(n, 1);
        let ghost deeper = chain.push(n);
        let ghost begun = marks@;
        proof {
            assert(g.nodes[n as int].inputs.len() == self.nodes[n as int].inputs.len());
            lemma_inputs_valid(g, n);
        }
        let mut j: usize = 0;
        while j < self.nodes[n as usize].inputs.len()
            invariant
                self.wf(),
                g == self@,
                n < self.nodes.len(),
                !g.is_input_node(n as int),
                g.needed(n as int),
                deeper == chain.push(n),
                0 <= j <= self.nodes[n as int].inputs.len(),
                searching(g, marks@, order@, deeper),
                unmarked(marks@) <= unmarked(begun),
                unmarked(begun) < unmarked(old(marks)@),
                marks.len() == old(marks).len(),
                forall|m: int| 0 <= m < old(marks).len() && old(marks)[m] == 2 ==> marks[m] == 2,
                forall|k: int|
                    0 <= k < g.nodes[n as int].inputs.len() ==> (#[trigger] g.nodes[n as int].inputs[k]).node
                        < g.nodes.len(),
                forall|k: int|
                    0 <= k < j ==> marks[(#[trigger] g.nodes[n as int].inputs[k]).node as int] == 2,
            decreases self.nodes[n as int].inputs.len() - j,
        {
            let p = self.nodes[n].inputs[j].node;
            proof {
                let inlet = InletId { node: n, slot: j };
                assert(g.has_inlet(inlet));
                assert(g.has_outlet(g.input(inlet)));
                assert(g.reads(n as int, p as int));
            }
            if marks[p] == 1 {
                proof {
                    lemma_needed_next(g, n, p);
                    lemma_closes(g, deeper, p);
                }
                return Err(ModelError::Cycle);
            }
            if marks[p] == 0 {
                let ghost before = marks@;
                proof {
                    lemma_needed_next(g, n, p);
                }
                match self.visit(p, marks, order, Ghost(deeper)) {
                    Ok(_) => {},
                    Err(e) => {
                        return Err(e);
                    },
                }
            }
            j += 1;
        }
        proof {
            lemma_unmarked_update(marks@, n as int, 2);
            assert(deeper.contains(n as usize)) by {
                assert(deeper[deeper.len() - 1] == n);
            }
            lemma_finished(g, marks@, order@, chain, n);
        }
        marks.set(n, 2);
        order.push(n);
        Ok(())
    }

    /// An order in which to evaluate the nodes that the outputs depend on:
    /// each after the nodes it reads, the nodes of the inputs being given.
    /// There is none where nodes to be computed depend on each other in a
    /// circle.
    pub fn eval_order(&self) -> (r: Result<Vec<usize>, ModelError>)
        requires
            self.wf(),
        ensures
            match r {
                Ok(order) => !self@.has_cycle() && self@.is_eval_order(order@) && forall|n: usize|
                    order@.contains(n) <==> self@.needed(n as int),
                Err(e) => e == ModelError::Cycle && self@.has_cycle(),
            },
    {
        let ghost g = self@;
        let mut marks: Vec<u8> = Vec::new();
        let mut i: usize = 0;
        while i < self.nodes.len()
            invariant
                0 <= i <= self.nodes.len(),
                marks.len() == i,
                forall|n: int| 0 <= n < i ==> marks[n] == 0,
            decreases self.nodes.len() - i,
        {
            marks.push(0);
            i += 1;
        }
        let mut order: Vec<usize> = Vec::new();
        let mut k: usize = 0;
        assert(g.is_chain(Seq::<usize>::empty()));
        proof {
            assert forall|j: int| 0 <= j < g.outputs.len() implies (#[trigger] g.outputs[j]).node
                < g.nodes.len() by {
                assert(g.has_outlet(g.outputs[j]));
            }
        }
        while k < self.outputs.len()
            invariant
                self.wf(),
                g == self@,
                0 <= k <= self.outputs.len(),
                searching(g, marks@, order@, Seq::<usize>::empty()),
                forall|j: int| 0 <= j < g.outputs.len() ==> (#[trigger] g.outputs[j]).node < g.nodes.len(),
                forall|j: int| 0 <= j < k ==> marks[(#[trigger] g.outputs[j]).node as int] == 2,
            decreases self.outputs.len() - k,
        {
            let target = self.outputs[k].node;
            assert(g.has_outlet(g.outputs[k as int]));
            proof {
                let chain = seq![target];
                assert(g.outputs[k as int].node == chain[0]);
                assert(g.leads_to(chain, target as int));
            }
            if marks[target] == 0 {
                match self.visit(target, &mut marks, &mut order, Ghost(Seq::empty())) {
                    Ok(_) => {},
                    Err(e) => {
                        return Err(e);
                    },
                }
            } else {
                assert(marks[target as int] != 1) by {
                    if marks[target as int] == 1 {
                        assert(Seq::<usize>::empty().contains(target));
                    }
                }
                assert(marks[target as int] <= 2);
            }
            k += 1;
        }
        proof {
            lemma_search_over(g, marks@, order@);
            assert forall|n: usize| order@.contains(n) <==> g.needed(n as int) by {
                if order@.contains(n) {
                    let p = choose|p: int| 0 <= p < order.len() && order@[p] == n;
                    assert(g.needed(order@[p] as int));
                }
                if g.needed(n as int) {
                    let chain = choose|chain: Seq<usize>| #[trigger] g.leads_to(chain, n as int);
                    lemma_needed_in_order(g, order@, chain, chain.len() - 1);
                }
            }
            lemma_order_excludes_cycle(g, order@);
        }
        Ok(order)
    }
}

/// The nodes that a node of a consistent graph reads are nodes of the graph.
pub proof fn lemma_inputs_valid<F, O>(g: Graph<F, O>, n: usize)
    requires
        g.wf(),
        n < g.nodes.len(),
        g.nodes[n as int].inputs.len() <= usize::MAX,
    ensures
        forall|k: int|
            0 <= k < g.nodes[n as int].inputs.len() ==> (#[trigger] g.nodes[n as int].inputs[k]).node
                < g.nodes.len(),
{
    assert forall|k: int| 0 <= k < g.nodes[n as int].inputs.len() implies (
    #[trigger] g.nodes[n as int].inputs[k]).node < g.nodes.len() by {
        let inlet = InletId { node: n, slot: k as usize };
        assert(g.has_inlet(inlet));
        assert(g.has_outlet(g.input(inlet)));
    }
}

/// The outlets that a node of a consistent graph reads are outlets of the
/// graph.
pub proof fn lemma_inputs_outlets<F, O>(g: Graph<F, O>, n: usize)
    requires
        g.wf(),
        n < g.nodes.len(),
        g.nodes[n as int].inputs.len() <= usize::MAX,
    ensures
        forall|k: int|
            0 <= k < g.nodes[n as int].inputs.len() ==> g.has_outlet(
                #[trigger] g.nodes[n as int].inputs[k],
            ),
{
    assert forall|k: int| 0 <= k < g.nodes[n as int].inputs.len() implies g.has_outlet(
        #[trigger] g.nodes[n as int].inputs[k],
    ) by {
        let inlet = InletId { node: n, slot: k as usize };
        assert(g.has_inlet(inlet));
        assert(g.has_outlet(g.input(inlet)));
    }
}

/// A search that has done with the nodes of the outputs, and is working on
/// none, has found an evaluation order.
pub proof fn lemma_search_over<F, O>(g: Graph<F, O>, marks: Seq<u8>, order: Seq<usize>)
    requires
        searching(g, marks, order, Seq::<usize>::empty()),
        forall|j: int|
            0 <= j < g.outputs.len() ==> (#[trigger] g.outputs[j]).node < g.nodes.len()
                && marks[g.outputs[j].node as int] == 2,
    ensures
        g.is_eval_order(order),
{
    assert forall|k: int| 0 <= k < g.outputs.len() implies order.contains(
        #[trigger] g.outputs[k].node,
    ) by {
        let t = g.outputs[k].node;
        assert(marks[t as int] == 2);
    }
}

/// What a needed node to be computed reads is needed.
pub proof fn lemma_needed_next<F, O>(g: Graph<F, O>, n: usize, p: usize)
    requires
        g.needed(n as int),
        n < g.nodes.len(),
        !g.is_input_node(n as int),
        g.reads(n as int, p as int),
    ensures
        g.needed(p as int),
{
    let chain = choose|chain: Seq<usize>| #[trigger] g.leads_to(chain, n as int);
    let longer = chain.push(p);
    assert(longer[0] == chain[0]);
    assert forall|i: int| 0 <= i < longer.len() - 1 implies (#[trigger] longer[i]) < g.nodes.len()
        && !g.is_input_node(longer[i] as int) && g.reads(longer[i] as int, longer[i + 1] as int) by {
        if i < chain.len() - 1 {
            assert(longer[i] == chain[i]);
            assert(longer[i + 1] == chain[i + 1]);
        } else {
            assert(longer[i] == n);
            assert(longer[i + 1] == p);
        }
    }
    assert(g.leads_to(longer, p as int));
}

/// An evaluation order lists the nodes of a chain that leads from the
/// outputs.
pub proof fn lemma_needed_in_order<F, O>(g: Graph<F, O>, order: Seq<usize>, chain: Seq<usize>, i: int)
    requires
        g.is_eval_order(order),
        0 <= i < chain.len(),
        g.leads_to(chain, chain.last() as int),
    ensures
        order.contains(chain[i]),
    decreases i,
{
    if i == 0 {
        let k = choose|k: int| 0 <= k < g.outputs.len() && #[trigger] g.outputs[k].node == chain[0];
        assert(order.contains(g.outputs[k].node));
    } else {
        lemma_needed_in_order(g, order, chain, i - 1);
        let a = chain[i - 1];
        let p = choose|p: int| 0 <= p < order.len() && order[p] == a;
        assert(g.reads(a as int, chain[i] as int));
        let j = choose|j: int|
            0 <= j < g.nodes[a as int].inputs.len() && #[trigger] g.nodes[a as int].inputs[j].node
                == chain[i];
        assert(reads_earlier(g, order, p, j));
        let q = choose|q: int| 0 <= q < p && order[q] == g.nodes[order[p] as int].inputs[j].node;
        assert(order[q] == chain[i]);
    }
}

/// In an evaluation order, what a listed node to be computed reads is
/// listed before it.
pub proof fn lemma_read_comes_earlier<F, O>(g: Graph<F, O>, order: Seq<usize>, a: usize, b: usize)
    requires
        g.is_eval_order(order),
        order.contains(a),
        !g.is_input_node(a as int),
        g.reads(a as int, b as int),
    ensures
        order.contains(b),
        order.index_of(b) < order.index_of(a),
{
    let p = order.index_of(a);
    let j = choose|j: int|
        0 <= j < g.nodes[a as int].inputs.len() && #[trigger] g.nodes[a as int].inputs[j].node == b;
    assert(reads_earlier(g, order, p, j));
    let q = choose|q: int| 0 <= q < p && order[q] == g.nodes[order[p] as int].inputs[j].node;
    assert(order[q] == b);
    assert(order.contains(b));
    assert(order[order.index_of(b)] == b);
}

/// In an evaluation order that lists every needed node, the nodes of a
/// chain that begins at a needed node are listed, each before the one that
/// reads it.
pub proof fn lemma_chain_descends<F, O>(g: Graph<F, O>, order: Seq<usize>, chain: Seq<usize>, i: int)
    requires
        g.is_eval_order(order),
        forall|n: usize| g.needed(n as int) ==> order.contains(n),
        g.is_chain(chain),
        0 <= i < chain.len(),
        g.needed(chain[0] as int),
    ensures
        g.needed(chain[i] as int),
        order.contains(chain[i]),
        order.index_of(chain[i]) + i <= order.index_of(chain[0]),
    decreases i,
{
    if i > 0 {
        lemma_chain_descends(g, order, chain, i - 1);
        let a = chain[i - 1];
        let b = chain[i];
        assert(a < g.nodes.len() && !g.is_input_node(a as int));
        assert(g.reads(a as int, b as int));
        lemma_needed_next(g, a, b);
        lemma_read_comes_earlier(g, order, a, b);
    }
}

/// Where an evaluation order lists every needed node, no needed nodes to be
/// computed depend on each other in a circle.
pub proof fn lemma_order_excludes_cycle<F, O>(g: Graph<F, O>, order: Seq<usize>)
    requires
        g.is_eval_order(order),
        forall|n: usize| g.needed(n as int) ==> order.contains(n),
    ensures
        !g.has_cycle(),
{
    if g.has_cycle() {
        let chain = choose|chain: Seq<usize>|
            chain.len() > 0 && #[trigger] g.is_chain(chain) && g.needed(chain[0] as int) && g.reads(
                chain.last() as int,
                chain[0] as int,
            );
        let last = chain.len() - 1;
        lemma_chain_descends(g, order, chain, last);
        assert(!g.is_input_node(chain[last] as int));
        lemma_read_comes_earlier(g, order, chain[last], chain[0]);
    }
}

/// A node of the inputs is done at once.
pub proof fn lemma_done<F, O>(
    g: Graph<F, O>,
    marks: Seq<u8>,
    order: Seq<usize>,
    chain: Seq<usize>,
    n: usize,
)
    requires
        searching(g, marks, order, chain),
        n < g.nodes.len(),
        marks[n as int] == 0,
        g.is_input_node(n as int),
        g.needed(n as int),
    ensures
        searching(g, marks.update(n as int, 2), order.push(n), chain),
{
    let m2 = marks.update(n as int, 2);
    let o2 = order.push(n);
    assert(!order.contains(n));
    assert forall|a: int, b: int| 0 <= a < o2.len() && 0 <= b < o2.len() && a != b implies o2[a]
        != o2[b] by {
        if a < order.len() && b < order.len() {
        } else if a < order.len() {
            assert(order.contains(order[a]));
        } else {
            assert(order.contains(order[b]));
        }
    }
    assert forall|x: usize| x < m2.len() implies ((#[trigger] m2[x as int]) == 2 <==> o2.contains(
        x,
    )) by {
        if x == n {
            assert(o2[o2.len() - 1] == n);
        } else {
            assert(marks[x as int] == 2 <==> order.contains(x));
            if marks[x as int] == 2 {
                let q = choose|q: int| 0 <= q < order.len() && order[q] == x;
                assert(o2[q] == x);
            }
            if o2.contains(x) {
                let q = choose|q: int| 0 <= q < o2.len() && o2[q] == x;
                assert(q < order.len());
                assert(order[q] == x);
            }
        }
    }
    assert forall|p: int, j: int|
        0 <= p < o2.len() && !g.is_input_node(o2[p] as int) && 0 <= j
            < g.nodes[o2[p] as int].inputs.len() implies #[trigger] reads_earlier(g, o2, p, j) by {
        assert(p < order.len()) by {
            if p == order.len() {
                assert(o2[p] == n);
            }
        }
        assert(o2[p] == order[p]);
        assert(reads_earlier(g, order, p, j));
        let src = g.nodes[order[p] as int].inputs[j].node;
        let q = choose|q: int| 0 <= q < p && order[q] == src;
        assert(o2[q] == src);
    }
    assert forall|x: usize| x < m2.len() implies ((#[trigger] m2[x as int]) == 1 <==> chain.contains(
        x,
    )) by {
        assert(marks[x as int] == 1 <==> chain.contains(x));
    }
    assert forall|p: int| 0 <= p < o2.len() implies g.needed(#[trigger] o2[p] as int) by {
        if p < order.len() {
            assert(o2[p] == order[p]);
        }
    }
}

/// Work begins on a node: it joins the chain.
pub proof fn lemma_begun<F, O>(
    g: Graph<F, O>,
    marks: Seq<u8>,
    order: Seq<usize>,
    chain: Seq<usize>,
    n: usize,
)
    requires
        searching(g, marks, order, chain),
        n < g.nodes.len(),
        marks[n as int] == 0,
        !g.is_input_node(n as int),
        g.needed(n as int),
        chain.len() > 0 ==> g.reads(chain.last() as int, n as int),
    ensures
        searching(g, marks.update(n as int, 1), order, chain.push(n)),
{
    let m2 = marks.update(n as int, 1);
    let c2 = chain.push(n);
    assert forall|i: int| 0 <= i < c2.len() implies g.needed(#[trigger] c2[i] as int) by {
        if i < chain.len() {
            assert(c2[i] == chain[i]);
        }
    }
    assert forall|x: usize| x < m2.len() implies ((#[trigger] m2[x as int]) == 2 <==> order.contains(
        x,
    )) by {
        assert(marks[x as int] == 2 <==> order.contains(x));
    }
    assert forall|x: usize| x < m2.len() implies ((#[trigger] m2[x as int]) == 1 <==> c2.contains(
        x,
    )) by {
        if x == n {
            assert(c2[c2.len() - 1] == n);
        } else {
            assert(marks[x as int] == 1 <==> chain.contains(x));
            if marks[x as int] == 1 {
                let q = choose|q: int| 0 <= q < chain.len() && chain[q] == x;
                assert(c2[q] == x);
            }
            if c2.contains(x) {
                let q = choose|q: int| 0 <= q < c2.len() && c2[q] == x;
                assert(q < chain.len());
                assert(chain[q] == x);
            }
        }
    }
    assert forall|i: int| 0 <= i < c2.len() implies (#[trigger] c2[i]) < g.nodes.len()
        && !g.is_input_node(c2[i] as int) by {
        if i < chain.len() {
            assert(c2[i] == chain[i]);
        }
    }
    assert forall|i: int| 0 <= i < c2.len() - 1 implies g.reads(
        #[trigger] c2[i] as int,
        c2[i + 1] as int,
    ) by {
        if i < chain.len() - 1 {
            assert(g.reads(chain[i] as int, chain[i + 1] as int));
        } else {
            assert(c2[i] == chain.last());
            assert(c2[i + 1] == n);
        }
    }
}

/// Work on the last node of the chain is finished: it leaves the chain and
/// joins the order.
pub proof fn lemma_finished<F, O>(
    g: Graph<F, O>,
    marks: Seq<u8>,
    order: Seq<usize>,
    chain: Seq<usize>,
    n: usize,
)
    requires
        searching(g, marks, order, chain.push(n)),
        n < g.nodes.len(),
        g.needed(n as int),
        !chain.contains(n),
        forall|k: int|
            0 <= k < g.nodes[n as int].inputs.len() ==> (#[trigger] g.nodes[n as int].inputs[k]).node
                < g.nodes.len() && marks[g.nodes[n as int].inputs[k].node as int] == 2,
    ensures
        searching(g, marks.update(n as int, 2), order.push(n), chain),
{
    let m2 = marks.update(n as int, 2);
    let o2 = order.push(n);
    let c1 = chain.push(n);
    assert(c1[c1.len() - 1] == n);
    assert(c1.contains(n));
    assert(marks[n as int] == 1);
    assert(!order.contains(n));
    assert forall|a: int, b: int| 0 <= a < o2.len() && 0 <= b < o2.len() && a != b implies o2[a]
        != o2[b] by {
        if a < order.len() && b < order.len() {
        } else if a < order.len() {
            assert(order.contains(order[a]));
        } else {
            assert(order.contains(order[b]));
        }
    }
    assert forall|x: usize| x < m2.len() implies ((#[trigger] m2[x as int]) == 2 <==> o2.contains(
        x,
    )) by {
        if x == n {
            assert(o2[o2.len() - 1] == n);
        } else {
            assert(marks[x as int] == 2 <==> order.contains(x));
            if marks[x as int] == 2 {
                let q = choose|q: int| 0 <= q < order.len() && order[q] == x;
                assert(o2[q] == x);
            }
            if o2.contains(x) {
                let q = choose|q: int| 0 <= q < o2.len() && o2[q] == x;
                assert(q < order.len());
                assert(order[q] == x);
            }
        }
    }
    assert forall|p: int, j: int|
        0 <= p < o2.len() && !g.is_input_node(o2[p] as int) && 0 <= j
            < g.nodes[o2[p] as int].inputs.len() implies #[trigger] reads_earlier(g, o2, p, j) by {
        if p < order.len() {
            assert(o2[p] == order[p]);
            assert(reads_earlier(g, order, p, j));
            let src = g.nodes[order[p] as int].inputs[j].node;
            let q = choose|q: int| 0 <= q < p && order[q] == src;
            assert(o2[q] == src);
        } else {
            assert(o2[p] == n);
            let src = g.nodes[n as int].inputs[j].node;
            assert(g.nodes[n as int].inputs[j].node < g.nodes.len());
            assert(marks[src as int] == 2);
            assert(order.contains(src));
            let q = choose|q: int| 0 <= q < order.len() && order[q] == src;
            assert(o2[q] == src);
        }
    }
    assert forall|x: usize| x < m2.len() implies ((#[trigger] m2[x as int]) == 1 <==> chain.contains(
        x,
    )) by {
        if x != n {
            assert(marks[x as int] == 1 <==> c1.contains(x));
            if marks[x as int] == 1 {
                let q = choose|q: int| 0 <= q < c1.len() && c1[q] == x;
                assert(q < chain.len());
                assert(chain[q] == x);
            }
            if chain.contains(x) {
                let q = choose|q: int| 0 <= q < chain.len() && chain[q] == x;
                assert(c1[q] == x);
            }
        }
    }
    assert forall|i: int| 0 <= i < chain.len() implies (#[trigger] chain[i]) < g.nodes.len()
        && !g.is_input_node(chain[i] as int) by {
        assert(c1[i] == chain[i]);
    }
    assert forall|i: int| 0 <= i < chain.len() - 1 implies g.reads(
        #[trigger] chain[i] as int,
        chain[i + 1] as int,
    ) by {
        assert(g.reads(c1[i] as int, c1[i + 1] as int));
    }
    assert forall|i: int| 0 <= i < chain.len() implies g.needed(#[trigger] chain[i] as int) by {
        assert(c1[i] == chain[i]);
    }
}

/// A chain whose last node reads a node of the chain closes a circle.
pub proof fn lemma_closes<F, O>(g: Graph<F, O>, chain: Seq<usize>, p: usize)
    requires
        g.is_chain(chain),
        chain.len() > 0,
        chain.contains(p),
        g.needed(p as int),
        g.reads(chain.last() as int, p as int),
    ensures
        g.has_cycle(),
{
    let i = choose|i: int| 0 <= i < chain.len() && chain[i] == p;
    let circle = chain.subrange(i, chain.len() as int);
    assert(circle[0] == p);
    assert(circle.last() == chain.last());
    assert forall|k: int| 0 <= k < circle.len() implies (#[trigger] circle[k]) < g.nodes.len()
        && !g.is_input_node(circle[k] as int) by {
        assert(circle[k] == chain[i + k]);
    }
    assert forall|k: int| 0 <= k < circle.len() - 1 implies g.reads(
        #[trigger] circle[k] as int,
        circle[k + 1] as int,
    ) by {
        assert(g.reads(chain[i + k] as int, chain[i + k + 1] as int));
    }
    assert(g.is_chain(circle));
}

} // verus!
