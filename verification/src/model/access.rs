//! Reading a model, declaring its inputs and outputs, labelling outlets and
//! wiring whole nodes.

use vstd::prelude::*;
use crate::model::fact::Fact;
use crate::model::graph::{
    Graph, GNode, InletId, Model, ModelError, Node, Operator, OutletId, label_at, label_from,
    lemma_add_edge_wf, lemma_wf_same_edges,
};

verus! {

/// Whether `a` stands before `b`, by node and then by slot.
pub open spec fn comes_first(a: OutletId, b: OutletId) -> bool {
    a.node < b.node || (a.node == b.node && a.slot < b.slot)
}

/// The first of `outlets`, from `i` on, that is no outlet of `g`.
pub open spec fn first_missing<F, O>(g: Graph<F, O>, outlets: Seq<OutletId>, i: int) -> Option<
    OutletId,
>
    decreases outlets.len() - i,
{
    if i < 0 || i >= outlets.len() {
        None
    } else if !g.has_outlet(outlets[i]) {
        Some(outlets[i])
    } else {
        first_missing(g, outlets, i + 1)
    }
}

/// Where none of `outlets` is missing, each is an outlet of `g`.
pub proof fn lemma_none_missing<F, O>(g: Graph<F, O>, outlets: Seq<OutletId>, i: int)
    requires
        0 <= i,
        first_missing(g, outlets, i).is_none(),
    ensures
        forall|k: int| i <= k < outlets.len() ==> g.has_outlet(#[trigger] outlets[k]),
    decreases outlets.len() - i,
{
    if i < outlets.len() {
        lemma_none_missing(g, outlets, i + 1);
    }
}

/// The outlets of the node `id` with `n` outputs.
pub open spec fn outlets_of(id: usize, n: int) -> Seq<OutletId> {
    Seq::new(n as nat, |k: int| OutletId { node: id, slot: k as usize })
}

/// Connecting inputs changes neither the number of nodes nor their outlets,
/// and keeps a graph consistent.
pub proof fn lemma_connect<F, O>(g: Graph<F, O>, inputs: Seq<OutletId>, n: int)
    requires
        g.wf(),
        g.nodes.len() > 0,
        g.nodes.len() <= usize::MAX,
        g.nodes.last().inputs.len() == 0,
        0 <= n <= inputs.len(),
        n <= usize::MAX,
        forall|k: int| 0 <= k < inputs.len() ==> g.has_outlet(#[trigger] inputs[k]),
    ensures
        g.connect(inputs, n).wf(),
        g.connect(inputs, n).nodes.len() == g.nodes.len(),
        g.connect(inputs, n).nodes.last().inputs.len() == n,
        g.connect(inputs, n).inputs == g.inputs,
        g.connect(inputs, n).outputs == g.outputs,
        g.connect(inputs, n).labels == g.labels,
        forall|o: OutletId| g.has_outlet(o) <==> g.connect(inputs, n).has_outlet(o),
        forall|m: int|
            0 <= m < g.nodes.len() ==> (#[trigger] g.connect(inputs, n).nodes[m]).facts
                == g.nodes[m].facts && g.connect(inputs, n).nodes[m].op == g.nodes[m].op
                && g.connect(inputs, n).nodes[m].name == g.nodes[m].name,
        forall|m: int|
            0 <= m < g.nodes.len() - 1 ==> (#[trigger] g.connect(inputs, n).nodes[m]).inputs
                == g.nodes[m].inputs,
    decreases n,
{
    if n > 0 {
        lemma_connect(g, inputs, n - 1);
        let h = g.connect(inputs, n - 1);
        let inlet = InletId { node: (g.nodes.len() - 1) as usize, slot: (n - 1) as usize };
        assert(h.has_outlet(inputs[n - 1]));
        lemma_add_edge_wf(h, inputs[n - 1], inlet);
    }
}

impl<F: Fact, O: Operator> Model<F, O> {
    /// The inputs of the model, in order.
    pub fn input_outlets(&self) -> (r: &Vec<OutletId>)
        ensures
            r@ == self@.inputs,
    {
        &self.inputs
    }

    /// The outputs of the model, in order.
    pub fn output_outlets(&self) -> (r: &Vec<OutletId>)
        ensures
            r@ == self@.outputs,
    {
        &self.outputs
    }

    /// The first of `outlets` that the model does not have.
    pub fn find_missing(&self, outlets: &Vec<OutletId>) -> (r: Option<OutletId>)
        ensures
            r == first_missing(self@, outlets@, 0),
    {
        let mut i: usize = 0;
        while i < outlets.len()
            invariant
                0 <= i <= outlets.len(),
                first_missing(self@, outlets@, 0) == first_missing(self@, outlets@, i as int),
            decreases outlets.len() - i,
        {
            let o = outlets[i];
            if o.node >= self.nodes.len() || o.slot >= self.nodes[o.node].outputs.len() {
                return Some(o);
            }
            i += 1;
        }
        None
    }

    /// Declares `inputs` as the inputs of the model, if they are outlets of
    /// it.
    pub fn set_input_outlets(&mut self, inputs: &Vec<OutletId>) -> (r: Result<(), ModelError>)
        requires
            old(self).wf(),
        ensures
            final(self).wf(),
            match first_missing(old(self)@, inputs@, 0) {
                Some(o) => r == Err::<(), ModelError>(ModelError::NoSuchOutlet(o)) && final(self)@
                    == old(self)@,
                None => r.is_ok() && final(self)@ == (Graph { inputs: inputs@, ..old(self)@ }),
            },
    {
        match self.find_missing(inputs) {
            Some(o) => Err(ModelError::NoSuchOutlet(o)),
            None => {
                self.inputs = crate::tensor::copied(inputs);
                proof {
                    lemma_none_missing(old(self)@, inputs@, 0);
                    assert(self@ =~~= (Graph { inputs: inputs@, ..old(self)@ }));
                    assert forall|k: int| 0 <= k < self@.outputs.len() implies old(self)@.has_outlet(#[trigger] self@.outputs[k]) by {
                        assert(old(self)@.has_outlet(old(self)@.outputs[k]));
                    }
                    lemma_wf_same_edges(self@, old(self)@);
                }
                Ok(())
            },
        }
    }

    /// Declares `outputs` as the outputs of the model, if they are outlets
    /// of it.
    pub fn set_output_outlets(&mut self, outputs: &Vec<OutletId>) -> (r: Result<(), ModelError>)
        requires
            old(self).wf(),
        ensures
            final(self).wf(),
            match first_missing(old(self)@, outputs@, 0) {
                Some(o) => r == Err::<(), ModelError>(ModelError::NoSuchOutlet(o)) && final(self)@
                    == old(self)@,
                None => r.is_ok() && final(self)@ == (Graph { outputs: outputs@, ..old(self)@ }),
            },
    {
        match self.find_missing(outputs) {
            Some(o) => Err(ModelError::NoSuchOutlet(o)),
            None => {
                self.outputs = crate::tensor::copied(outputs);
                proof {
                    lemma_none_missing(old(self)@, outputs@, 0);
                    assert(self@ =~~= (Graph { outputs: outputs@, ..old(self)@ }));
                    assert forall|k: int| 0 <= k < self@.inputs.len() implies old(self)@.has_outlet(#[trigger] self@.inputs[k]) by {
                        assert(old(self)@.has_outlet(old(self)@.inputs[k]));
                    }
                    lemma_wf_same_edges(self@, old(self)@);
                }
                Ok(())
            },
        }
    }

    /// Declares as the outputs of the model the outlets that nothing reads,
    /// in the order of their nodes and slots.
    pub fn auto_outputs(&mut self)
        requires
            old(self).wf(),
        ensures
            final(self).wf(),
            final(self)@ == (Graph { outputs: final(self)@.outputs, ..old(self)@ }),
            forall|k: int|
                0 <= k < final(self)@.outputs.len() ==> old(self)@.has_outlet(
                    #[trigger] final(self)@.outputs[k],
                ) && old(self)@.successors(final(self)@.outputs[k]).len() == 0,
            forall|o: OutletId|
                old(self)@.has_outlet(o) && old(self)@.successors(o).len() == 0 ==> final(self)@.outputs.contains(o),
            forall|i: int, j: int|
                0 <= i < j < final(self)@.outputs.len() ==> comes_first(
                    #[trigger] final(self)@.outputs[i],
                    #[trigger] final(self)@.outputs[j],
                ),
    {
        let mut outputs: Vec<OutletId> = Vec::new();
        let ghost g = self@;
        let mut n: usize = 0;
        while n < self.nodes.len()
            invariant
                0 <= n <= self.nodes.len(),
                *self == *old(self),
                g == self@,
                forall|k: int|
                    0 <= k < outputs.len() ==> g.has_outlet(#[trigger] outputs[k]) && g.successors(
                        outputs[k],
                    ).len() == 0,
                forall|o: OutletId|
                    g.has_outlet(o) && o.node < n && g.successors(o).len() == 0 ==> outputs@.contains(
                        o,
                    ),
                forall|j: int| 0 <= j < outputs.len() ==> (#[trigger] outputs[j]).node < n,
                forall|i: int, j: int|
                    0 <= i < j < outputs.len() ==> comes_first(
                        #[trigger] outputs[i],
                        #[trigger] outputs[j],
                    ),
            decreases self.nodes.len() - n,
        {
            let mut k: usize = 0;
            while k < self.nodes[n].outputs.len()
                invariant
                    n < self.nodes.len(),
                    0 <= k <= self.nodes[n as int].outputs.len(),
                    *self == *old(self),
                    g == self@,
                    forall|j: int|
                        0 <= j < outputs.len() ==> g.has_outlet(#[trigger] outputs[j])
                            && g.successors(outputs[j]).len() == 0,
                    forall|o: OutletId|
                        g.has_outlet(o) && (o.node < n || (o.node == n && o.slot < k))
                            && g.successors(o).len() == 0 ==> outputs@.contains(o),
                    forall|j: int|
                        0 <= j < outputs.len() ==> comes_first(
                            #[trigger] outputs[j],
                            OutletId { node: n, slot: k },
                        ),
                    forall|i: int, j: int|
                        0 <= i < j < outputs.len() ==> comes_first(
                            #[trigger] outputs[i],
                            #[trigger] outputs[j],
                        ),
                decreases self.nodes[n as int].outputs.len() - k,
            {
                let ghost had = outputs@;
                let here = OutletId { node: n, slot: k };
                assert(g.successors(here) == self.nodes[n as int].outputs[k as int].successors@);
                if self.nodes[n].outputs[k].successors.len() == 0 {
                    outputs.push(here);
                }
                proof {
                    assert forall|o: OutletId|
                        g.has_outlet(o) && (o.node < n || (o.node == n && o.slot < k + 1))
                            && g.successors(o).len() == 0 implies outputs@.contains(o) by {
                        if o == here {
                            assert(outputs@[outputs.len() - 1] == o);
                        } else {
                            assert(had.contains(o));
                            let j = choose|j: int| 0 <= j < had.len() && had[j] == o;
                            assert(outputs@[j] == o);
                        }
                    }
                }
                k += 1;
            }
            n += 1;
        }
        self.outputs = outputs;
        proof {
            let h = self@;
            assert(h =~~= (Graph { outputs: h.outputs, ..g }));
            assert forall|k: int| 0 <= k < h.inputs.len() implies g.has_outlet(
                #[trigger] h.inputs[k],
            ) by {
                assert(g.has_outlet(g.inputs[k]));
            }
            lemma_wf_same_edges(h, g);
        }
    }

    /// Whether the model has the outlet `o`.
    pub fn has_outlet(&self, o: OutletId) -> (r: bool)
        ensures
            r == self@.has_outlet(o),
    {
        o.node < self.nodes.len() && o.slot < self.nodes[o.node].outputs.len()
    }

    /// What is known of `outlet`.
    pub fn outlet_fact(&self, outlet: OutletId) -> (r: Result<&F, ModelError>)
        ensures
            match r {
                Ok(f) => self@.has_outlet(outlet) && *f == self@.fact(outlet),
                Err(e) => !self@.has_outlet(outlet) && e == ModelError::NoSuchOutlet(outlet),
            },
    {
        if self.has_outlet(outlet) {
            Ok(&self.nodes[outlet.node].outputs[outlet.slot].fact)
        } else {
            Err(ModelError::NoSuchOutlet(outlet))
        }
    }

    /// Makes `fact` what is known of `outlet`.
    pub fn set_outlet_fact(&mut self, outlet: OutletId, fact: F) -> (r: Result<(), ModelError>)
        requires
            old(self).wf(),
        ensures
            final(self).wf(),
            match r {
                Ok(_) => old(self)@.has_outlet(outlet) && final(self)@ == old(self)@.with_fact(
                    outlet,
                    fact,
                ),
                Err(e) => !old(self)@.has_outlet(outlet) && e == ModelError::NoSuchOutlet(outlet)
                    && final(self)@ == old(self)@,
            },
    {
        if !self.has_outlet(outlet) {
            return Err(ModelError::NoSuchOutlet(outlet));
        }
        self.nodes[outlet.node].outputs[outlet.slot].fact = fact;
        proof {
            let h = old(self)@.with_fact(outlet, fact);
            assert forall|n: int| 0 <= n < self.nodes.len() implies #[trigger] self@.nodes[n]
                =~~= h.nodes[n] by {}
            assert(self@ =~~= h);
            assert forall|k: int| 0 <= k < h.inputs.len() implies old(self)@.has_outlet(
                #[trigger] h.inputs[k],
            ) by {
                assert(old(self)@.has_outlet(old(self)@.inputs[k]));
            }
            assert forall|k: int| 0 <= k < h.outputs.len() implies old(self)@.has_outlet(
                #[trigger] h.outputs[k],
            ) by {
                assert(old(self)@.has_outlet(old(self)@.outputs[k]));
            }
            lemma_wf_same_edges(h, old(self)@);
        }
        Ok(())
    }

    /// Makes `op` the operator of the node `id`.
    pub fn set_node_op(&mut self, id: usize, op: O)
        requires
            old(self).wf(),
            id < old(self).nodes.len(),
        ensures
            final(self).wf(),
            final(self)@ == old(self)@.with_op(id as int, op),
    {
        self.nodes[id].op = op;
        proof {
            let h = old(self)@.with_op(id as int, op);
            assert forall|n: int| 0 <= n < self.nodes.len() implies #[trigger] self@.nodes[n]
                =~~= h.nodes[n] by {}
            assert(self@ =~~= h);
            assert forall|k: int| 0 <= k < h.inputs.len() implies old(self)@.has_outlet(
                #[trigger] h.inputs[k],
            ) by {
                assert(old(self)@.has_outlet(old(self)@.inputs[k]));
            }
            assert forall|k: int| 0 <= k < h.outputs.len() implies old(self)@.has_outlet(
                #[trigger] h.outputs[k],
            ) by {
                assert(old(self)@.has_outlet(old(self)@.outputs[k]));
            }
            lemma_wf_same_edges(h, old(self)@);
        }
    }

    /// The node `id`.
    pub fn node(&self, id: usize) -> (r: &Node<F, O>)
        requires
            id < self.nodes.len(),
        ensures
            *r == self.nodes[id as int],
    {
        &self.nodes[id]
    }

    /// The name of the node `id`.
    pub fn node_name(&self, id: usize) -> (r: &String)
        requires
            id < self.nodes.len(),
        ensures
            r@ == self@.nodes[id as int].name,
    {
        &self.nodes[id].name
    }

    /// The operator of the node `id`.
    pub fn node_op(&self, id: usize) -> (r: &O)
        requires
            id < self.nodes.len(),
        ensures
            *r == self@.nodes[id as int].op,
    {
        &self.nodes[id].op
    }

    /// The outlets that the node `id` reads, in order.
    pub fn node_inputs(&self, id: usize) -> (r: &Vec<OutletId>)
        requires
            id < self.nodes.len(),
        ensures
            r@ == self@.nodes[id as int].inputs,
    {
        &self.nodes[id].inputs
    }

    /// The inlets that `outlet` feeds, in the order they were connected.
    pub fn outlet_successors(&self, outlet: OutletId) -> (r: &Vec<InletId>)
        requires
            self@.has_outlet(outlet),
        ensures
            r@ == self@.successors(outlet),
    {
        &self.nodes[outlet.node].outputs[outlet.slot].successors
    }

    /// The label of `outlet`, if it has one.
    pub fn outlet_label(&self, outlet: OutletId) -> (r: Option<&String>)
        ensures
            match r {
                Some(l) => self@.label(outlet) == Some(l@),
                None => self@.label(outlet).is_none(),
            },
    {
        let mut i: usize = 0;
        while i < self.labels.len()
            invariant
                0 <= i <= self.labels.len(),
                label_from(self@.labels, outlet, 0) == label_from(self@.labels, outlet, i as int),
            decreases self.labels.len() - i,
        {
            if self.labels[i].0 == outlet {
                return Some(&self.labels[i].1);
            }
            i += 1;
        }
        None
    }

    /// Gives `outlet` the label `label`, in place of the one it may have.
    pub fn set_outlet_label(&mut self, outlet: OutletId, label: String)
        requires
            old(self).wf(),
        ensures
            final(self).wf(),
            final(self)@ == old(self)@.with_label(outlet, label@),
    {
        let mut i: usize = 0;
        while i < self.labels.len() && self.labels[i].0 != outlet
            invariant
                0 <= i <= self.labels.len(),
                *self == *old(self),
                label_at(self@.labels, outlet, 0) == label_at(self@.labels, outlet, i as int),
            decreases self.labels.len() - i,
        {
            i += 1;
        }
        if i < self.labels.len() {
            self.labels[i] = (outlet, label);
        } else {
            self.labels.push((outlet, label));
        }
        proof {
            let h = old(self)@.with_label(outlet, label@);
            assert(self@.labels =~= h.labels);
            assert(self@ =~~= h);
            assert forall|k: int| 0 <= k < h.inputs.len() implies old(self)@.has_outlet(
                #[trigger] h.inputs[k],
            ) by {
                assert(old(self)@.has_outlet(old(self)@.inputs[k]));
            }
            assert forall|k: int| 0 <= k < h.outputs.len() implies old(self)@.has_outlet(
                #[trigger] h.outputs[k],
            ) by {
                assert(old(self)@.has_outlet(old(self)@.outputs[k]));
            }
            lemma_wf_same_edges(h, old(self)@);
        }
    }

    /// Whether the outputs of the node `id` feed exactly one input, and
    /// which.
    pub fn only_successor(&self, id: usize) -> (r: Option<InletId>)
        requires
            id < self.nodes.len(),
        ensures
            r == self@.only_successor(id as int),
            r.is_some() ==> self@.nodes[id as int].first_fed(0) < self@.nodes[id as int].successors.len()
                && self@.nodes[id as int].successors[self@.nodes[id as int].first_fed(0)].len() > 0,
    {
        let node = &self.nodes[id];
        let ghost gn = self@.nodes[id as int];
        let mut count: usize = 0;
        let mut first: Option<InletId> = None;
        let mut k: usize = 0;
        while k < node.outputs.len()
            invariant
                0 <= k <= node.outputs.len(),
                gn == node.shape(),
                gn == self@.nodes[id as int],
                gn.successors.len() == node.outputs.len(),
                count <= 1,
                count as int == gn.fanout(k as int),
                gn.first_fed(0) == (if count == 0 {
                    gn.first_fed(k as int)
                } else {
                    gn.first_fed(0)
                }),
                count == 1 ==> 0 <= gn.first_fed(0) < k && gn.successors[gn.first_fed(0)].len() > 0
                    && first == Some(gn.successors[gn.first_fed(0)][0]),
            decreases node.outputs.len() - k,
        {
            let n = node.outputs[k].successors.len();
            assert(n == gn.successors[k as int].len());
            if n > 1 || (n == 1 && count == 1) {
                proof {
                    lemma_fanout_grows(gn, k as int + 1, node.outputs.len() as int);
                }
                return None;
            }
            if n == 1 {
                count = 1;
                first = Some(node.outputs[k].successors[0]);
            }
            k += 1;
        }
        if count == 1 {
            first
        } else {
            None
        }
    }

    /// The one consumer of the node `id`: the node that alone reads its
    /// outputs, through one input, and reads nothing else.
    pub fn single_succ(&self, id: usize) -> (r: Option<usize>)
        requires
            self.wf(),
            id < self.nodes.len(),
        ensures
            r == self@.single_succ(id as int),
    {
        match self.only_successor(id) {
            None => None,
            Some(inlet) => {
                proof {
                    let gn = self@.nodes[id as int];
                    let slot = gn.first_fed(0);
                    lemma_first_fed(gn, 0);
                    assert(gn.successors.len() == gn.facts.len());
                    let o = OutletId { node: id, slot: slot as usize };
                    assert(self@.has_outlet(o));
                    assert(self@.has_inlet(self@.successors(o)[0]));
                }
                if self.nodes[inlet.node].inputs.len() == 1 {
                    Some(inlet.node)
                } else {
                    None
                }
            },
        }
    }

    /// The one producer of the node `id`: the node that its one input
    /// reads, if that node feeds nothing else.
    pub fn single_prec(&self, id: usize) -> (r: Option<usize>)
        requires
            self.wf(),
            id < self.nodes.len(),
        ensures
            r == self@.single_prec(id as int),
    {
        if self.nodes[id].inputs.len() != 1 {
            return None;
        }
        let prec = self.nodes[id].inputs[0].node;
        proof {
            let inlet = InletId { node: id, slot: 0 };
            assert(self@.has_inlet(inlet));
            assert(self@.has_outlet(self@.input(inlet)));
        }
        match self.only_successor(prec) {
            Some(_) => Some(prec),
            None => None,
        }
    }

    /// Appends a node that reads `inputs`, and gives its outlets. Nothing
    /// is changed where one of `inputs` is no outlet of the model.
    pub fn wire(&mut self, name: String, op: O, facts: Vec<F>, inputs: &Vec<OutletId>) -> (r:
        Result<Vec<OutletId>, ModelError>)
        requires
            old(self).wf(),
        ensures
            final(self).wf(),
            match first_missing(old(self)@, inputs@, 0) {
                Some(o) => r == Err::<Vec<OutletId>, ModelError>(ModelError::NoSuchOutlet(o))
                    && final(self)@ == old(self)@,
                None => r.is_ok() && r.unwrap()@ == outlets_of(
                    old(self).nodes.len(),
                    facts.len() as int,
                ) && final(self)@ == old(self)@.wire(name@, op, facts@, inputs@) && final(self).nodes.len() == old(self).nodes.len() + 1,
            },
            forall|o: OutletId| old(self)@.has_outlet(o) ==> final(self)@.has_outlet(o),
            r is Ok ==> {
                let node = final(self)@.nodes.last();
                &&& node.name == name@
                &&& node.op == op
                &&& node.facts == facts@
                &&& node.inputs == inputs@
                &&& final(self)@.inputs == old(self)@.inputs
                &&& final(self)@.outputs == old(self)@.outputs
                &&& final(self)@.labels == old(self)@.labels
                &&& forall|k: int|
                    0 <= k < facts.len() ==> final(self)@.has_outlet(
                        #[trigger] outlets_of(old(self).nodes.len(), facts.len() as int)[k],
                    )
                &&& forall|m: int|
                    0 <= m < old(self).nodes.len() ==> (#[trigger] final(self)@.nodes[m]).facts
                        == old(self)@.nodes[m].facts && final(self)@.nodes[m].op == old(self)@.nodes[m].op && final(self)@.nodes[m].name == old(self)@.nodes[m].name
                        && final(self)@.nodes[m].inputs == old(self)@.nodes[m].inputs
            },
    {
        match self.find_missing(inputs) {
            Some(o) => {
                return Err(ModelError::NoSuchOutlet(o));
            },
            None => {},
        }
        let n_out = facts.len();
        let id = self.add_node(name, op, facts);
        let ghost g1 = self@;
        proof {
            lemma_none_missing(old(self)@, inputs@, 0);
            assert forall|k: int| 0 <= k < inputs.len() implies g1.has_outlet(
                #[trigger] inputs@[k],
            ) by {
                assert(old(self)@.has_outlet(inputs@[k]));
            }
            lemma_connect(g1, inputs@, 0);
        }
        let mut k: usize = 0;
        while k < inputs.len()
            invariant
                0 <= k <= inputs.len(),
                self.wf(),
                g1.wf(),
                g1.nodes.len() == id + 1,
                g1.nodes.len() == self.nodes.len(),
                g1.nodes.last().inputs.len() == 0,
                forall|j: int| 0 <= j < inputs.len() ==> g1.has_outlet(#[trigger] inputs@[j]),
                self@ == g1.connect(inputs@, k as int),
            decreases inputs.len() - k,
        {
            proof {
                lemma_connect(g1, inputs@, k as int);
                lemma_connect(g1, inputs@, k as int + 1);
            }
            let r = self.add_edge(inputs[k], InletId { node: id, slot: k });
            assert(r.is_ok());
            k += 1;
        }
        proof {
            lemma_connect(g1, inputs@, inputs.len() as int);
            lemma_connected_inputs(g1, inputs@, inputs.len() as int);
            assert(inputs@.take(inputs.len() as int) =~= inputs@);
            assert forall|o: OutletId| old(self)@.has_outlet(o) implies self@.has_outlet(o) by {
                assert(g1.has_outlet(o));
            }
            assert forall|k: int| 0 <= k < n_out implies self@.has_outlet(
                #[trigger] outlets_of(id, n_out as int)[k],
            ) by {
                assert(g1.has_outlet(outlets_of(id, n_out as int)[k]));
            }
        }
        let mut outs: Vec<OutletId> = Vec::new();
        let mut j: usize = 0;
        while j < n_out
            invariant
                0 <= j <= n_out,
                outs@ == outlets_of(id, j as int),
            decreases n_out - j,
        {
            outs.push(OutletId { node: id, slot: j });
            assert(outs@ =~= outlets_of(id, j as int + 1));
            j += 1;
        }
        Ok(outs)
    }
}

impl<F, O> Graph<F, O> {
    /// The one inlet that the outputs of the node `n` feed, where they feed
    /// exactly one.
    pub open spec fn only_successor(self, n: int) -> Option<InletId> {
        let node = self.nodes[n];
        if node.fanout(node.successors.len() as int) == 1 {
            Some(node.successors[node.first_fed(0)][0])
        } else {
            None
        }
    }

    /// The one consumer of the node `n`: the node that alone reads its
    /// outputs, through one input, and reads nothing else.
    pub open spec fn single_succ(self, n: int) -> Option<usize> {
        match self.only_successor(n) {
            Some(inlet) => if self.nodes[inlet.node as int].inputs.len() == 1 {
                Some(inlet.node)
            } else {
                None
            },
            None => None,
        }
    }

    /// The one producer of the node `n`: the node that its one input reads,
    /// if that node feeds nothing else.
    pub open spec fn single_prec(self, n: int) -> Option<usize> {
        if self.nodes[n].inputs.len() != 1 {
            None
        } else if self.only_successor(self.nodes[n].inputs[0].node as int).is_some() {
            Some(self.nodes[n].inputs[0].node)
        } else {
            None
        }
    }
}

/// The fan-out of more slots is no smaller.
pub proof fn lemma_fanout_grows<F, O>(node: GNode<F, O>, n: int, m: int)
    requires
        0 <= n <= m,
    ensures
        node.fanout(n) <= node.fanout(m),
    decreases m - n,
{
    if n < m {
        lemma_fanout_grows(node, n, m - 1);
    }
}

/// The first slot that feeds an input does so, where there is one.
pub proof fn lemma_first_fed<F, O>(node: GNode<F, O>, k: int)
    requires
        0 <= k <= node.successors.len(),
    ensures
        k <= node.first_fed(k) <= node.successors.len(),
        node.first_fed(k) < node.successors.len() ==> node.successors[node.first_fed(k)].len()
            > 0,
    decreases node.successors.len() - k,
{
    if k < node.successors.len() && node.successors[k].len() == 0 {
        lemma_first_fed(node, k + 1);
    }
}

/// The one consumer of a node of a consistent graph is a node of the graph.
pub proof fn lemma_single_succ<F, O>(g: Graph<F, O>, n: int)
    requires
        g.wf(),
        0 <= n < g.nodes.len(),
        n <= usize::MAX,
        g.nodes[n].facts.len() <= usize::MAX,
        g.single_succ(n).is_some(),
    ensures
        g.single_succ(n).unwrap() < g.nodes.len(),
{
    let node = g.nodes[n];
    assert(node.successors.len() == node.facts.len());
    lemma_first_fed(node, 0);
    lemma_fed(node, node.successors.len() as int);
    let slot = node.first_fed(0);
    let o = OutletId { node: n as usize, slot: slot as usize };
    assert(g.has_outlet(o));
    assert(g.has_inlet(g.successors(o)[0]));
}

/// A node that feeds an input has a first slot that does.
pub proof fn lemma_fed<F, O>(node: GNode<F, O>, n: int)
    requires
        0 <= n <= node.successors.len(),
        node.fanout(n) > 0,
    ensures
        node.first_fed(0) < n,
    decreases n,
{
    lemma_first_fed(node, 0);
    if node.first_fed(0) >= n {
        lemma_unfed(node, 0, n);
    }
}

/// The slots before the first that feeds an input feed none.
pub proof fn lemma_unfed<F, O>(node: GNode<F, O>, k: int, n: int)
    requires
        0 <= k <= n <= node.successors.len(),
        node.first_fed(k) >= n,
    ensures
        node.fanout(n) == node.fanout(k),
    decreases n - k,
{
    if k < n {
        lemma_first_fed(node, k);
        lemma_first_fed(node, k + 1);
        assert(node.successors[k].len() == 0);
        lemma_unfed(node, k + 1, n);
        lemma_fanout_step(node, k, n);
    }
}

/// Past a slot that feeds nothing the fan-out is the same.
pub proof fn lemma_fanout_step<F, O>(node: GNode<F, O>, k: int, n: int)
    requires
        0 <= k < n <= node.successors.len(),
        node.successors[k].len() == 0,
        node.fanout(n) == node.fanout(k + 1),
    ensures
        node.fanout(n) == node.fanout(k),
{
}

/// Once connected, the last node reads the inputs it was given.
pub proof fn lemma_connected_inputs<F, O>(g: Graph<F, O>, inputs: Seq<OutletId>, n: int)
    requires
        g.wf(),
        g.nodes.len() > 0,
        g.nodes.len() <= usize::MAX,
        g.nodes.last().inputs.len() == 0,
        0 <= n <= inputs.len(),
        n <= usize::MAX,
        forall|k: int| 0 <= k < inputs.len() ==> g.has_outlet(#[trigger] inputs[k]),
    ensures
        g.connect(inputs, n).nodes.last().inputs == inputs.take(n),
    decreases n,
{
    lemma_connect(g, inputs, n);
    if n > 0 {
        lemma_connected_inputs(g, inputs, n - 1);
        lemma_connect(g, inputs, n - 1);
        let h = g.connect(inputs, n - 1);
        assert(g.connect(inputs, n).nodes.last().inputs =~= inputs.take(n));
    } else {
        assert(g.connect(inputs, n).nodes.last().inputs =~= inputs.take(n));
    }
}

} // verus!
