//! Patches for the common cases: one operator replaced, removed, fused with
//! its successor, or put on an outlet.

use vstd::prelude::*;
use crate::model::fact::Fact;
use crate::model::graph::{Graph, InletId, Model, ModelError, Operator, OutletId};
use crate::model::access::{first_missing, lemma_none_missing};
use crate::patch::builder::{ModelPatch, incoming_name};
use crate::patch::spec::Patch;

verus! {

impl<F: Fact, O: Operator> Patch<F, O> {
    /// The patch taps `inputs` of `host` with the sources that are its
    /// nodes from `first` on, one each in order, and taps nothing else.
    pub open spec fn taps_with(self, host: Graph<F, O>, inputs: Seq<OutletId>, first: int) -> bool {
        &&& self.graph.nodes.len() == first + inputs.len()
        &&& forall|i: int|
            0 <= i < inputs.len() ==> {
                let node = #[trigger] self.graph.nodes[first + i];
                &&& node.op == O::source_spec()
                &&& node.name == incoming_name(inputs[i].node, inputs[i].slot)
                &&& node.inputs.len() == 0
                &&& node.facts.len() == 1
                &&& node.facts[0].same(&host.fact(inputs[i]))
            }
        &&& self.incoming =~= Map::new(
            |o: OutletId| o.slot == 0 && first <= o.node < first + inputs.len(),
            |o: OutletId| inputs[o.node - first],
        )
    }

    /// The patch replaces the node `id` of `host` by one node, its first,
    /// with the operator `op`, that reads taps of `inputs` and has the
    /// name and the facts of the node it replaces.
    pub open spec fn replaces(self, host: Graph<F, O>, id: int, inputs: Seq<OutletId>, op: O) -> bool {
        &&& self.taps_with(host, inputs, 1)
        &&& self.graph.nodes[0].op == op
        &&& self.graph.nodes[0].name == host.nodes[id].name
        &&& self.graph.nodes[0].inputs == Seq::new(
            inputs.len(),
            |i: int| OutletId { node: (1 + i) as usize, slot: 0 },
        )
        &&& self.graph.nodes[0].facts.len() == host.nodes[id].facts.len()
        &&& forall|k: int|
            0 <= k < host.nodes[id].facts.len() ==> (#[trigger] self.graph.nodes[0].facts[k]).same(
                &host.nodes[id].facts[k],
            )
        &&& self.shunts == Seq::new(
            host.nodes[id].facts.len(),
            |k: int|
                (
                    OutletId { node: id as usize, slot: k as usize },
                    OutletId { node: 0, slot: k as usize },
                ),
        )
        &&& self.obliterate.len() == 0
    }
}

impl<F: Fact, O: Operator> ModelPatch<F, O> {
    /// Taps each of `inputs`, outlets of `model`, with one more source, and
    /// has the node `by` of the patch, which has no inputs yet, read the
    /// taps in order.
    fn tap_inputs(&mut self, model: &Model<F, O>, inputs: &Vec<OutletId>, by: usize)
        requires
            old(self).wf(),
            model.wf(),
            by < old(self).model.nodes.len(),
            by + 1 == old(self).model.nodes.len(),
            old(self)@.graph.nodes[by as int].inputs.len() == 0,
            old(self).incoming.keys.len() == 0,
            old(self).shunt_outlet_by.keys.len() == 0,
            old(self).obliterate.len() == 0,
            forall|i: int| 0 <= i < inputs.len() ==> model@.has_outlet(#[trigger] inputs[i]),
        ensures
            final(self).wf(),
            final(self)@.taps_with(model@, inputs@, by + 1),
            final(self)@.shunts == old(self)@.shunts,
            final(self)@.obliterate == old(self)@.obliterate,
            forall|n: int| 0 <= n < by ==> final(self)@.graph.nodes[n] == old(self)@.graph.nodes[n],
            final(self)@.graph.nodes[by as int].op == old(self)@.graph.nodes[by as int].op,
            final(self)@.graph.nodes[by as int].name == old(self)@.graph.nodes[by as int].name,
            final(self)@.graph.nodes[by as int].facts == old(self)@.graph.nodes[by as int].facts,
            final(self)@.graph.nodes[by as int].inputs == Seq::new(
                inputs.len() as nat,
                |i: int| OutletId { node: (by + 1 + i) as usize, slot: 0 },
            ),
    {
        let ghost first = by as int + 1;
        let ghost start = self@;
        assert(self@.incoming =~= Map::new(
            |o: OutletId| o.slot == 0 && first <= o.node < first + 0,
            |o: OutletId| inputs@[o.node - first],
        )) by {
            assert(self.incoming.keys@.len() == 0);
        }
        let mut ix: usize = 0;
        while ix < inputs.len()
            invariant
                0 <= ix <= inputs.len(),
                self.wf(),
                model.wf(),
                first == by + 1,
                forall|i: int| 0 <= i < inputs.len() ==> model@.has_outlet(#[trigger] inputs[i]),
                self@.taps_with(model@, inputs@.take(ix as int), first),
                self@.shunts == start.shunts,
                self@.obliterate == start.obliterate,
                forall|n: int| 0 <= n < by ==> self@.graph.nodes[n] == start.graph.nodes[n],
                self@.graph.nodes[by as int].op == start.graph.nodes[by as int].op,
                self@.graph.nodes[by as int].name == start.graph.nodes[by as int].name,
                self@.graph.nodes[by as int].facts == start.graph.nodes[by as int].facts,
                self@.graph.nodes[by as int].inputs == Seq::new(
                    ix as nat,
                    |i: int| OutletId { node: (by + 1 + i) as usize, slot: 0 },
                ),
            decreases inputs.len() - ix,
        {
            let ghost before = self@;
            let tap = match self.tap_model(model, inputs[ix]) {
                Ok(t) => t,
                Err(_) => {
                    assert(false);
                    return ;
                },
            };
            let ghost tapped = self@;
            let r = self.model.add_edge(tap, InletId { node: by, slot: ix });
            assert(r.is_ok());
            proof {
                let now = self@;
                let taken = inputs@.take(ix as int + 1);
                assert(now.graph.nodes.len() == first + taken.len());
                assert forall|i: int| 0 <= i < taken.len() implies {
                    let node = #[trigger] now.graph.nodes[first + i];
                    &&& node.op == O::source_spec()
                    &&& node.name == incoming_name(taken[i].node, taken[i].slot)
                    &&& node.inputs.len() == 0
                    &&& node.facts.len() == 1
                    &&& node.facts[0].same(&model@.fact(taken[i]))
                } by {
                    if i < ix {
                        assert(before.graph.nodes[first + i] == tapped.graph.nodes[first + i]);
                        assert(inputs@.take(ix as int)[i] == taken[i]);
                    }
                }
                assert(now.incoming =~= Map::new(
                    |o: OutletId| o.slot == 0 && first <= o.node < first + taken.len(),
                    |o: OutletId| taken[o.node - first],
                )) by {
                    assert forall|o: OutletId|
                        o.slot == 0 && first <= o.node < first + ix implies inputs@.take(
                        ix as int,
                    )[o.node - first] == taken[o.node - first] by {}
                }
                assert(now.graph.nodes[by as int].inputs =~= Seq::new(
                    (ix + 1) as nat,
                    |i: int| OutletId { node: (by + 1 + i) as usize, slot: 0 },
                ));
            }
            ix += 1;
        }
        assert(inputs@.take(ix as int) =~= inputs@);
    }

    /// A patch that replaces the node `node` of `patched_model` by a node
    /// with the operator `new_op` that reads `inputs`, outlets of the
    /// model.
    pub fn replace_single_op(
        patched_model: &Model<F, O>,
        node: usize,
        inputs: &Vec<OutletId>,
        new_op: O,
    ) -> (r: Result<ModelPatch<F, O>, ModelError>)
        requires
            patched_model.wf(),
        ensures
            match r {
                Ok(p) => {
                    &&& p.wf()
                    &&& node < patched_model.nodes.len()
                    &&& first_missing(patched_model@, inputs@, 0).is_none()
                    &&& p@.replaces(patched_model@, node as int, inputs@, new_op)
                },
                Err(e) => if node >= patched_model.nodes.len() {
                    e == ModelError::NoSuchNode(node)
                } else {
                    first_missing(patched_model@, inputs@, 0) == Some(e->NoSuchOutlet_0) && e
                        is NoSuchOutlet
                },
            },
    {
        if node >= patched_model.nodes.len() {
            return Err(ModelError::NoSuchNode(node));
        }
        match patched_model.find_missing(inputs) {
            Some(o) => {
                return Err(ModelError::NoSuchOutlet(o));
            },
            None => {},
        }
        proof {
            lemma_none_missing(patched_model@, inputs@, 0);
        }
        let mut patch: ModelPatch<F, O> = ModelPatch::new();
        let old_node = patched_model.node(node);
        let mut facts: Vec<F> = Vec::new();
        let mut k: usize = 0;
        while k < old_node.outputs.len()
            invariant
                0 <= k <= old_node.outputs.len(),
                facts.len() == k,
                forall|j: int| 0 <= j < k ==> (#[trigger] facts[j]).same(&old_node.outputs[j].fact)
                    && old_node.outputs[j].fact.same(&facts[j]),
            decreases old_node.outputs.len() - k,
        {
            facts.push(old_node.outputs[k].fact.duplicate());
            k += 1;
        }
        let ghost copies = facts@;
        let by = patch.model.add_node(old_node.name.clone(), new_op, facts);
        patch.tap_inputs(patched_model, inputs, by);
        let ghost wired = patch@;
        let mut ix: usize = 0;
        while ix < old_node.outputs.len()
            invariant
                0 <= ix <= old_node.outputs.len(),
                patch.wf(),
                by == 0,
                node < patched_model.nodes.len(),
                *old_node == patched_model.nodes[node as int],
                patch@.graph == wired.graph,
                patch@.incoming == wired.incoming,
                patch@.obliterate == wired.obliterate,
                wired.graph.nodes[0].facts == copies,
                copies.len() == old_node.outputs.len(),
                forall|j: int|
                    0 <= j < copies.len() ==> (#[trigger] copies[j]).same(&old_node.outputs[j].fact)
                        && old_node.outputs[j].fact.same(&copies[j]),
                wired.graph.nodes.len() >= 1,
                patch.shunt_outlet_by.keys@ == Seq::new(
                    ix as nat,
                    |k: int| OutletId { node: node, slot: k as usize },
                ),
                patch@.shunts == Seq::new(
                    ix as nat,
                    |k: int|
                        (
                            OutletId { node: node, slot: k as usize },
                            OutletId { node: 0, slot: k as usize },
                        ),
                ),
            decreases old_node.outputs.len() - ix,
        {
            let from = OutletId { node: node, slot: ix };
            let ghost before = patch@;
            proof {
                assert(patched_model@.has_outlet(from));
                assert(patch@.graph.has_outlet(OutletId { node: by, slot: ix }));
                assert(patched_model@.fact(from) == old_node.outputs[ix as int].fact);
                assert(patch@.graph.fact(OutletId { node: by, slot: ix }) == copies[ix as int]);
                assert(!patch.shunt_outlet_by@.contains_key(from)) by {
                    if patch.shunt_outlet_by.keys@.contains(from) {
                        let j = choose|j: int|
                            0 <= j < patch.shunt_outlet_by.keys@.len() && patch.shunt_outlet_by.keys@[j]
                                == from;
                        assert(j == ix);
                    }
                }
            }
            let r = patch.shunt_outside(patched_model, from, OutletId { node: by, slot: ix });
            assert(r.is_ok());
            proof {
                assert(patch@.shunts =~= Seq::new(
                    (ix + 1) as nat,
                    |k: int|
                        (
                            OutletId { node: node, slot: k as usize },
                            OutletId { node: 0, slot: k as usize },
                        ),
                ));
                assert(patch.shunt_outlet_by.keys@ =~= Seq::new(
                    (ix + 1) as nat,
                    |k: int| OutletId { node: node, slot: k as usize },
                )) by {
                    assert(patch.shunt_outlet_by.keys@.len() == patch@.shunts.len());
                    assert forall|k: int| 0 <= k < ix + 1 implies patch.shunt_outlet_by.keys@[k]
                        == (OutletId { node: node, slot: k as usize }) by {
                        assert(patch@.shunts[k].0 == patch.shunt_outlet_by.keys@[k]);
                    }
                }
            }
            ix += 1;
        }
        Ok(patch)
    }

    /// A patch that replaces the node `node` of `patched_model` by a node
    /// with the operator `new_op` that reads what its first input reads.
    pub fn single_unary_op(patched_model: &Model<F, O>, node: usize, new_op: O) -> (r: Result<
        ModelPatch<F, O>,
        ModelError,
    >)
        requires
            patched_model.wf(),
        ensures
            match r {
                Ok(p) => {
                    &&& p.wf()
                    &&& node < patched_model.nodes.len()
                    &&& patched_model@.nodes[node as int].inputs.len() > 0
                    &&& p@.replaces(
                        patched_model@,
                        node as int,
                        seq![patched_model@.nodes[node as int].inputs[0]],
                        new_op,
                    )
                },
                Err(e) => if node >= patched_model.nodes.len() {
                    e == ModelError::NoSuchNode(node)
                } else {
                    patched_model@.nodes[node as int].inputs.len() == 0 && e
                        == ModelError::NoSuchInput(InletId { node, slot: 0 })
                },
            },
    {
        if node >= patched_model.nodes.len() {
            return Err(ModelError::NoSuchNode(node));
        }
        if patched_model.nodes[node].inputs.len() == 0 {
            return Err(ModelError::NoSuchInput(InletId { node, slot: 0 }));
        }
        let input = patched_model.nodes[node].inputs[0];
        let mut inputs: Vec<OutletId> = Vec::new();
        inputs.push(input);
        proof {
            let inlet = InletId { node, slot: 0 };
            assert(patched_model@.has_inlet(inlet));
            assert(patched_model@.has_outlet(patched_model@.input(inlet)));
            assert(inputs@ =~= seq![patched_model@.nodes[node as int].inputs[0]]);
            assert(first_missing(patched_model@, inputs@, 1).is_none());
        }
        Self::replace_single_op(patched_model, node, &inputs, new_op)
    }

    /// A patch that removes the node `node` of `patched_model`: what read
    /// its first output reads what its first input reads, and the node is
    /// neutralized.
    pub fn shunt_one_op(patched_model: &Model<F, O>, node: usize) -> (r: Result<
        ModelPatch<F, O>,
        ModelError,
    >)
        requires
            patched_model.wf(),
        ensures
            r is Ok <==> Self::shunt_one_op_check(patched_model@, node) is Ok,
            match r {
                Ok(p) => {
                    let input = patched_model@.nodes[node as int].inputs[0];
                    &&& p.wf()
                    &&& p@.taps_with(patched_model@, seq![input], 0)
                    &&& p@.shunts == seq![
                        (OutletId { node, slot: 0 }, OutletId { node: 0, slot: 0 }),
                    ]
                    &&& p@.obliterate == seq![node]
                },
                Err(e) => Self::shunt_one_op_check(patched_model@, node) == Err::<(), ModelError>(e),
            },
    {
        if node >= patched_model.nodes.len() {
            return Err(ModelError::NoSuchNode(node));
        }
        if patched_model.nodes[node].inputs.len() == 0 {
            return Err(ModelError::NoSuchInput(InletId { node, slot: 0 }));
        }
        let input = patched_model.nodes[node].inputs[0];
        proof {
            let inlet = InletId { node, slot: 0 };
            assert(patched_model@.has_inlet(inlet));
            assert(patched_model@.has_outlet(patched_model@.input(inlet)));
        }
        let mut patch: ModelPatch<F, O> = ModelPatch::new();
        let tap = match patch.tap_model(patched_model, input) {
            Ok(t) => t,
            Err(e) => {
                return Err(e);
            },
        };
        let ghost tapped = patch@;
        let out = OutletId { node, slot: 0 };
        proof {
            if patched_model@.has_outlet(out) {
                F::lemma_same(
                    &patched_model@.fact(out),
                    &patched_model@.fact(input),
                    &tapped.graph.fact(tap),
                );
                F::lemma_same(
                    &patched_model@.fact(out),
                    &tapped.graph.fact(tap),
                    &patched_model@.fact(input),
                );
                F::lemma_same(
                    &tapped.graph.fact(tap),
                    &patched_model@.fact(input),
                    &patched_model@.fact(input),
                );
            }
        }
        match patch.shunt_outside(patched_model, out, tap) {
            Ok(_) => {},
            Err(e) => {
                return Err(e);
            },
        }
        let r = patch.obliterate(node);
        proof {
            assert(patch@.incoming =~= Map::new(
                |o: OutletId| o.slot == 0 && 0 <= o.node < 0 + 1,
                |o: OutletId| seq![input][o.node - 0],
            ));
            assert(patch@.shunts =~= seq![(out, tap)]);
            assert(patch@.obliterate =~= seq![node]);
        }
        Ok(patch)
    }

    /// Whether the node `node` of `host` can be removed, and why not: it
    /// has a first input and a first output, of which the same is known.
    pub open spec fn shunt_one_op_check(host: Graph<F, O>, node: usize) -> Result<(), ModelError> {
        let out = OutletId { node, slot: 0 };
        if node >= host.nodes.len() {
            Err(ModelError::NoSuchNode(node))
        } else if host.nodes[node as int].inputs.len() == 0 {
            Err(ModelError::NoSuchInput(InletId { node, slot: 0 }))
        } else if !host.has_outlet(out) {
            Err(ModelError::NoSuchOutlet(out))
        } else if !host.fact(out).same(&host.fact(host.nodes[node as int].inputs[0])) {
            Err(ModelError::FactMismatch(out))
        } else {
            Ok(())
        }
    }
}

impl<F: Fact, O: Operator> ModelPatch<F, O> {
    /// Whether the node `node` of `host` can be fused with the node that
    /// alone reads it, and why not.
    pub open spec fn fuse_check(host: Graph<F, O>, node: usize) -> Result<(), ModelError> {
        if node >= host.nodes.len() {
            Err(ModelError::NoSuchNode(node))
        } else if host.single_succ(node as int).is_none() {
            Err(ModelError::NoSingleSuccessor(node))
        } else {
            let succ = host.single_succ(node as int).unwrap();
            if host.nodes[succ as int].facts.len() == 0 {
                Err(ModelError::NoSuchOutlet(OutletId { node: succ, slot: 0 }))
            } else if host.nodes[node as int].facts.len() <= 1 {
                Ok(())
            } else if host.nodes[succ as int].facts.len() == 1 {
                Err(ModelError::NoSuchOutlet(OutletId { node: succ, slot: 1 }))
            } else {
                Err(ModelError::NoSuchOutlet(OutletId { node: 0, slot: 1 }))
            }
        }
    }

    /// A patch that puts one node with the operator `new_op` in place of
    /// the node `node` of `patched_model` and of the node that alone reads
    /// it: it reads what `node` reads, and its one output replaces the
    /// first output of the successor.
    pub fn fuse_with_next(patched_model: &Model<F, O>, node: usize, new_op: O) -> (r: Result<
        ModelPatch<F, O>,
        ModelError,
    >)
        requires
            patched_model.wf(),
        ensures
            r is Ok <==> Self::fuse_check(patched_model@, node) is Ok,
            match r {
                Ok(p) => {
                    let host = patched_model@;
                    let succ = host.single_succ(node as int).unwrap();
                    &&& p.wf()
                    &&& p@.taps_with(host, host.nodes[node as int].inputs, 1)
                    &&& p@.graph.nodes[0].op == new_op
                    &&& p@.graph.nodes[0].name == host.nodes[node as int].name
                    &&& p@.graph.nodes[0].inputs == Seq::new(
                        host.nodes[node as int].inputs.len(),
                        |i: int| OutletId { node: (1 + i) as usize, slot: 0 },
                    )
                    &&& p@.graph.nodes[0].facts.len() == 1
                    &&& p@.graph.nodes[0].facts[0].same(&host.nodes[succ as int].facts[0])
                    &&& p@.shunts == Seq::new(
                        host.nodes[node as int].facts.len(),
                        |k: int| (OutletId { node: succ, slot: 0 }, OutletId { node: 0, slot: 0 }),
                    )
                    &&& p@.obliterate.len() == 0
                },
                Err(e) => Self::fuse_check(patched_model@, node) == Err::<(), ModelError>(e),
            },
    {
        if node >= patched_model.nodes.len() {
            return Err(ModelError::NoSuchNode(node));
        }
        let succ = match patched_model.single_succ(node) {
            Some(s) => s,
            None => {
                return Err(ModelError::NoSingleSuccessor(node));
            },
        };
        proof {
            assert(patched_model@.nodes[node as int].facts.len()
                == patched_model.nodes[node as int].outputs.len());
            crate::model::access::lemma_single_succ(patched_model@, node as int);
        }
        if patched_model.nodes[succ].outputs.len() == 0 {
            return Err(ModelError::NoSuchOutlet(OutletId { node: succ, slot: 0 }));
        }
        let n_out = patched_model.nodes[node].outputs.len();
        if n_out > 1 {
            if patched_model.nodes[succ].outputs.len() == 1 {
                return Err(ModelError::NoSuchOutlet(OutletId { node: succ, slot: 1 }));
            } else {
                return Err(ModelError::NoSuchOutlet(OutletId { node: 0, slot: 1 }));
            }
        }
        let mut patch: ModelPatch<F, O> = ModelPatch::new();
        let old_node = patched_model.node(node);
        let mut facts: Vec<F> = Vec::new();
        facts.push(patched_model.nodes[succ].outputs[0].fact.duplicate());
        let ghost copy = facts@[0];
        let by = patch.model.add_node(old_node.name.clone(), new_op, facts);
        proof {
            assert(patched_model@.nodes[node as int].inputs.len()
                == patched_model.nodes[node as int].inputs.len());
            crate::model::order::lemma_inputs_outlets(patched_model@, node);
            assert(old_node.inputs@ == patched_model@.nodes[node as int].inputs);
        }
        patch.tap_inputs(patched_model, &old_node.inputs, by);
        if n_out == 1 {
            let from = OutletId { node: succ, slot: 0 };
            proof {
                assert(patched_model@.has_outlet(from));
                assert(patch@.graph.has_outlet(OutletId { node: by, slot: 0 }));
                assert(patch@.graph.fact(OutletId { node: by, slot: 0 }) == copy);
            }
            let r = patch.shunt_outside(patched_model, from, OutletId { node: by, slot: 0 });
            assert(r.is_ok());
            assert(patch@.shunts =~= Seq::new(
                1,
                |k: int| (OutletId { node: succ, slot: 0 }, OutletId { node: 0, slot: 0 }),
            ));
        } else {
            assert(patch@.shunts =~= Seq::new(
                0,
                |k: int| (OutletId { node: succ, slot: 0 }, OutletId { node: 0, slot: 0 }),
            ));
        }
        Ok(patch)
    }

    /// Whether a node that produces `fact` can be put on `outlet` of
    /// `host`, and why not.
    pub open spec fn intercept_check(host: Graph<F, O>, outlet: OutletId, fact: F) -> Result<
        (),
        ModelError,
    > {
        if !host.has_outlet(outlet) {
            Err(ModelError::NoSuchOutlet(outlet))
        } else if !host.fact(outlet).same(&fact) {
            Err(ModelError::FactMismatch(outlet))
        } else {
            Ok(())
        }
    }

    /// A patch that puts a node with the operator `new_op` and the one
    /// output `fact` on `outlet` of `patched_model`: the node reads the
    /// outlet, and what read the outlet reads the node.
    pub fn intercept(
        patched_model: &Model<F, O>,
        outlet: OutletId,
        name: String,
        new_op: O,
        fact: F,
    ) -> (r: Result<ModelPatch<F, O>, ModelError>)
        requires
            patched_model.wf(),
        ensures
            r is Ok <==> Self::intercept_check(patched_model@, outlet, fact) is Ok,
            match r {
                Ok(p) => {
                    let tap = OutletId { node: 0, slot: 0 };
                    &&& p.wf()
                    &&& p@.graph.fact(tap).same(&patched_model@.fact(outlet))
                    &&& p@.graph == Graph::<F, O>::empty().add_source(
                        incoming_name(outlet.node, outlet.slot),
                        O::source_spec(),
                        p@.graph.fact(tap),
                    ).wire(name@, new_op, seq![fact], seq![tap])
                    &&& p@.incoming == Map::<OutletId, OutletId>::empty().insert(tap, outlet)
                    &&& p@.shunts == seq![(outlet, OutletId { node: 1, slot: 0 })]
                    &&& p@.obliterate.len() == 0
                },
                Err(e) => Self::intercept_check(patched_model@, outlet, fact) == Err::<
                    (),
                    ModelError,
                >(e),
            },
    {
        let mut patch: ModelPatch<F, O> = ModelPatch::new();
        let tap = match patch.tap_model(patched_model, outlet) {
            Ok(t) => t,
            Err(e) => {
                return Err(e);
            },
        };
        let mut facts: Vec<F> = Vec::new();
        facts.push(fact);
        let mut inputs: Vec<OutletId> = Vec::new();
        inputs.push(tap);
        let ghost tapped = patch@.graph;
        proof {
            assert(patch@.graph.has_outlet(tap));
            assert(first_missing(patch@.graph, inputs@, 1).is_none());
            assert(facts@ =~= seq![fact]);
            assert(inputs@ =~= seq![tap]);
            crate::model::graph::lemma_add_node_wf(tapped, name@, new_op, seq![fact]);
            let g1 = tapped.add_node(name@, new_op, seq![fact]);
            assert(g1.has_outlet(tap));
            crate::model::access::lemma_connect(g1, seq![tap], 1);
        }
        let outs = match patch.wire_node(name, new_op, facts, &inputs) {
            Ok(o) => o,
            Err(_) => {
                assert(false);
                return Err(ModelError::NoSuchOutlet(tap));
            },
        };
        let by = OutletId { node: 1, slot: 0 };
        proof {
            assert(patch@.graph.has_outlet(by));
            assert(patch@.graph.fact(by) == fact);
            assert(patch@.graph.fact(tap) == tapped.fact(tap));
        }
        match patch.shunt_outside(patched_model, outlet, by) {
            Ok(_) => {},
            Err(e) => {
                return Err(e);
            },
        }
        assert(patch@.shunts =~= seq![(outlet, by)]);
        Ok(patch)
    }
}

impl<F: Fact, O: Operator> ModelPatch<F, O> {
    /// The patch that taps each input of `host` and puts the tap in the
    /// place of the input it taps. Applied, it leaves `host` as it is.
    pub fn shunt_inputs_back(host: &Model<F, O>) -> (p: ModelPatch<F, O>)
        requires
            host.wf(),
        ensures
            p.wf(),
            p@.is_identity(host@),
            p@.graph.nodes.len() == host@.inputs.len(),
            forall|n: int|
                0 <= n < host@.inputs.len() ==> p@.incoming.contains_key(
                    #[trigger] crate::translator::mapped_key(n as usize, 0),
                ) && p@.incoming[crate::translator::mapped_key(n as usize, 0)] == host@.inputs[n],
            forall|n: int|
                0 <= n < host@.inputs.len() ==> crate::patch::laws::replaced(
                    p@,
                    #[trigger] host@.inputs[n],
                ),
            p@.applied(host@) == host@,
            host.nodes.len() + host.inputs.len() <= usize::MAX ==> p@.check(host@) is Ok,
    {
        let mut patch: ModelPatch<F, O> = ModelPatch::new();
        let mut i: usize = 0;
        while i < host.inputs.len()
            invariant
                0 <= i <= host.inputs.len(),
                host.wf(),
                patch.wf(),
                patch@.graph.nodes.len() == i,
                patch@.obliterate.len() == 0,
                forall|n: int|
                    0 <= n < i ==> (#[trigger] patch@.graph.nodes[n]).op.is_source_spec()
                        && patch@.graph.nodes[n].facts.len() == 1,
                forall|n: int|
                    0 <= n < i ==> patch@.incoming.contains_key(
                        #[trigger] crate::translator::mapped_key(n as usize, 0),
                    ) && patch@.incoming[crate::translator::mapped_key(n as usize, 0)]
                        == host@.inputs[n] && host@.has_outlet(
                        patch@.incoming[crate::translator::mapped_key(n as usize, 0)],
                    ),
                forall|n: int|
                    0 <= n < i ==> crate::patch::laws::replaced(patch@, #[trigger] host@.inputs[n]),
                forall|s: int|
                    0 <= s < patch@.shunts.len() ==> {
                        let (from, by) = #[trigger] patch@.shunts[s];
                        &&& by.node < i
                        &&& by.slot == 0
                        &&& patch@.incoming.contains_key(by)
                        &&& patch@.incoming[by] == from
                        &&& host@.has_outlet(from)
                    },
            decreases host.inputs.len() - i,
        {
            let outlet = host.inputs[i];
            assert(host@.has_outlet(host@.inputs[i as int]));
            let ghost before = patch@;
            let tap = match patch.tap_model(host, outlet) {
                Ok(t) => t,
                Err(e) => {
                    assert(false);
                    return patch;
                },
            };
            let ghost tapped = patch@;
            proof {
                let a = tapped.graph.fact(tap);
                let b = host@.fact(outlet);
                F::lemma_same(&a, &b, &a);
                assert(tapped.graph.has_outlet(tap));
                assert forall|n: int| 0 <= n < i + 1 implies (
                #[trigger] tapped.graph.nodes[n]).op.is_source_spec() && tapped.graph.nodes[n].facts.len()
                    == 1 by {
                    if n < i {
                        assert(tapped.graph.nodes[n] == before.graph.nodes[n]);
                    }
                }
                assert forall|n: int| 0 <= n < i + 1 implies tapped.incoming.contains_key(
                    #[trigger] crate::translator::mapped_key(n as usize, 0),
                ) && tapped.incoming[crate::translator::mapped_key(n as usize, 0)]
                    == host@.inputs[n] && host@.has_outlet(
                    tapped.incoming[crate::translator::mapped_key(n as usize, 0)],
                ) by {
                    if n < i {
                        assert(before.incoming.contains_key(
                            crate::translator::mapped_key(n as usize, 0),
                        ));
                    } else {
                        assert(crate::translator::mapped_key(n as usize, 0) == tap);
                    }
                }
            }
            let ghost old_has = patch.shunt_outlet_by@.contains_key(outlet);
            let ghost at = patch.shunt_outlet_by.keys@.index_of(outlet);
            match patch.shunt_outside(host, outlet, tap) {
                Ok(_) => {},
                Err(e) => {
                    assert(false);
                },
            }
            proof {
                let after = patch@;
                assert forall|n: int| 0 <= n < i + 1 implies crate::patch::laws::replaced(
                    after,
                    #[trigger] host@.inputs[n],
                ) by {
                    if n < i && host@.inputs[n] != outlet {
                        assert(crate::patch::laws::replaced(tapped, host@.inputs[n]));
                        let s = choose|s: int|
                            0 <= s < tapped.shunts.len() && (#[trigger] tapped.shunts[s]).0
                                == host@.inputs[n];
                        assert(after.shunts[s].0 == host@.inputs[n]);
                    } else {
                        if old_has {
                            assert(after.shunts[at].0 == outlet);
                        } else {
                            assert(after.shunts[after.shunts.len() - 1].0 == outlet);
                        }
                    }
                }
            }
            i += 1;
        }
        proof {
            assert(host@.sized()) by {
                assert forall|n: int| 0 <= n < host@.nodes.len() implies (
                #[trigger] host@.nodes[n]).facts.len() <= usize::MAX by {
                    assert(host@.nodes[n].facts.len() == host.nodes[n].outputs.len());
                }
            }
            crate::patch::laws::lemma_identity_patch(patch@, host@);
            let p = patch@;
            assert forall|o: OutletId|
                #[trigger] p.graph.has_outlet(o) && p.graph.nodes[o.node as int].op.is_source_spec() implies p.incoming.contains_key(
                o,
            ) && host@.has_outlet(p.incoming[o]) by {
                let n = o.node as int;
                assert(p.graph.nodes[n].facts.len() == 1);
                assert(p.incoming.contains_key(crate::translator::mapped_key(n as usize, 0)));
                assert(crate::translator::mapped_key(n as usize, 0) == o);
            }
            assert(crate::patch::laws::all_tapped(p, host@));
            assert(p.graph.sized());
            crate::patch::laws::lemma_all_tapped(p, host@, 0, 0);
            assert forall|s: int| 0 <= s < p.shunts.len() implies host@.has_outlet(
                (#[trigger] p.shunts[s]).0,
            ) && p.graph.has_outlet(p.shunts[s].1) by {}
            crate::patch::laws::lemma_shunts_in_place(p, host@, 0);
        }
        patch
    }
}

} // verus!
