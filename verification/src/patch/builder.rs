//! Building a patch against its host.

use vstd::prelude::*;
use crate::model::fact::Fact;
use crate::model::graph::{Graph, Model, ModelError, Operator, OutletId};
use crate::model::access::{first_missing, outlets_of};
use crate::model::map::OutletMap;
use crate::patch::spec::Patch;

verus! {

/// A change to a model: the nodes to add, the outlets of the model that
/// they tap, the outlets of the model that outlets of theirs replace, and
/// the nodes of the model to neutralize.
pub struct ModelPatch<F, O> {
    /// The nodes to add. A source among them stands for an outlet of the
    /// host.
    pub model: Model<F, O>,
    /// For the outlet of each source, the outlet of the host it taps.
    pub incoming: OutletMap,
    /// For each outlet of the host to replace, its replacement in the patch.
    pub shunt_outlet_by: OutletMap,
    /// The nodes of the host to neutralize.
    pub obliterate: Vec<usize>,
}

impl<F, O> View for ModelPatch<F, O> {
    type V = Patch<F, O>;

    open spec fn view(&self) -> Patch<F, O> {
        Patch {
            graph: self.model@,
            incoming: self.incoming@,
            shunts: self.shunt_outlet_by.entries(),
            obliterate: self.obliterate@,
        }
    }
}

/// The decimal digit for `d`.
pub open spec fn digit(d: nat) -> char {
    if d == 0 {
        '0'
    } else if d == 1 {
        '1'
    } else if d == 2 {
        '2'
    } else if d == 3 {
        '3'
    } else if d == 4 {
        '4'
    } else if d == 5 {
        '5'
    } else if d == 6 {
        '6'
    } else if d == 7 {
        '7'
    } else if d == 8 {
        '8'
    } else {
        '9'
    }
}

/// The number `n` in decimal digits, without leading zeros.
pub open spec fn decimal(n: nat) -> Seq<char>
    decreases n,
{
    if n < 10 {
        seq![digit(n)]
    } else {
        decimal(n / 10).push(digit(n % 10))
    }
}

/// The name of the source that taps the slot `slot` of the node `node`:
/// the word `incoming`, a hyphen, the decimal digits of the node, a slash
/// and those of the slot.
pub open spec fn incoming_name(node: usize, slot: usize) -> Seq<char> {
    "incoming-"@ + decimal(node as nat) + seq!['/'] + decimal(slot as nat)
}

/// `format!` of std with the pattern `incoming-{}/{}` on two numbers: the
/// name of the source that taps an outlet, in which std writes each number
/// in decimal digits without leading zeros.
#[verifier::external_body]
fn make_incoming_name(node: usize, slot: usize) -> (r: String)
    ensures
        r@ == incoming_name(node, slot),
{
    format!("incoming-{}/{}", node, slot)
}

impl<F: Fact, O: Operator> ModelPatch<F, O> {
    /// The graph and the maps of the patch are consistent.
    pub open spec fn wf(&self) -> bool {
        self.model.wf() && self.incoming.wf() && self.shunt_outlet_by.wf()
    }

    /// A patch that changes nothing.
    pub fn new() -> (r: Self)
        ensures
            r.wf(),
            r@.graph == Graph::<F, O>::empty(),
            r@.incoming == Map::<OutletId, OutletId>::empty(),
            r@.shunts.len() == 0,
            r@.obliterate.len() == 0,
            r.incoming.keys.len() == 0,
            r.shunt_outlet_by.keys.len() == 0,
    {
        ModelPatch {
            model: Model::new(),
            incoming: OutletMap::new(),
            shunt_outlet_by: OutletMap::new(),
            obliterate: Vec::new(),
        }
    }

    /// Whether the patch adds no node, replaces no outlet and neutralizes
    /// no node.
    pub fn is_empty(&self) -> (r: bool)
        ensures
            r == (self@.graph.nodes.len() == 0 && self@.shunts.len() == 0 && self@.obliterate.len()
                == 0),
    {
        self.model.nodes.is_empty() && self.shunt_outlet_by.is_empty() && self.obliterate.is_empty()
    }

    /// Adds a source that taps `outlet` of the host `model`, with a copy of
    /// its fact, and gives the outlet of the source.
    pub fn tap_model(&mut self, model: &Model<F, O>, outlet: OutletId) -> (r: Result<
        OutletId,
        ModelError,
    >)
        requires
            old(self).wf(),
        ensures
            final(self).wf(),
            match r {
                Ok(tap) => {
                    &&& model@.has_outlet(outlet)
                    &&& tap == (OutletId { node: old(self).model.nodes.len(), slot: 0 })
                    &&& final(self)@.graph.fact(tap).same(&model@.fact(outlet))
                    &&& final(self)@.graph == old(self)@.graph.add_source(
                        incoming_name(outlet.node, outlet.slot),
                        O::source_spec(),
                        final(self)@.graph.fact(tap),
                    )
                    &&& final(self)@.graph.nodes.last().op.is_source_spec()
                    &&& final(self)@.incoming == old(self)@.incoming.insert(tap, outlet)
                    &&& final(self)@.shunts == old(self)@.shunts
                    &&& final(self)@.obliterate == old(self)@.obliterate
                },
                Err(e) => !model@.has_outlet(outlet) && e == ModelError::NoSuchOutlet(outlet)
                    && final(self)@ == old(self)@,
            },
    {
        let fact = match model.outlet_fact(outlet) {
            Ok(f) => f.duplicate(),
            Err(e) => {
                return Err(e);
            },
        };
        let tap = self.model.add_source(make_incoming_name(outlet.node, outlet.slot), fact);
        self.incoming.insert(tap, outlet);
        Ok(tap)
    }

    /// Has the outlet `by` of the patch replace `outlet` of the host
    /// `model`, if what is known of the two is the same.
    pub fn shunt_outside(&mut self, model: &Model<F, O>, outlet: OutletId, by: OutletId) -> (r:
        Result<(), ModelError>)
        requires
            old(self).wf(),
        ensures
            final(self).wf(),
            r == old(self)@.shunt_check(model@, outlet, by),
            final(self)@.graph == old(self)@.graph,
            final(self)@.incoming == old(self)@.incoming,
            final(self)@.obliterate == old(self)@.obliterate,
            r is Err ==> final(self)@.shunts == old(self)@.shunts,
            r is Ok ==> final(self).shunt_outlet_by@ == old(self).shunt_outlet_by@.insert(outlet, by)
                && final(self)@.shunts == (if old(self).shunt_outlet_by@.contains_key(outlet) {
                old(self)@.shunts.update(old(self).shunt_outlet_by.keys@.index_of(outlet), (outlet, by))
            } else {
                old(self)@.shunts.push((outlet, by))
            }),
    {
        let host_fact = match model.outlet_fact(outlet) {
            Ok(f) => f,
            Err(e) => {
                return Err(e);
            },
        };
        let replacement = match self.model.outlet_fact(by) {
            Ok(f) => f,
            Err(e) => {
                return Err(e);
            },
        };
        if !host_fact.same_as(replacement) {
            return Err(ModelError::FactMismatch(outlet));
        }
        self.shunt_outlet_by.insert(outlet, by);
        Ok(())
    }

    /// Marks the node `node` of the host to be neutralized.
    pub fn obliterate(&mut self, node: usize) -> (r: Result<(), ModelError>)
        requires
            old(self).wf(),
        ensures
            final(self).wf(),
            r.is_ok(),
            final(self)@ == (Patch {
                obliterate: old(self)@.obliterate.push(node),
                ..old(self)@
            }),
    {
        self.obliterate.push(node);
        Ok(())
    }

    /// Adds a node that reads `inputs`, outlets of the patch, and gives its
    /// outlets.
    pub fn wire_node(&mut self, name: String, op: O, facts: Vec<F>, inputs: &Vec<OutletId>) -> (r:
        Result<Vec<OutletId>, ModelError>)
        requires
            old(self).wf(),
        ensures
            final(self).wf(),
            final(self)@.incoming == old(self)@.incoming,
            final(self)@.shunts == old(self)@.shunts,
            final(self)@.obliterate == old(self)@.obliterate,
            match first_missing(old(self)@.graph, inputs@, 0) {
                Some(o) => r == Err::<Vec<OutletId>, ModelError>(ModelError::NoSuchOutlet(o))
                    && final(self)@.graph == old(self)@.graph,
                None => r.is_ok() && r.unwrap()@ == outlets_of(
                    old(self).model.nodes.len(),
                    facts.len() as int,
                ) && final(self)@.graph == old(self)@.graph.wire(name@, op, facts@, inputs@),
            },
            forall|o: OutletId| old(self)@.graph.has_outlet(o) ==> final(self)@.graph.has_outlet(o),
            r is Ok ==> {
                let node = final(self)@.graph.nodes.last();
                &&& final(self)@.graph.nodes.len() == old(self)@.graph.nodes.len() + 1
                &&& node.name == name@
                &&& node.op == op
                &&& node.facts == facts@
                &&& node.inputs == inputs@
                &&& forall|k: int|
                    0 <= k < facts.len() ==> final(self)@.graph.has_outlet(
                        #[trigger] outlets_of(old(self).model.nodes.len(), facts.len() as int)[k],
                    )
                &&& forall|m: int|
                    0 <= m < old(self)@.graph.nodes.len() ==> (#[trigger] final(self)@.graph.nodes[m]).facts == old(self)@.graph.nodes[m].facts && final(self)@.graph.nodes[m].op == old(self)@.graph.nodes[m].op && final(self)@.graph.nodes[m].name == old(self)@.graph.nodes[m].name && final(self)@.graph.nodes[m].inputs == old(self)@.graph.nodes[m].inputs
            },
    {
        self.model.wire(name, op, facts, inputs)
    }
}

impl<F: Fact, O> Patch<F, O> {
    /// Whether `by` can replace `outlet` of `host`, and why not.
    pub open spec fn shunt_check(self, host: Graph<F, O>, outlet: OutletId, by: OutletId) -> Result<
        (),
        ModelError,
    > {
        if !host.has_outlet(outlet) {
            Err(ModelError::NoSuchOutlet(outlet))
        } else if !self.graph.has_outlet(by) {
            Err(ModelError::NoSuchOutlet(by))
        } else if !host.fact(outlet).same(&self.graph.fact(by)) {
            Err(ModelError::FactMismatch(outlet))
        } else {
            Ok(())
        }
    }
}

} // verus!
