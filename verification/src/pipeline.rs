//! The stages that a model goes through, and the passes that take it from
//! one to the next.

use vstd::prelude::*;
use vstd::string::StringExecFns;
use crate::facts::{InferenceFact, PulsedFact, TypedFact};
use crate::model::access::{first_missing, outlets_of};
use crate::model::graph::{Graph, Model, ModelError, OutletId};
use crate::ops::declutter::{declutter_node, simplifies, simplify_refusal, wants};
use crate::ops::op::Op;
use crate::patch::builder::ModelPatch;
use crate::patch::spec::Patch;
use crate::pulse::{PulsedToTyped, Pulsifier, pulsify};
use crate::translator::{
    always_taken, chained, first_refused, halted, made, maps_needed, plain_inputs, stands_for,
    step_at, translation, IntoTranslator, Steps, Translate,
};

verus! {

/// A stage of the pipeline.
#[derive(Debug, Clone, Copy, PartialEq, Eq, Structural)]
pub enum Stage {
    Load,
    Analyse,
    Incorporate,
    Type,
    Declutter,
    PulseNormalize,
    Pulse,
    PulseToType,
    PulseDeclutter,
    Optimize,
}

/// Whether the two texts are the same.
fn same_text(a: &str, b: &str) -> (r: bool)
    ensures
        r == (a@ == b@),
{
    String::from_str(a) == String::from_str(b)
}

impl Stage {
    /// The name of the stage.
    pub open spec fn name_spec(self) -> Seq<char> {
        match self {
            Stage::Load => "load"@,
            Stage::Analyse => "analyse"@,
            Stage::Incorporate => "incorporate"@,
            Stage::Type => "type"@,
            Stage::Declutter => "declutter"@,
            Stage::PulseNormalize => "pulse-normalize"@,
            Stage::Pulse => "pulse"@,
            Stage::PulseToType => "pulse-to-type"@,
            Stage::PulseDeclutter => "pulse-declutter"@,
            Stage::Optimize => "optimize"@,
        }
    }

    /// The name of the stage.
    pub fn name(&self) -> (r: &'static str)
        ensures
            r@ == self.name_spec(),
    {
        match self {
            Stage::Load => "load",
            Stage::Analyse => "analyse",
            Stage::Incorporate => "incorporate",
            Stage::Type => "type",
            Stage::Declutter => "declutter",
            Stage::PulseNormalize => "pulse-normalize",
            Stage::Pulse => "pulse",
            Stage::PulseToType => "pulse-to-type",
            Stage::PulseDeclutter => "pulse-declutter",
            Stage::Optimize => "optimize",
        }
    }

    /// The stage of the name `name`, if there is one.
    pub fn from_name(name: &str) -> (r: Option<Stage>)
        ensures
            match r {
                Some(stage) => name@ == stage.name_spec(),
                None => forall|stage: Stage| name@ != stage.name_spec(),
            },
    {
        if same_text(name, "load") {
            Some(Stage::Load)
        } else if same_text(name, "analyse") {
            Some(Stage::Analyse)
        } else if same_text(name, "incorporate") {
            Some(Stage::Incorporate)
        } else if same_text(name, "type") {
            Some(Stage::Type)
        } else if same_text(name, "declutter") {
            Some(Stage::Declutter)
        } else if same_text(name, "pulse-normalize") {
            Some(Stage::PulseNormalize)
        } else if same_text(name, "pulse") {
            Some(Stage::Pulse)
        } else if same_text(name, "pulse-to-type") {
            Some(Stage::PulseToType)
        } else if same_text(name, "pulse-declutter") {
            Some(Stage::PulseDeclutter)
        } else if same_text(name, "optimize") {
            Some(Stage::Optimize)
        } else {
            None
        }
    }

    /// The stage at which the lowering of a model ends that is asked to
    /// stop at this one: this stage as far as typing and decluttering go;
    /// beyond, decluttering where the model is not to stream, and else
    /// this stage as far as the decluttering of the streaming model goes,
    /// which is where optimizing ends too.
    pub open spec fn reached(self, pulse: bool) -> Stage {
        match self {
            Stage::Load => Stage::Load,
            Stage::Analyse => Stage::Analyse,
            Stage::Incorporate => Stage::Incorporate,
            Stage::Type => Stage::Type,
            Stage::Declutter => Stage::Declutter,
            _ => if !pulse {
                Stage::Declutter
            } else {
                match self {
                    Stage::PulseNormalize => Stage::PulseNormalize,
                    Stage::Pulse => Stage::Pulse,
                    Stage::PulseToType => Stage::PulseToType,
                    _ => Stage::PulseDeclutter,
                }
            },
        }
    }

    /// The stage that follows this one, if one does: the stages of
    /// streaming come after decluttering where the model is to stream, and
    /// optimizing comes last.
    pub fn next(&self, pulse: bool) -> (r: Option<Stage>)
        ensures
            r == (match *self {
                Stage::Load => Some(Stage::Analyse),
                Stage::Analyse => Some(Stage::Incorporate),
                Stage::Incorporate => Some(Stage::Type),
                Stage::Type => Some(Stage::Declutter),
                Stage::Declutter => if pulse {
                    Some(Stage::PulseNormalize)
                } else {
                    Some(Stage::Optimize)
                },
                Stage::PulseNormalize => Some(Stage::Pulse),
                Stage::Pulse => Some(Stage::PulseToType),
                Stage::PulseToType => Some(Stage::PulseDeclutter),
                Stage::PulseDeclutter => Some(Stage::Optimize),
                Stage::Optimize => None,
            }),
    {
        match self {
            Stage::Load => Some(Stage::Analyse),
            Stage::Analyse => Some(Stage::Incorporate),
            Stage::Incorporate => Some(Stage::Type),
            Stage::Type => Some(Stage::Declutter),
            Stage::Declutter => if pulse {
                Some(Stage::PulseNormalize)
            } else {
                Some(Stage::Optimize)
            },
            Stage::PulseNormalize => Some(Stage::Pulse),
            Stage::Pulse => Some(Stage::PulseToType),
            Stage::PulseToType => Some(Stage::PulseDeclutter),
            Stage::PulseDeclutter => Some(Stage::Optimize),
            Stage::Optimize => None,
        }
    }

    /// The stage at which to stop: the one that was asked for, or else
    /// optimizing where that was asked for, or else decluttering, of the
    /// streaming model where the model is to stream.
    pub fn stop_at(pass: Option<Stage>, optimize: bool, pulse: bool) -> (r: Stage)
        ensures
            r == (match pass {
                Some(s) => s,
                None => if optimize {
                    Stage::Optimize
                } else if pulse {
                    Stage::PulseDeclutter
                } else {
                    Stage::Declutter
                },
            }),
    {
        match pass {
            Some(s) => s,
            None => if optimize {
                Stage::Optimize
            } else if pulse {
                Stage::PulseDeclutter
            } else {
                Stage::Declutter
            },
        }
    }
}

/// Whether no node that the outputs depend on has a simplification to
/// offer.
pub open spec fn settled(g: Graph<TypedFact, Op>) -> bool {
    forall|n: usize| n < g.nodes.len() && #[trigger] g.needed(n as int) ==> !wants(g, n as int)
}

/// Whether the node at the place `q` of the evaluation order `order` of
/// `g` is the first of the order that has a simplification to offer.
#[verifier::opaque]
pub open spec fn first_wanting(g: Graph<TypedFact, Op>, order: Seq<usize>, q: int) -> bool {
    &&& g.is_eval_order(order)
    &&& forall|n: usize| order.contains(n) <==> g.needed(n as int)
    &&& 0 <= q < order.len()
    &&& forall|j: int| 0 <= j < q ==> !wants(g, #[trigger] order[j] as int)
    &&& wants(g, order[q] as int)
}

/// Whether `after` is `before` with the patch `p` applied, the
/// simplification that the first node of the evaluation order `order` that
/// has one to offer, the one at the place `q`, offers.
pub open spec fn patches(
    before: Graph<TypedFact, Op>,
    order: Seq<usize>,
    q: int,
    p: Patch<TypedFact, Op>,
    after: Graph<TypedFact, Op>,
) -> bool {
    &&& first_wanting(before, order, q)
    &&& simplify_refusal(before, order[q] as int).is_none()
    &&& simplifies(p, before, order[q] as int)
    &&& p.check(before) is Ok
    &&& after == p.applied(before)
}

/// Whether `p` is the simplification that the node at the place `q` of the
/// evaluation order `order` of `g` offers, the first of the order that has
/// one to offer.
#[verifier::opaque]
pub open spec fn offers(p: Patch<TypedFact, Op>, g: Graph<TypedFact, Op>, order: Seq<usize>, q: int) -> bool {
    &&& first_wanting(g, order, q)
    &&& simplify_refusal(g, order[q] as int).is_none()
    &&& simplifies(p, g, order[q] as int)
}

/// One step of simplification: the patch that the first node offers,
/// applied.
pub proof fn lemma_patched(
    before: Graph<TypedFact, Op>,
    order: Seq<usize>,
    q: int,
    p: Patch<TypedFact, Op>,
    after: Graph<TypedFact, Op>,
)
    requires
        offers(p, before, order, q),
        p.check(before) is Ok,
        after == p.applied(before),
    ensures
        patched(before, after),
{
    reveal(offers);
    assert(patches(before, order, q, p, after));
}

/// One more step of simplification.
pub proof fn lemma_reaches_on(
    start: Graph<TypedFact, Op>,
    mid: Graph<TypedFact, Op>,
    end: Graph<TypedFact, Op>,
    k: nat,
)
    requires
        reaches(start, mid, k),
        patched(mid, end),
    ensures
        reaches(start, end, k + 1),
{
    reveal_with_fuel(reaches, 2);
}

/// No step of simplification leaves a model as it is.
pub proof fn lemma_reaches_none(g: Graph<TypedFact, Op>)
    ensures
        reaches(g, g, 0),
{
    reveal_with_fuel(reaches, 1);
}

/// The first node of an evaluation order that has a simplification to
/// offer.
pub proof fn lemma_first_wanting(g: Graph<TypedFact, Op>, order: Seq<usize>, q: int)
    requires
        g.is_eval_order(order),
        forall|n: usize| order.contains(n) <==> g.needed(n as int),
        0 <= q < order.len(),
        forall|j: int| 0 <= j < q ==> !wants(g, #[trigger] order[j] as int),
        wants(g, order[q] as int),
    ensures
        first_wanting(g, order, q),
{
    reveal(first_wanting);
}

/// The patch that the first node offers.
pub proof fn lemma_offers(p: Patch<TypedFact, Op>, g: Graph<TypedFact, Op>, order: Seq<usize>, q: int)
    requires
        first_wanting(g, order, q),
        simplify_refusal(g, order[q] as int).is_none(),
        simplifies(p, g, order[q] as int),
    ensures
        offers(p, g, order, q),
{
    reveal(offers);
}

/// The first node cannot offer its simplification.
pub proof fn lemma_blocked_node(g: Graph<TypedFact, Op>, order: Seq<usize>, q: int, e: ModelError)
    requires
        first_wanting(g, order, q),
        simplify_refusal(g, order[q] as int) == Some(e),
    ensures
        blocked(g, e),
{
    reveal(blocked);
}

/// The patch of the first node cannot be applied.
pub proof fn lemma_blocked_patch(
    g: Graph<TypedFact, Op>,
    order: Seq<usize>,
    q: int,
    p: Patch<TypedFact, Op>,
    e: ModelError,
)
    requires
        offers(p, g, order, q),
        p.check(g) == Err::<(), ModelError>(e),
    ensures
        blocked(g, e),
{
    reveal(offers);
    reveal(blocked);
    assert(first_wanting(g, order, q));
}

/// Whether `after` is `before` after one step of simplification: the first
/// node in evaluation order that has a simplification to offer has had its
/// patch applied.
pub open spec fn patched(before: Graph<TypedFact, Op>, after: Graph<TypedFact, Op>) -> bool {
    exists|order: Seq<usize>, q: int, p: Patch<TypedFact, Op>| #[trigger]
        patches(before, order, q, p, after)
}

/// Whether `end` is `start` after `k` steps of simplification.
#[verifier::opaque]
pub open spec fn reaches(start: Graph<TypedFact, Op>, end: Graph<TypedFact, Op>, k: nat) -> bool
    decreases k,
{
    if k == 0 {
        start == end
    } else {
        exists|mid: Graph<TypedFact, Op>|
            reaches(start, mid, (k - 1) as nat) && #[trigger] patched(mid, end)
    }
}

/// Whether simplification cannot go on from `g` for the reason `e`: the
/// first node in evaluation order that has a simplification to offer
/// cannot offer it, or its patch cannot be applied.
#[verifier::opaque]
pub open spec fn blocked(g: Graph<TypedFact, Op>, e: ModelError) -> bool {
    exists|order: Seq<usize>, q: int| #[trigger]
        first_wanting(g, order, q) && (simplify_refusal(g, order[q] as int) == Some(e) || (
        simplify_refusal(g, order[q] as int).is_none() && exists|p: Patch<TypedFact, Op>| #[trigger]
            simplifies(p, g, order[q] as int) && p.check(g) == Err::<(), ModelError>(e)))
}

/// The simplification that the first node of the evaluation order `order`
/// that has one to offer offers, with the place of the node; nothing where
/// no node has one to offer.
fn first_offer(model: &Model<TypedFact, Op>, order: &Vec<usize>) -> (r: Result<
    Option<(usize, ModelPatch<TypedFact, Op>)>,
    ModelError,
>)
    requires
        model.wf(),
        model@.is_eval_order(order@),
        forall|n: usize| order@.contains(n) <==> model@.needed(n as int),
    ensures
        match r {
            Ok(None) => forall|q: int| 0 <= q < order.len() ==> !wants(model@, #[trigger] order[q] as int),
            Ok(Some((q, patch))) => patch.wf() && q < order.len() && offers(
                patch@,
                model@,
                order@,
                q as int,
            ),
            Err(e) => !settled(model@) && blocked(model@, e),
        },
{
    let mut p: usize = 0;
    while p < order.len()
        invariant
            0 <= p <= order.len(),
            model.wf(),
            model@.is_eval_order(order@),
            forall|n: usize| order@.contains(n) <==> model@.needed(n as int),
            forall|q: int| 0 <= q < p ==> !wants(model@, #[trigger] order[q] as int),
        decreases order.len() - p,
    {
        let id = order[p];
        assert(order@.contains(order@[p as int]));
        assert(model@.needed(id as int));
        match declutter_node(model, id) {
            Ok(Some(patch)) => {
                proof {
                    lemma_first_wanting(model@, order@, p as int);
                    lemma_offers(patch@, model@, order@, p as int);
                }
                return Ok(Some((p, patch)));
            },
            Ok(None) => {
                p += 1;
            },
            Err(e) => {
                proof {
                    assert(!settled(model@));
                    lemma_first_wanting(model@, order@, p as int);
                    lemma_blocked_node(model@, order@, p as int, e);
                }
                return Err(e);
            },
        }
    }
    Ok(None)
}

/// Whether a model is not settled in which a node of the evaluation order
/// has a simplification to offer.
pub proof fn lemma_unsettled(p: Patch<TypedFact, Op>, g: Graph<TypedFact, Op>, order: Seq<usize>, q: int)
    requires
        offers(p, g, order, q),
    ensures
        !settled(g),
{
    reveal(offers);
    reveal(first_wanting);
    assert(order.contains(order[q]));
    assert(g.needed(order[q] as int));
}

/// Simplifies the model: as long as a node that the outputs depend on has
/// a simplification to offer, the first such in evaluation order has its
/// patch applied; after `budget` patches the pass gives up. It tells
/// whether the model is settled, and says that it is not only after
/// `budget` patches. It fails on a model in which nodes that the outputs
/// depend on depend on each other in a circle, and where the first node
/// cannot offer its simplification or its patch cannot be applied. The
/// model is left as the patches that were applied have made it. The
/// inputs of the model stay, and it has as many outputs as before. On a
/// settled model the pass changes nothing.
pub fn declutter(model: &mut Model<TypedFact, Op>, budget: usize) -> (r: Result<bool, ModelError>)
    requires
        old(model).wf(),
    ensures
        final(model).wf(),
        final(model)@.inputs == old(model)@.inputs,
        final(model)@.outputs.len() == old(model)@.outputs.len(),
        exists|k: nat| k <= budget && #[trigger] reaches(old(model)@, final(model)@, k),
        match r {
            Ok(done) => done == settled(final(model)@) && !final(model)@.has_cycle() && (!done
                ==> reaches(old(model)@, final(model)@, budget as nat)),
            Err(e) => if final(model)@.has_cycle() {
                e == ModelError::Cycle
            } else {
                !settled(final(model)@) && blocked(final(model)@, e)
            },
        },
        settled(old(model)@) ==> final(model)@ == old(model)@,
        old(model)@.has_cycle() ==> final(model)@ == old(model)@,
{
    let mut passes: usize = 0;
    proof {
        lemma_reaches_none(model@);
    }
    loop
        invariant
            model.wf(),
            passes <= budget,
            model@.inputs == old(model)@.inputs,
            model@.outputs.len() == old(model)@.outputs.len(),
            settled(old(model)@) ==> model@ == old(model)@,
            old(model)@.has_cycle() ==> model@ == old(model)@,
            reaches(old(model)@, model@, passes as nat),
        decreases budget - passes,
    {
        let order = match model.eval_order() {
            Ok(o) => o,
            Err(e) => {
                return Err(e);
            },
        };
        let (p, found) = match first_offer(model, &order) {
            Ok(Some((q, patch))) => (q, Some(patch)),
            Ok(None) => (order.len(), None),
            Err(e) => {
                return Err(e);
            },
        };
        match found {
            None => {
                proof {
                    assert forall|n: usize|
                        n < model@.nodes.len() && #[trigger] model@.needed(n as int) implies !wants(
                        model@,
                        n as int,
                    ) by {
                        assert(order@.contains(n));
                        let q = choose|q: int| 0 <= q < order.len() && order@[q] == n;
                        assert(!wants(model@, order[q] as int));
                    }
                }
                return Ok(true);
            },
            Some(patch) => {
                proof {
                    lemma_unsettled(patch@, model@, order@, p as int);
                }
                if passes >= budget {
                    return Ok(false);
                }
                let ghost before = model@;
                let ghost change = patch@;
                match patch.apply(model) {
                    Ok(_) => {
                        proof {
                            lemma_patched(before, order@, p as int, change, model@);
                            lemma_reaches_on(old(model)@, before, model@, passes as nat);
                        }
                    },
                    Err(e) => {
                        proof {
                            lemma_blocked_patch(model@, order@, p as int, change, e);
                        }
                        return Err(e);
                    },
                }
                passes += 1;
            },
        }
    }
}

/// Whether all that is known of the outputs of the node `n` is complete.
pub open spec fn complete_at(raw: Graph<InferenceFact, Op>, n: int) -> bool {
    forall|k: int| 0 <= k < raw.nodes[n].facts.len() ==> (#[trigger] raw.nodes[n].facts[k]).complete()
}

/// Whether all that is known of the outputs of the nodes that are typed is
/// complete: of the nodes that the outputs depend on, and of the nodes of
/// the inputs.
pub open spec fn all_complete(raw: Graph<InferenceFact, Op>) -> bool {
    forall|n: int| #[trigger] raw.needed(n) || raw.is_input_node(n) ==> complete_at(raw, n)
}

/// No fact from the `i`-th on is refused where they are all complete, and
/// only there.
pub proof fn lemma_first_refused(facts: Seq<InferenceFact>, i: int)
    requires
        0 <= i,
    ensures
        (first_refused::<InferenceFact, TypedFact>(facts, i) == facts.len()) <==> (forall|k: int|
            i <= k < facts.len() ==> (#[trigger] facts[k]).complete()),
        i <= facts.len() ==> i <= first_refused::<InferenceFact, TypedFact>(facts, i) <= facts.len(),
    decreases facts.len() - i,
{
    if i < facts.len() {
        lemma_first_refused(facts, i + 1);
        if facts[i].complete() {
            assert forall|k: int| i <= k < facts.len() && (forall|j: int|
                i + 1 <= j < facts.len() ==> (#[trigger] facts[j]).complete()) implies (
            #[trigger] facts[k]).complete() by {}
        }
    }
}

/// A model that has been typed node by node had complete facts at each
/// node that its outputs depend on.
pub proof fn lemma_typed_complete(
    raw: Graph<InferenceFact, Op>,
    typed: Graph<TypedFact, Op>,
    mapping: Map<OutletId, OutletId>,
    n: int,
)
    requires
        translation(IntoTranslator, raw, typed, mapping),
        raw.needed(n),
        0 <= n <= usize::MAX,
    ensures
        complete_at(raw, n),
{
    reveal(translation);
    let (order, g, by) = choose|
        order: Seq<usize>,
        g: Graph<TypedFact, Op>,
        by: Map<OutletId, OutletId>,
    | #[trigger] made(IntoTranslator, raw, order, g, by, typed, mapping);
    let p = order.len() as int;
    let (graphs, maps, mids, outs) = choose|
        graphs: Seq<Graph<TypedFact, Op>>,
        maps: Seq<Map<OutletId, OutletId>>,
        mids: Seq<Graph<TypedFact, Op>>,
        outs: Seq<Seq<OutletId>>,
    | #[trigger]
        chained(IntoTranslator, raw, order, p, graphs, maps, mids, outs) && graphs[p] == g && maps[p]
            == by;
    assert(order.contains(n as usize));
    let q = choose|q: int| 0 <= q < order.len() && order[q] == n as usize;
    assert(step_at(IntoTranslator, raw, order, graphs, maps, mids, outs, q));
    lemma_first_refused(raw.nodes[n].facts, 0);
}

/// The typed model that says what `model` says, where all it says is
/// complete: each node that the outputs depend on as it is, its facts
/// typed, one after the other in an evaluation order. It stands for
/// `model` by some mapping of the outlets. There is none of a model in
/// which nodes that the outputs depend on depend on each other in a
/// circle, nor of one in which something is not complete that is known of
/// such a node; else typing fails only where it halts at a node. There is
/// one of a model without a circle in which all is complete and the nodes
/// of the inputs read nothing.
pub fn into_typed(model: &Model<InferenceFact, Op>) -> (r: Result<Model<TypedFact, Op>, ModelError>)
    requires
        model.wf(),
    ensures
        match r {
            Ok(typed) => typed.wf() && exists|mapping: Map<OutletId, OutletId>| #[trigger]
                stands_for(model@, typed@, mapping) && maps_needed(model@, typed@, mapping)
                    && translation(IntoTranslator, model@, typed@, mapping),
            Err(e) => (e is Cycle <==> model@.has_cycle()) && (!(e is Cycle) ==> halted::<
                InferenceFact,
                Op,
                TypedFact,
                Op,
                IntoTranslator,
            >(IntoTranslator, model@)),
        },
        r is Ok ==> !model@.has_cycle(),
        r is Ok ==> forall|n: usize| #[trigger] model@.needed(n as int) ==> complete_at(model@, n as int),
        model@.inputs.len() == 0 && model@.outputs.len() == 0 ==> r is Ok,
        !model@.has_cycle() && all_complete(model@) && plain_inputs(model@) ==> r is Ok,
{
    let translator = IntoTranslator;
    proof {
        if all_complete(model@) {
            assert forall|n: int, g: Graph<TypedFact, Op>, m: Map<OutletId, OutletId>|
                model@.needed(n) || model@.is_input_node(n) implies #[trigger] translator.takes(
                model@,
                n,
                g,
                m,
            ) by {
                lemma_first_refused(model@.nodes[n].facts, 0);
            }
            assert(always_taken::<InferenceFact, Op, TypedFact, Op, IntoTranslator>(
                translator,
                model@,
            ));
        }
    }
    match Translate::<InferenceFact, Op, TypedFact, Op>::translate_model(&translator, model) {
        Ok(typed) => {
            proof {
                let mapping = choose|mapping: Map<OutletId, OutletId>| #[trigger]
                    stands_for(model@, typed@, mapping) && maps_needed(model@, typed@, mapping)
                        && translation(IntoTranslator, model@, typed@, mapping);
                assert forall|n: usize| #[trigger] model@.needed(n as int) implies complete_at(
                    model@,
                    n as int,
                ) by {
                    lemma_typed_complete(model@, typed@, mapping, n as int);
                }
            }
            Ok(typed)
        },
        Err(e) => Err(e),
    }
}

/// Appends to `model` a node with the operator `op` that reads `input`,
/// and gives its outlet. What is known of the outlet is what the operator
/// says of a tensor of which it reads what is known of `input`.
pub fn wire_typed(model: &mut Model<TypedFact, Op>, name: String, op: Op, input: OutletId) -> (r:
    Result<OutletId, ModelError>)
    requires
        old(model).wf(),
    ensures
        final(model).wf(),
        forall|o: OutletId| old(model)@.has_outlet(o) ==> final(model)@.has_outlet(o),
        match r {
            Ok(o) => {
                &&& old(model)@.has_outlet(input)
                &&& o == (OutletId { node: old(model).nodes.len(), slot: 0 })
                &&& final(model)@.has_outlet(o)
                &&& final(model)@.nodes.len() == old(model)@.nodes.len() + 1
                &&& final(model)@.nodes.last().op == op
                &&& final(model)@.nodes.last().name == name@
                &&& final(model)@.nodes.last().inputs == seq![input]
                &&& final(model)@.nodes.last().facts.len() == 1
                &&& op.typed(&old(model)@.fact(input), &final(model)@.fact(o))
                &&& op.typed_refusal(&old(model)@.fact(input)).is_none()
                &&& final(model)@.inputs == old(model)@.inputs
                &&& final(model)@.outputs == old(model)@.outputs
            },
            Err(e) => final(model)@ == old(model)@ && if !old(model)@.has_outlet(input) {
                e == ModelError::NoSuchOutlet(input)
            } else {
                op.typed_refusal(&old(model)@.fact(input)) == Some(e->Op_0) && e is Op
            },
        },
{
    let fact = match model.outlet_fact(input) {
        Ok(f) => f,
        Err(e) => {
            return Err(e);
        },
    };
    let out = match op.unary_output_fact(fact) {
        Ok(f) => f,
        Err(e) => {
            return Err(ModelError::Op(e));
        },
    };
    let mut facts: Vec<TypedFact> = Vec::new();
    facts.push(out);
    let mut inputs: Vec<OutletId> = Vec::new();
    inputs.push(input);
    proof {
        assert(first_missing(model@, inputs@, 1).is_none());
        assert(inputs@ =~= seq![input]);
    }
    match model.wire(name, op, facts, &inputs) {
        Ok(outs) => {
            assert(outlets_of(old(model).nodes.len(), 1)[0] == outs[0]);
            Ok(outs[0])
        },
        Err(e) => {
            assert(false);
            Err(e)
        },
    }
}

/// A model at the stage that its lowering has reached: as it was loaded,
/// typed, or streaming.
pub enum Lowered {
    Inference(Model<InferenceFact, Op>),
    Typed(Model<TypedFact, Op>),
    Pulsed(Model<PulsedFact, Op>),
}

/// Whether `typed` is `raw` typed: it stands for `raw` by some mapping of
/// the outlets, and is made of it node by node, each node taken over with
/// its facts typed.
pub open spec fn typed_of(raw: Graph<InferenceFact, Op>, typed: Graph<TypedFact, Op>) -> bool {
    exists|mapping: Map<OutletId, OutletId>| #[trigger]
        stands_for(raw, typed, mapping) && maps_needed(raw, typed, mapping) && translation(
            IntoTranslator,
            raw,
            typed,
            mapping,
        )
}

/// Whether `pulsed` is `typed` made to stream in pulses of `pulse`
/// elements: it stands for `typed` by some mapping of the outlets, and is
/// made of it node by node, each node put onto the streams.
pub open spec fn pulsed_of(typed: Graph<TypedFact, Op>, pulse: usize, pulsed: Graph<PulsedFact, Op>) -> bool {
    exists|mapping: Map<OutletId, OutletId>| #[trigger]
        stands_for(typed, pulsed, mapping) && maps_needed(typed, pulsed, mapping) && translation(
            Pulsifier { pulse },
            typed,
            pulsed,
            mapping,
        )
}

/// Whether `end` is `start` after some steps of simplification, `budget`
/// at most.
pub open spec fn simplified_to(start: Graph<TypedFact, Op>, end: Graph<TypedFact, Op>, budget: usize) -> bool {
    exists|k: nat| k <= budget && #[trigger] reaches(start, end, k)
}

/// Whether `done` is `raw` typed, which gives `typed`, and then
/// simplified with `budget` patches at most until no node has a
/// simplification to offer.
pub open spec fn lowered(
    raw: Graph<InferenceFact, Op>,
    typed: Graph<TypedFact, Op>,
    done: Graph<TypedFact, Op>,
    budget: usize,
) -> bool {
    typed_of(raw, typed) && simplified_to(typed, done, budget) && settled(done) && !done.has_cycle()
}

/// Whether `pulsed` is `raw` typed, simplified until it is settled, and
/// made to stream in pulses of `pulse` elements.
pub open spec fn streamed_to(
    raw: Graph<InferenceFact, Op>,
    budget: usize,
    pulse: usize,
    pulsed: Graph<PulsedFact, Op>,
) -> bool {
    exists|typed: Graph<TypedFact, Op>, done: Graph<TypedFact, Op>| #[trigger]
        lowered(raw, typed, done, budget) && pulsed_of(done, pulse, pulsed)
}

/// Whether `again` is `pulsed` taken for a model on whole tensors: it
/// stands for `pulsed` by some mapping of the outlets, and is made of it
/// node by node, each node with the form of its operator on whole tensors.
pub open spec fn retyped_of(pulsed: Graph<PulsedFact, Op>, again: Graph<TypedFact, Op>) -> bool {
    exists|mapping: Map<OutletId, OutletId>| #[trigger]
        stands_for(pulsed, again, mapping) && maps_needed(pulsed, again, mapping) && translation(
            PulsedToTyped,
            pulsed,
            again,
            mapping,
        )
}

/// Whether `again` is the streaming form `pulsed` of `raw`, taken for a
/// model on whole tensors.
pub open spec fn restreamed(
    raw: Graph<InferenceFact, Op>,
    budget: usize,
    pulse: usize,
    pulsed: Graph<PulsedFact, Op>,
    again: Graph<TypedFact, Op>,
) -> bool {
    streamed_to(raw, budget, pulse, pulsed) && retyped_of(pulsed, again)
}

/// Whether the simplification of `start` fails with `e` at `stuck`: it
/// comes to `stuck` with `budget` patches at most, and there uses up its
/// patches, meets a circle, or cannot go on.
pub open spec fn settling_fails(
    start: Graph<TypedFact, Op>,
    stuck: Graph<TypedFact, Op>,
    budget: usize,
    e: ModelError,
) -> bool {
    &&& simplified_to(start, stuck, budget)
    &&& {
        ||| e == ModelError::Unsettled && reaches(start, stuck, budget as nat) && !settled(stuck)
            && !stuck.has_cycle()
        ||| if stuck.has_cycle() {
            e == ModelError::Cycle
        } else {
            !settled(stuck) && blocked(stuck, e)
        }
    }
}

/// Whether the lowering of `raw` fails with `e` in simplifying: `raw`
/// typed gives `typed`, the simplification of which fails at `stuck`.
pub open spec fn fails_settling(
    raw: Graph<InferenceFact, Op>,
    typed: Graph<TypedFact, Op>,
    stuck: Graph<TypedFact, Op>,
    budget: usize,
    e: ModelError,
) -> bool {
    typed_of(raw, typed) && settling_fails(typed, stuck, budget, e)
}

/// Whether the lowering of `raw` fails with `e` in simplifying its
/// streaming form `pulsed` taken for a model on whole tensors, `again`:
/// the simplification fails at `stuck`.
pub open spec fn fails_resettling(
    raw: Graph<InferenceFact, Op>,
    budget: usize,
    pulse: usize,
    pulsed: Graph<PulsedFact, Op>,
    again: Graph<TypedFact, Op>,
    stuck: Graph<TypedFact, Op>,
    e: ModelError,
) -> bool {
    restreamed(raw, budget, pulse, pulsed, again) && settling_fails(again, stuck, budget, e)
}

/// Why the lowering of `raw` fails with `e`: typing fails, on a circle or
/// where it halts at a node; or simplifying fails; or making the settled
/// model stream fails, on a circle or where it halts at a node; or taking
/// the streaming model for one on whole tensors fails, likewise; or
/// simplifying that one fails.
pub open spec fn lower_fails(raw: Graph<InferenceFact, Op>, pulse: Option<usize>, budget: usize, e: ModelError) -> bool {
    ||| (e is Cycle <==> raw.has_cycle()) && (!(e is Cycle) ==> halted::<
        InferenceFact,
        Op,
        TypedFact,
        Op,
        IntoTranslator,
    >(IntoTranslator, raw))
    ||| exists|typed: Graph<TypedFact, Op>, stuck: Graph<TypedFact, Op>| #[trigger]
        fails_settling(raw, typed, stuck, budget, e)
    ||| pulse.is_some() && exists|typed: Graph<TypedFact, Op>, done: Graph<TypedFact, Op>| #[trigger]
        lowered(raw, typed, done, budget) && (e is Cycle <==> done.has_cycle()) && (!(e is Cycle)
            ==> halted(Pulsifier { pulse: pulse.unwrap() }, done))
    ||| pulse.is_some() && exists|pulsed: Graph<PulsedFact, Op>| #[trigger]
        streamed_to(raw, budget, pulse.unwrap(), pulsed) && (e is Cycle <==> pulsed.has_cycle())
            && (!(e is Cycle) ==> halted::<PulsedFact, Op, TypedFact, Op, PulsedToTyped>(
            PulsedToTyped,
            pulsed,
        ))
    ||| pulse.is_some() && exists|
        pulsed: Graph<PulsedFact, Op>,
        again: Graph<TypedFact, Op>,
        stuck: Graph<TypedFact, Op>,
    | #[trigger] fails_resettling(raw, budget, pulse.unwrap(), pulsed, again, stuck, e)
}

/// The model on whole tensors that a streaming model is, one pulse taken
/// for each tensor: each node that the outputs depend on as it is, with
/// the form of its operator on whole tensors, one after the other in an
/// evaluation order. It stands for `model` by some mapping of the
/// outlets. There is none of a model in which nodes that the outputs
/// depend on depend on each other in a circle; else it fails only where it
/// halts at a node.
pub fn pulse_to_type(model: &Model<PulsedFact, Op>) -> (r: Result<Model<TypedFact, Op>, ModelError>)
    requires
        model.wf(),
    ensures
        match r {
            Ok(typed) => typed.wf() && retyped_of(model@, typed@),
            Err(e) => (e is Cycle <==> model@.has_cycle()) && (!(e is Cycle) ==> halted::<
                PulsedFact,
                Op,
                TypedFact,
                Op,
                PulsedToTyped,
            >(PulsedToTyped, model@)),
        },
        r is Ok ==> !model@.has_cycle(),
        model@.inputs.len() == 0 && model@.outputs.len() == 0 ==> r is Ok,
{
    let translator = PulsedToTyped;
    Translate::<PulsedFact, Op, TypedFact, Op>::translate_model(&translator, model)
}

/// Takes the model `raw` through the stages up to `stop_at`, and gives it
/// with the stage that it has reached. Up to incorporating, the model
/// stays as it was loaded. Then it is typed, and simplified until it is
/// settled, with at most `budget` patches. Where a pulse is given, it is
/// then made to stream, taken for a model on whole tensors again, and
/// simplified once more. The first stage that fails ends the lowering, and
/// so does a model that is not settled after `budget` patches.
pub fn lower(
    raw: Model<InferenceFact, Op>,
    stop_at: Stage,
    pulse: Option<usize>,
    budget: usize,
) -> (r: Result<(Stage, Lowered), ModelError>)
    requires
        raw.wf(),
    ensures
        match r {
            Ok((stage, model)) => stage == stop_at.reached(pulse.is_some()) && match model {
                Lowered::Inference(m) => m == raw && (stage is Load || stage is Analyse
                    || stage is Incorporate),
                Lowered::Typed(t) => {
                    &&& t.wf()
                    &&& !raw@.has_cycle()
                    &&& t@.inputs.len() == raw@.inputs.len()
                    &&& t@.outputs.len() == raw@.outputs.len()
                    &&& match stage {
                        Stage::Type => typed_of(raw@, t@),
                        Stage::Declutter => exists|typed: Graph<TypedFact, Op>| #[trigger]
                            lowered(raw@, typed, t@, budget),
                        Stage::PulseNormalize => exists|typed: Graph<TypedFact, Op>| #[trigger]
                            lowered(raw@, typed, t@, budget),
                        Stage::PulseToType => pulse.is_some() && exists|
                            pulsed: Graph<PulsedFact, Op>,
                        | #[trigger] restreamed(raw@, budget, pulse.unwrap(), pulsed, t@),
                        Stage::PulseDeclutter => pulse.is_some() && settled(t@) && !t@.has_cycle()
                            && exists|pulsed: Graph<PulsedFact, Op>, again: Graph<TypedFact, Op>| #[trigger]
                            restreamed(raw@, budget, pulse.unwrap(), pulsed, again) && simplified_to(
                                again,
                                t@,
                                budget,
                            ),
                        _ => false,
                    }
                },
                Lowered::Pulsed(p) => {
                    &&& stage is Pulse
                    &&& pulse.is_some()
                    &&& p.wf()
                    &&& !raw@.has_cycle()
                    &&& p@.inputs.len() == raw@.inputs.len()
                    &&& p@.outputs.len() == raw@.outputs.len()
                    &&& streamed_to(raw@, budget, pulse.unwrap(), p@)
                },
            },
            Err(e) => !(stop_at is Load || stop_at is Analyse || stop_at is Incorporate) && (
            raw@.has_cycle() ==> e == ModelError::Cycle) && lower_fails(raw@, pulse, budget, e),
        },
{
    match stop_at {
        Stage::Load | Stage::Analyse | Stage::Incorporate => {
            return Ok((stop_at, Lowered::Inference(raw)));
        },
        _ => {},
    }
    let mut typed = match into_typed(&raw) {
        Ok(t) => t,
        Err(e) => {
            return Err(e);
        },
    };
    let ghost first = typed@;
    proof {
        let mapping = choose|mapping: Map<OutletId, OutletId>| #[trigger]
            stands_for(raw@, first, mapping) && maps_needed(raw@, first, mapping) && translation(
                IntoTranslator,
                raw@,
                first,
                mapping,
            );
        assert(first.inputs.len() == raw@.inputs.len());
        assert(first.outputs.len() == raw@.outputs.len());
        assert(typed_of(raw@, first));
    }
    match stop_at {
        Stage::Type => {
            return Ok((Stage::Type, Lowered::Typed(typed)));
        },
        _ => {},
    }
    match declutter(&mut typed, budget) {
        Ok(true) => {},
        Ok(false) => {
            proof {
                assert(simplified_to(first, typed@, budget));
                assert(fails_settling(raw@, first, typed@, budget, ModelError::Unsettled));
            }
            return Err(ModelError::Unsettled);
        },
        Err(e) => {
            proof {
                assert(simplified_to(first, typed@, budget));
                assert(fails_settling(raw@, first, typed@, budget, e));
            }
            return Err(e);
        },
    }
    let ghost done = typed@;
    proof {
        assert(simplified_to(first, done, budget));
        assert(lowered(raw@, first, done, budget));
    }
    let size = match pulse {
        Some(size) => size,
        None => {
            return Ok((Stage::Declutter, Lowered::Typed(typed)));
        },
    };
    match stop_at {
        Stage::Declutter => {
            return Ok((Stage::Declutter, Lowered::Typed(typed)));
        },
        Stage::PulseNormalize => {
            return Ok((Stage::PulseNormalize, Lowered::Typed(typed)));
        },
        _ => {},
    }
    let pulsed = match pulsify(&typed, size) {
        Ok(p) => p,
        Err(e) => {
            return Err(e);
        },
    };
    let ghost stream = pulsed@;
    proof {
        let mapping = choose|mapping: Map<OutletId, OutletId>| #[trigger]
            stands_for(done, stream, mapping) && maps_needed(done, stream, mapping) && translation(
                Pulsifier { pulse: size },
                done,
                stream,
                mapping,
            );
        assert(stream.inputs.len() == done.inputs.len());
        assert(stream.outputs.len() == done.outputs.len());
        assert(pulsed_of(done, size, stream));
        assert(streamed_to(raw@, budget, size, stream));
    }
    match stop_at {
        Stage::Pulse => {
            return Ok((Stage::Pulse, Lowered::Pulsed(pulsed)));
        },
        _ => {},
    }
    let mut again = match pulse_to_type(&pulsed) {
        Ok(t) => t,
        Err(e) => {
            return Err(e);
        },
    };
    let ghost second = again@;
    proof {
        let mapping = choose|mapping: Map<OutletId, OutletId>| #[trigger]
            stands_for(stream, second, mapping) && maps_needed(stream, second, mapping)
                && translation(PulsedToTyped, stream, second, mapping);
        assert(second.inputs.len() == stream.inputs.len());
        assert(second.outputs.len() == stream.outputs.len());
        assert(restreamed(raw@, budget, size, stream, second));
    }
    match stop_at {
        Stage::PulseToType => {
            return Ok((Stage::PulseToType, Lowered::Typed(again)));
        },
        _ => {},
    }
    match declutter(&mut again, budget) {
        Ok(true) => {
            proof {
                assert(simplified_to(second, again@, budget));
            }
            Ok((Stage::PulseDeclutter, Lowered::Typed(again)))
        },
        Ok(false) => {
            proof {
                assert(simplified_to(second, again@, budget));
                assert(fails_resettling(
                    raw@,
                    budget,
                    size,
                    stream,
                    second,
                    again@,
                    ModelError::Unsettled,
                ));
            }
            Err(ModelError::Unsettled)
        },
        Err(e) => {
            proof {
                assert(simplified_to(second, again@, budget));
                assert(fails_resettling(raw@, budget, size, stream, second, again@, e));
            }
            Err(e)
        },
    }
}

} // verus!
