//! Running a model: the nodes in evaluation order, the values they give
//! kept for the nodes that read them.

use vstd::prelude::*;
use crate::error::OpError;
use crate::facts::{PulsedFact, TypedFact};
use crate::model::fact::Fact;
use crate::model::graph::{Graph, Model, ModelError, Operator};
use crate::ops::delay::{DelayState, delay_buffer, delay_output, flat};
use crate::ops::eval::gives;
use crate::ops::op::Op;
use crate::ops::pad::PulsePadOpState;
use crate::tensor::copied;

verus! {

/// The order in which to run the nodes of a model.
pub struct SimplePlan {
    pub order: Vec<usize>,
}

impl SimplePlan {
    /// The plan for `model`: an evaluation order of the nodes that its
    /// outputs depend on. There is none where such nodes depend on each
    /// other in a circle.
    pub fn new<F: Fact, O: Operator>(model: &Model<F, O>) -> (r: Result<SimplePlan, ModelError>)
        requires
            model.wf(),
        ensures
            match r {
                Ok(p) => !model@.has_cycle() && model@.is_eval_order(p.order@) && forall|n: usize|
                    p.order@.contains(n) <==> model@.needed(n as int),
                Err(e) => e == ModelError::Cycle && model@.has_cycle(),
            },
    {
        match model.eval_order() {
            Ok(order) => Ok(SimplePlan { order }),
            Err(e) => Err(e),
        }
    }
}

impl Op {
    /// What the operator computes of `inputs`, tensors of one axis, or why
    /// it computes nothing. A concatenation takes any number of tensors,
    /// the other operators one.
    pub open spec fn outcome(&self, inputs: Seq<Seq<i64>>) -> Result<Seq<i64>, OpError> {
        match self {
            Op::Concat(axis) => if *axis == 0 {
                Ok(flat(inputs, inputs.len() as int))
            } else {
                Err(OpError::NoSuchAxis(*axis))
            },
            _ => if inputs.len() != 1 {
                Err(OpError::WrongArity(inputs.len() as usize))
            } else {
                match self {
                    Op::Identity => Ok(inputs[0]),
                    Op::PulsedAxisSlice(_) => Ok(inputs[0]),
                    Op::Slice(s) => s.outcome(inputs[0]),
                    Op::Downsample(d) => d.outcome(inputs[0]),
                    Op::Pad(p) => p.outcome(inputs[0]),
                    _ => Err(OpError::NoEval),
                }
            },
        }
    }

    /// What the operator computes of `inputs`, tensors of one axis.
    pub fn eval(&self, inputs: &Vec<Vec<i64>>) -> (r: Result<Vec<i64>, OpError>)
        ensures
            gives(r, self.outcome(views_of(inputs@))),
    {
        let ghost ins = views_of(inputs@);
        match self {
            Op::Concat(axis) => {
                if *axis != 0 {
                    return Err(OpError::NoSuchAxis(*axis));
                }
                let mut out: Vec<i64> = Vec::new();
                let mut i: usize = 0;
                while i < inputs.len()
                    invariant
                        0 <= i <= inputs.len(),
                        ins == views_of(inputs@),
                        out@ == flat(ins, i as int),
                    decreases inputs.len() - i,
                {
                    let mut j: usize = 0;
                    let ghost before = out@;
                    while j < inputs[i].len()
                        invariant
                            0 <= j <= inputs[i as int].len(),
                            i < inputs.len(),
                            out@ == before + inputs[i as int]@.take(j as int),
                        decreases inputs[i as int].len() - j,
                    {
                        out.push(inputs[i][j]);
                        assert(out@ =~= before + inputs[i as int]@.take(j + 1));
                        j += 1;
                    }
                    assert(inputs[i as int]@.take(j as int) =~= inputs[i as int]@);
                    assert(ins[i as int] == inputs[i as int]@);
                    i += 1;
                }
                Ok(out)
            },
            _ => {
                if inputs.len() != 1 {
                    return Err(OpError::WrongArity(inputs.len()));
                }
                assert(ins[0] == inputs[0]@);
                match self {
                    Op::Identity => Ok(copied(&inputs[0])),
                    Op::PulsedAxisSlice(_) => Ok(copied(&inputs[0])),
                    Op::Slice(s) => s.eval(&inputs[0]),
                    Op::Downsample(d) => d.eval(&inputs[0]),
                    Op::Pad(p) => p.eval(&inputs[0]),
                    _ => Err(OpError::NoEval),
                }
            },
        }
    }
}

/// The tensors as sequences.
pub open spec fn views_of(vs: Seq<Vec<i64>>) -> Seq<Seq<i64>> {
    Seq::new(vs.len(), |i: int| vs[i]@)
}

/// The values kept, as sequences.
pub open spec fn kept(values: Seq<Option<Vec<i64>>>) -> Seq<Option<Seq<i64>>> {
    Seq::new(
        values.len(),
        |n: int|
            match values[n] {
                Some(v) => Some(v@),
                None => None,
            },
    )
}

/// The first input of the graph, from `k` on, that is an outlet of the
/// node `n`, or the number of inputs.
pub open spec fn input_index<F, O>(g: Graph<F, O>, n: int, k: int) -> int
    decreases g.inputs.len() - k,
{
    if k < 0 || k >= g.inputs.len() {
        g.inputs.len() as int
    } else if g.inputs[k].node == n {
        k
    } else {
        input_index(g, n, k + 1)
    }
}

/// The values that the first `j` inputs of the node `n` read among
/// `values`, where they are all there and come from first outputs.
pub open spec fn read_values<F, O>(
    g: Graph<F, O>,
    values: Seq<Option<Seq<i64>>>,
    n: int,
    j: int,
) -> Option<Seq<Seq<i64>>>
    decreases j,
{
    if j <= 0 {
        Some(Seq::empty())
    } else {
        let o = g.nodes[n].inputs[j - 1];
        match read_values(g, values, n, j - 1) {
            Some(vs) => if o.slot == 0 && o.node < values.len() && values[o.node as int].is_some() {
                Some(vs.push(values[o.node as int].unwrap()))
            } else {
                None
            },
            None => None,
        }
    }
}

/// The value of the node `n`, the values of the nodes that it reads being
/// kept in `values`: what was given for it, where it is a node of the
/// inputs, and else what its operator computes of the values it reads.
pub open spec fn value_of<F>(
    g: Graph<F, Op>,
    inputs: Seq<Seq<i64>>,
    values: Seq<Option<Seq<i64>>>,
    n: int,
) -> Result<Seq<i64>, OpError> {
    let k = input_index(g, n, 0);
    if k < g.inputs.len() {
        if k < inputs.len() {
            Ok(inputs[k])
        } else {
            Err(OpError::WrongArity(inputs.len() as usize))
        }
    } else {
        match read_values(g, values, n, g.nodes[n].inputs.len() as int) {
            Some(vs) => g.nodes[n].op.outcome(vs),
            None => Err(OpError::NoValue(n as usize)),
        }
    }
}

/// The values kept once the first `p` nodes of `order` have run on
/// `inputs`, or the first failure.
pub open spec fn ran<F>(g: Graph<F, Op>, order: Seq<usize>, inputs: Seq<Seq<i64>>, p: int) -> Result<
    Seq<Option<Seq<i64>>>,
    OpError,
>
    decreases p,
{
    if p <= 0 {
        Ok(Seq::new(g.nodes.len(), |n: int| None::<Seq<i64>>))
    } else {
        match ran(g, order, inputs, p - 1) {
            Ok(values) => match value_of(g, inputs, values, order[p - 1] as int) {
                Ok(v) => Ok(values.update(order[p - 1] as int, Some(v))),
                Err(e) => Err(e),
            },
            Err(e) => Err(e),
        }
    }
}

/// The values of the first `k` outputs of the graph among `values`, or the
/// first of their nodes that has none.
pub open spec fn collected<F, O>(g: Graph<F, O>, values: Seq<Option<Seq<i64>>>, k: int) -> Result<
    Seq<Seq<i64>>,
    OpError,
>
    decreases k,
{
    if k <= 0 {
        Ok(Seq::empty())
    } else {
        let o = g.outputs[k - 1];
        match collected(g, values, k - 1) {
            Ok(out) => if o.slot == 0 && o.node < values.len() && values[o.node as int].is_some() {
                Ok(out.push(values[o.node as int].unwrap()))
            } else {
                Err(OpError::NoValue(o.node))
            },
            Err(e) => Err(e),
        }
    }
}

/// What the graph computes of `inputs`, one tensor for each of its inputs,
/// its nodes run in the order `order`: the values of its outputs.
pub open spec fn run_outcome<F>(g: Graph<F, Op>, order: Seq<usize>, inputs: Seq<Seq<i64>>) -> Result<
    Seq<Seq<i64>>,
    OpError,
> {
    match ran(g, order, inputs, order.len() as int) {
        Ok(values) => collected(g, values, g.outputs.len() as int),
        Err(e) => Err(e),
    }
}

/// What a run keeps: for each node the value of its first output, once it
/// is computed.
pub struct SimpleState {
    pub values: Vec<Option<Vec<i64>>>,
}

impl SimpleState {
    /// A state that holds no value.
    pub fn new() -> (r: SimpleState)
        ensures
            r.values.len() == 0,
    {
        SimpleState { values: Vec::new() }
    }

    /// Runs `model` on `inputs`, one tensor of one axis for each input of
    /// the model, in the order of `plan`, and gives the values of the
    /// outputs. The state then keeps the value of each node that ran.
    pub fn run(
        &mut self,
        model: &Model<TypedFact, Op>,
        plan: &SimplePlan,
        inputs: &Vec<Vec<i64>>,
    ) -> (r: Result<Vec<Vec<i64>>, ModelError>)
        requires
            model.wf(),
            model@.is_eval_order(plan.order@),
        ensures
            match r {
                Ok(out) => {
                    &&& run_outcome(model@, plan.order@, views_of(inputs@)) == Ok::<
                        Seq<Seq<i64>>,
                        OpError,
                    >(views_of(out@))
                    &&& ran(model@, plan.order@, views_of(inputs@), plan.order.len() as int) == Ok::<
                        Seq<Option<Seq<i64>>>,
                        OpError,
                    >(kept(final(self).values@))
                },
                Err(e) => e matches ModelError::Op(f) && run_outcome(
                    model@,
                    plan.order@,
                    views_of(inputs@),
                ) == Err::<Seq<Seq<i64>>, OpError>(f),
            },
    {
        let ghost g = model@;
        let ghost ins = views_of(inputs@);
        self.values = Vec::new();
        let mut i: usize = 0;
        while i < model.nodes.len()
            invariant
                0 <= i <= model.nodes.len(),
                self.values.len() == i,
                forall|n: int| 0 <= n < i ==> (#[trigger] self.values[n]).is_none(),
            decreases model.nodes.len() - i,
        {
            self.values.push(None);
            i += 1;
        }
        assert(kept(self.values@) =~= Seq::new(g.nodes.len(), |n: int| None::<Seq<i64>>));
        let mut p: usize = 0;
        while p < plan.order.len()
            invariant
                0 <= p <= plan.order.len(),
                model.wf(),
                g == model@,
                ins == views_of(inputs@),
                g.is_eval_order(plan.order@),
                self.values.len() == model.nodes.len(),
                ran(g, plan.order@, ins, p as int) == Ok::<Seq<Option<Seq<i64>>>, OpError>(
                    kept(self.values@),
                ),
            decreases plan.order.len() - p,
        {
            let n = plan.order[p];
            assert(plan.order@[p as int] < g.nodes.len());
            let ghost before = kept(self.values@);
            let k = find_input(model, n);
            let computed = if k < model.inputs.len() {
                if k >= inputs.len() {
                    Err(OpError::WrongArity(inputs.len()))
                } else {
                    assert(ins[k as int] == inputs[k as int]@);
                    Ok(copied(&inputs[k]))
                }
            } else {
                match gather(&self.values, model, n) {
                    Some(read) => model.nodes[n].op.eval(&read),
                    None => Err(OpError::NoValue(n)),
                }
            };
            assert(gives(computed, value_of(g, ins, before, n as int)));
            match computed {
                Ok(value) => {
                    let ghost v = value@;
                    self.values.set(n, Some(value));
                    assert(kept(self.values@) =~= before.update(n as int, Some(v)));
                },
                Err(e) => {
                    proof {
                        lemma_ran_fails(g, plan.order@, ins, p + 1, plan.order.len() as int);
                    }
                    return Err(ModelError::Op(e));
                },
            }
            p += 1;
        }
        let ghost values = kept(self.values@);
        let mut out: Vec<Vec<i64>> = Vec::new();
        let mut k: usize = 0;
        assert(views_of(out@) =~= Seq::<Seq<i64>>::empty());
        while k < model.outputs.len()
            invariant
                0 <= k <= model.outputs.len(),
                model.wf(),
                g == model@,
                values == kept(self.values@),
                self.values.len() == model.nodes.len(),
                ins == views_of(inputs@),
                ran(g, plan.order@, ins, plan.order.len() as int) == Ok::<
                    Seq<Option<Seq<i64>>>,
                    OpError,
                >(values),
                collected(g, values, k as int) == Ok::<Seq<Seq<i64>>, OpError>(views_of(out@)),
            decreases model.outputs.len() - k,
        {
            let o = model.outputs[k];
            let ghost done = views_of(out@);
            assert(g.has_outlet(g.outputs[k as int]));
            assert(o == g.outputs[k as int]);
            let found = if o.slot != 0 {
                None
            } else {
                match &self.values[o.node] {
                    Some(v) => Some(copied(v)),
                    None => None,
                }
            };
            match found {
                Some(c) => {
                    let ghost v = c@;
                    assert(values[o.node as int] == Some(v));
                    out.push(c);
                    assert(views_of(out@) =~= done.push(v));
                },
                None => {
                    proof {
                        lemma_collected_fails(g, values, k + 1, g.outputs.len() as int);
                    }
                    return Err(ModelError::Op(OpError::NoValue(o.node)));
                },
            }
            k += 1;
        }
        Ok(out)
    }
}

/// Copies of the values among `values` that the node `n` reads, where they
/// are all there.
fn gather<F: Fact>(values: &Vec<Option<Vec<i64>>>, model: &Model<F, Op>, n: usize) -> (r: Option<
    Vec<Vec<i64>>,
>)
    requires
        model.wf(),
        n < model.nodes.len(),
    ensures
        match r {
            Some(v) => read_values(
                model@,
                kept(values@),
                n as int,
                model@.nodes[n as int].inputs.len() as int,
            ) == Some(views_of(v@)),
            None => read_values(
                model@,
                kept(values@),
                n as int,
                model@.nodes[n as int].inputs.len() as int,
            ).is_none(),
        },
{
    let node = &model.nodes[n];
    let mut read: Vec<Vec<i64>> = Vec::new();
    let mut j: usize = 0;
    assert(views_of(read@) =~= Seq::<Seq<i64>>::empty());
    while j < node.inputs.len()
        invariant
            0 <= j <= node.inputs.len(),
            n < model.nodes.len(),
            *node == model.nodes[n as int],
            node.inputs@ == model@.nodes[n as int].inputs,
            read_values(model@, kept(values@), n as int, j as int) == Some(views_of(read@)),
        decreases node.inputs.len() - j,
    {
        let o = node.inputs[j];
        let ghost had = views_of(read@);
        let found = if o.slot != 0 || o.node >= values.len() {
            None
        } else {
            match &values[o.node] {
                Some(v) => Some(copied(v)),
                None => None,
            }
        };
        match found {
            Some(c) => {
                let ghost v = c@;
                assert(kept(values@)[o.node as int] == Some(v));
                read.push(c);
                assert(views_of(read@) =~= had.push(v));
            },
            None => {
                proof {
                    lemma_read_none(
                        model@,
                        kept(values@),
                        n as int,
                        j as int + 1,
                        node.inputs.len() as int,
                    );
                }
                return None;
            },
        }
        j += 1;
    }
    Some(read)
}

/// The place among the inputs of `model` of the first that is an outlet of
/// the node `n`, or their number.
fn find_input<F: Fact, O: Operator>(model: &Model<F, O>, n: usize) -> (k: usize)
    ensures
        k == input_index(model@, n as int, 0),
        k <= model.inputs.len(),
{
    let mut k: usize = 0;
    while k < model.inputs.len()
        invariant
            0 <= k <= model.inputs.len(),
            input_index(model@, n as int, 0) == input_index(model@, n as int, k as int),
        decreases model.inputs.len() - k,
    {
        if model.inputs[k].node == n {
            return k;
        }
        k += 1;
    }
    k
}

/// Once a value is missing among those that a node reads, it stays
/// missing whatever else the node reads.
pub proof fn lemma_read_none<F, O>(
    g: Graph<F, O>,
    values: Seq<Option<Seq<i64>>>,
    n: int,
    j: int,
    m: int,
)
    requires
        0 <= j <= m,
        read_values(g, values, n, j).is_none(),
    ensures
        read_values(g, values, n, m).is_none(),
    decreases m - j,
{
    if j < m {
        lemma_read_none(g, values, n, j, m - 1);
    }
}

/// Keeping a value for a node that had none does not change what other
/// nodes read, where they read values that were there.
pub proof fn lemma_read_same<F, O>(
    g: Graph<F, O>,
    before: Seq<Option<Seq<i64>>>,
    after: Seq<Option<Seq<i64>>>,
    n: int,
    j: int,
    changed: int,
)
    requires
        before.len() == after.len(),
        0 <= changed < before.len(),
        before[changed].is_none(),
        forall|m: int| 0 <= m < before.len() && m != changed ==> before[m] == after[m],
    ensures
        read_values(g, before, n, j).is_some() ==> read_values(g, after, n, j) == read_values(
            g,
            before,
            n,
            j,
        ),
    decreases j,
{
    if j > 0 {
        lemma_read_same(g, before, after, n, j - 1, changed);
    }
}

/// A run that has failed stays failed.
pub proof fn lemma_ran_fails<F>(
    g: Graph<F, Op>,
    order: Seq<usize>,
    inputs: Seq<Seq<i64>>,
    p: int,
    q: int,
)
    requires
        0 <= p <= q,
        ran(g, order, inputs, p).is_err(),
    ensures
        ran(g, order, inputs, q) == ran(g, order, inputs, p),
    decreases q - p,
{
    if p < q {
        lemma_ran_fails(g, order, inputs, p, q - 1);
    }
}

/// Once the value of an output is missing, the values of the outputs are
/// not to be had.
pub proof fn lemma_collected_fails<F, O>(
    g: Graph<F, O>,
    values: Seq<Option<Seq<i64>>>,
    k: int,
    m: int,
)
    requires
        0 <= k <= m,
        collected(g, values, k).is_err(),
    ensures
        collected(g, values, m) == collected(g, values, k),
    decreases m - k,
{
    if k < m {
        lemma_collected_fails(g, values, k, m - 1);
    }
}

/// A run keeps a value for the nodes that have run, and for no other.
pub proof fn lemma_ran_marks<F>(
    g: Graph<F, Op>,
    order: Seq<usize>,
    inputs: Seq<Seq<i64>>,
    p: int,
)
    requires
        0 <= p <= order.len(),
        forall|q: int| 0 <= q < order.len() ==> (#[trigger] order[q]) < g.nodes.len(),
        ran(g, order, inputs, p).is_ok(),
    ensures
        ran(g, order, inputs, p).unwrap().len() == g.nodes.len(),
        forall|m: int|
            0 <= m < g.nodes.len() ==> ((#[trigger] ran(g, order, inputs, p).unwrap()[m]).is_some()
                <==> exists|q: int| 0 <= q < p && order[q] == m),
    decreases p,
{
    if p > 0 {
        lemma_ran_marks(g, order, inputs, p - 1);
        let before = ran(g, order, inputs, p - 1).unwrap();
        let after = ran(g, order, inputs, p).unwrap();
        let n = order[p - 1] as int;
        assert forall|m: int| 0 <= m < g.nodes.len() implies ((#[trigger] after[m]).is_some()
            <==> exists|q: int| 0 <= q < p && order[q] == m) by {
            if m == n {
                assert(order[p - 1] == m);
            } else {
                assert(after[m] == before[m]);
                if before[m].is_some() {
                    let q = choose|q: int| 0 <= q < p - 1 && order[q] == m;
                    assert(0 <= q < p && order[q] == m);
                }
                if exists|q: int| 0 <= q < p && order[q] == m {
                    let q = choose|q: int| 0 <= q < p && order[q] == m;
                    assert(q < p - 1);
                }
            }
        }
    }
}

/// What a run leaves is settled. Once the first `p` nodes of an order that
/// lists no node twice have run, the value kept for each of them is the
/// value that it has among the values kept: what was given for it, or
/// what its operator computes of the values kept for the nodes it reads.
pub proof fn lemma_ran_settled<F>(
    g: Graph<F, Op>,
    order: Seq<usize>,
    inputs: Seq<Seq<i64>>,
    p: int,
    q: int,
)
    requires
        0 <= q < p <= order.len(),
        order.no_duplicates(),
        forall|i: int| 0 <= i < order.len() ==> (#[trigger] order[i]) < g.nodes.len(),
        ran(g, order, inputs, p).is_ok(),
    ensures
        ran(g, order, inputs, p).unwrap()[order[q] as int].is_some(),
        value_of(g, inputs, ran(g, order, inputs, p).unwrap(), order[q] as int) == Ok::<
            Seq<i64>,
            OpError,
        >(ran(g, order, inputs, p).unwrap()[order[q] as int].unwrap()),
    decreases p,
{
    let before = ran(g, order, inputs, p - 1).unwrap();
    let after = ran(g, order, inputs, p).unwrap();
    let n = order[p - 1] as int;
    let m = order[q] as int;
    lemma_ran_marks(g, order, inputs, p - 1);
    assert(before[n].is_none()) by {
        if before[n].is_some() {
            let i = choose|i: int| 0 <= i < p - 1 && order[i] == n;
            assert(order[i] == order[p - 1]);
        }
    }
    lemma_read_same(g, before, after, m, g.nodes[m].inputs.len() as int, n);
    if q < p - 1 {
        lemma_ran_settled(g, order, inputs, p - 1, q);
        assert(m != n) by {
            if m == n {
                assert(order[q] == order[p - 1]);
            }
        }
        assert(after[m] == before[m]);
    }
}

/// What a node holds from pulse to pulse.
pub enum NodeState {
    /// Nothing.
    Stateless,
    /// What a delay holds.
    Delay(DelayState<i64>),
    /// What a padding of the stream holds.
    Pad(PulsePadOpState),
}

/// What a node holds from pulse to pulse, as a value: nothing; the last
/// elements that came to a delay; or, for a padding of the stream, the
/// place in the stream where the next pulse begins and the last element
/// of the input that it has seen.
pub enum Held {
    Nothing,
    Delay(Seq<i64>),
    Pad { pos: int, last: Option<i64> },
}

impl View for NodeState {
    type V = Held;

    open spec fn view(&self) -> Held {
        match self {
            NodeState::Stateless => Held::Nothing,
            NodeState::Delay(s) => Held::Delay(s.buffer@),
            NodeState::Pad(s) => Held::Pad { pos: s.current_pos as int, last: s.last_valid_frame },
        }
    }
}

/// What the nodes hold, as values.
pub open spec fn held_all(states: Seq<NodeState>) -> Seq<Held> {
    Seq::new(states.len(), |n: int| states[n]@)
}

impl Op {
    /// What a node with the operator holds before the first pulse, a delay
    /// being filled with `fill`.
    pub open spec fn initial(&self, fill: i64) -> Held {
        match self {
            Op::Delay(d) => Held::Delay(Seq::new((d.delay + d.overlap) as nat, |i: int| fill)),
            Op::PulsePad(_) => Held::Pad { pos: 0, last: None },
            _ => Held::Nothing,
        }
    }

    /// What a node with the operator that holds `held` hands on for the
    /// pulse `input`, and what it holds then, or why it hands on nothing.
    /// `known` is the length of the stream, once it is known. A delay and a
    /// padding of the stream go on from what they hold; a slice of the
    /// stream and the identity hand the pulse on; a downsampling takes of
    /// the pulse what it takes of a tensor.
    pub open spec fn pulse_outcome(&self, held: Held, known: Option<usize>, input: Seq<i64>) -> Result<
        (Seq<i64>, Held),
        OpError,
    > {
        match (self, held) {
            (Op::Delay(d), Held::Delay(buffer)) => if d.overlap + input.len() > usize::MAX {
                Err(OpError::Overflow)
            } else {
                Ok(
                    (
                        delay_output(buffer, input, d.delay as int),
                        Held::Delay(delay_buffer(buffer, input)),
                    ),
                )
            },
            (Op::PulsePad(pad), Held::Pad { pos, last }) => if input.len() != pad.pulse || pos
                + pad.pulse > usize::MAX {
                Err(OpError::Overflow)
            } else {
                let end = pad.end_spec(known);
                Ok(
                    (
                        Seq::new(pad.pulse as nat, |j: int| pad.emitted(pos, end, input, last, j)),
                        Held::Pad { pos: pos + pad.pulse, last: pad.seen(pos, end, input, last) },
                    ),
                )
            },
            (Op::Identity, _) => Ok((input, held)),
            (Op::PulsedAxisSlice(_), _) => Ok((input, held)),
            (Op::Downsample(d), _) => match d.outcome(input) {
                Ok(v) => Ok((v, held)),
                Err(e) => Err(e),
            },
            _ => Err(OpError::NoEval),
        }
    }
}

/// What the node `n` hands on for a pulse and what it holds then, the
/// pulses of the nodes that it reads being kept in `values`: the pulse
/// that was given for it, where it is a node of the inputs, and else what
/// its operator makes of the pulse of the one node it reads.
pub open spec fn pulse_of<F>(
    g: Graph<F, Op>,
    inputs: Seq<Seq<i64>>,
    values: Seq<Option<Seq<i64>>>,
    held: Seq<Held>,
    known: Option<usize>,
    n: int,
) -> Result<(Seq<i64>, Held), OpError> {
    let k = input_index(g, n, 0);
    if k < g.inputs.len() {
        if k < inputs.len() {
            Ok((inputs[k], held[n]))
        } else {
            Err(OpError::WrongArity(inputs.len() as usize))
        }
    } else if g.nodes[n].inputs.len() != 1 {
        Err(OpError::WrongArity(g.nodes[n].inputs.len() as usize))
    } else {
        let from = g.nodes[n].inputs[0];
        if from.slot != 0 || from.node >= values.len() || values[from.node as int].is_none() {
            Err(OpError::NoValue(n as usize))
        } else {
            g.nodes[n].op.pulse_outcome(held[n], known, values[from.node as int].unwrap())
        }
    }
}

/// The pulses kept and what the nodes hold once the first `p` nodes of
/// `order` have run on the pulses `inputs`, the nodes holding `held`
/// before; or the first failure.
pub open spec fn pulse_ran<F>(
    g: Graph<F, Op>,
    order: Seq<usize>,
    inputs: Seq<Seq<i64>>,
    held: Seq<Held>,
    known: Option<usize>,
    p: int,
) -> Result<(Seq<Option<Seq<i64>>>, Seq<Held>), OpError>
    decreases p,
{
    if p <= 0 {
        Ok((Seq::new(g.nodes.len(), |n: int| None::<Seq<i64>>), held))
    } else {
        match pulse_ran(g, order, inputs, held, known, p - 1) {
            Ok((values, now)) => match pulse_of(g, inputs, values, now, known, order[p - 1] as int) {
                Ok((v, h)) => Ok(
                    (
                        values.update(order[p - 1] as int, Some(v)),
                        now.update(order[p - 1] as int, h),
                    ),
                ),
                Err(e) => Err(e),
            },
            Err(e) => Err(e),
        }
    }
}

/// What the graph of a stream hands on for the pulses `inputs`, one for
/// each of its inputs, and what its nodes hold then, its nodes run in
/// the order `order` and holding `held` before.
pub open spec fn pulse_run_outcome<F>(
    g: Graph<F, Op>,
    order: Seq<usize>,
    inputs: Seq<Seq<i64>>,
    held: Seq<Held>,
    known: Option<usize>,
) -> Result<(Seq<Seq<i64>>, Seq<Held>), OpError> {
    match pulse_ran(g, order, inputs, held, known, order.len() as int) {
        Ok((values, now)) => match collected(g, values, g.outputs.len() as int) {
            Ok(out) => Ok((out, now)),
            Err(e) => Err(e),
        },
        Err(e) => Err(e),
    }
}

/// A run on a pulse that has failed stays failed.
pub proof fn lemma_pulse_ran_fails<F>(
    g: Graph<F, Op>,
    order: Seq<usize>,
    inputs: Seq<Seq<i64>>,
    held: Seq<Held>,
    known: Option<usize>,
    p: int,
    q: int,
)
    requires
        0 <= p <= q,
        pulse_ran(g, order, inputs, held, known, p).is_err(),
    ensures
        pulse_ran(g, order, inputs, held, known, q) == pulse_ran(g, order, inputs, held, known, p),
    decreases q - p,
{
    if p < q {
        lemma_pulse_ran_fails(g, order, inputs, held, known, p, q - 1);
    }
}

/// What a run of a streaming model keeps: what each node holds from pulse
/// to pulse, and the length of the stream once it is known.
pub struct PulsedState {
    pub states: Vec<NodeState>,
    pub known_stream_len: Option<usize>,
}

impl PulsedState {
    /// The state before the first pulse. Each delay holds `fill`. There is
    /// none where a delay holds more than can be counted.
    pub fn new(model: &Model<PulsedFact, Op>, fill: i64) -> (r: Result<PulsedState, ModelError>)
        ensures
            match r {
                Ok(s) => {
                    &&& s.fits(model)
                    &&& s.known_stream_len.is_none()
                    &&& forall|m: int|
                        0 <= m < s.states.len() ==> (#[trigger] s.states[m])@
                            == model.nodes[m].op.initial(fill)
                },
                Err(e) => e == ModelError::Op(OpError::Overflow) && exists|m: int|
                    0 <= m < model.nodes.len() && too_long(#[trigger] model.nodes[m].op),
            },
    {
        let mut states: Vec<NodeState> = Vec::new();
        let mut n: usize = 0;
        while n < model.nodes.len()
            invariant
                0 <= n <= model.nodes.len(),
                states.len() == n,
                forall|m: int| 0 <= m < n ==> state_fits(#[trigger] states[m], model.nodes[m].op),
                forall|m: int|
                    0 <= m < n ==> (#[trigger] states[m])@ == model.nodes[m].op.initial(fill),
            decreases model.nodes.len() - n,
        {
            let state = match &model.nodes[n].op {
                Op::Delay(d) => match DelayState::new(d, fill) {
                    Some(s) => NodeState::Delay(s),
                    None => {
                        assert(too_long(model.nodes[n as int].op));
                        return Err(ModelError::Op(OpError::Overflow));
                    },
                },
                Op::PulsePad(_) => NodeState::Pad(PulsePadOpState::new()),
                _ => NodeState::Stateless,
            };
            states.push(state);
            n += 1;
        }
        Ok(PulsedState { states, known_stream_len: None })
    }

    /// Each node has the state that its operator needs.
    pub open spec fn fits(&self, model: &Model<PulsedFact, Op>) -> bool {
        &&& self.states.len() == model.nodes.len()
        &&& forall|m: int|
            0 <= m < self.states.len() ==> state_fits(#[trigger] self.states[m], model.nodes[m].op)
    }

    /// Takes one pulse for each input of `model`, runs the nodes in the
    /// order of `plan`, and gives the pulses of the outputs. The nodes
    /// then hold what they hold after the pulse. After a failure the nodes
    /// that ran before it hold what they held after the pulse, the others
    /// what they held before.
    pub fn run(
        &mut self,
        model: &Model<PulsedFact, Op>,
        plan: &SimplePlan,
        inputs: &Vec<Vec<i64>>,
    ) -> (r: Result<Vec<Vec<i64>>, ModelError>)
        requires
            model.wf(),
            model@.is_eval_order(plan.order@),
            old(self).fits(model),
        ensures
            final(self).fits(model),
            final(self).known_stream_len == old(self).known_stream_len,
            match r {
                Ok(out) => pulse_run_outcome(
                    model@,
                    plan.order@,
                    views_of(inputs@),
                    held_all(old(self).states@),
                    old(self).known_stream_len,
                ) == Ok::<(Seq<Seq<i64>>, Seq<Held>), OpError>(
                    (views_of(out@), held_all(final(self).states@)),
                ),
                Err(e) => e matches ModelError::Op(f) && pulse_run_outcome(
                    model@,
                    plan.order@,
                    views_of(inputs@),
                    held_all(old(self).states@),
                    old(self).known_stream_len,
                ) == Err::<(Seq<Seq<i64>>, Seq<Held>), OpError>(f),
            },
    {
        let ghost g = model@;
        let ghost ins = views_of(inputs@);
        let ghost held = held_all(old(self).states@);
        let known = self.known_stream_len;
        let mut values: Vec<Option<Vec<i64>>> = Vec::new();
        let mut i: usize = 0;
        while i < model.nodes.len()
            invariant
                0 <= i <= model.nodes.len(),
                values.len() == i,
                forall|n: int| 0 <= n < i ==> (#[trigger] values[n]).is_none(),
            decreases model.nodes.len() - i,
        {
            values.push(None);
            i += 1;
        }
        assert(kept(values@) =~= Seq::new(g.nodes.len(), |n: int| None::<Seq<i64>>));
        let mut p: usize = 0;
        while p < plan.order.len()
            invariant
                0 <= p <= plan.order.len(),
                model.wf(),
                g == model@,
                ins == views_of(inputs@),
                g.is_eval_order(plan.order@),
                values.len() == model.nodes.len(),
                self.fits(model),
                self.known_stream_len == known,
                known == old(self).known_stream_len,
                held == held_all(old(self).states@),
                pulse_ran(g, plan.order@, ins, held, known, p as int) == Ok::<
                    (Seq<Option<Seq<i64>>>, Seq<Held>),
                    OpError,
                >((kept(values@), held_all(self.states@))),
            decreases plan.order.len() - p,
        {
            let n = plan.order[p];
            assert(plan.order@[p as int] < g.nodes.len());
            let ghost before = kept(values@);
            let ghost now = held_all(self.states@);
            let k = find_input(model, n);
            let computed = if k < model.inputs.len() {
                if k >= inputs.len() {
                    Err(OpError::WrongArity(inputs.len()))
                } else {
                    assert(ins[k as int] == inputs[k as int]@);
                    Ok(copied(&inputs[k]))
                }
            } else {
                let node = &model.nodes[n];
                assert(node.inputs@ == g.nodes[n as int].inputs);
                if node.inputs.len() != 1 {
                    Err(OpError::WrongArity(node.inputs.len()))
                } else {
                    let from = node.inputs[0];
                    let read = if from.slot != 0 || from.node >= values.len() {
                        None
                    } else {
                        match &values[from.node] {
                            Some(v) => Some(copied(v)),
                            None => None,
                        }
                    };
                    match read {
                        Some(input) => {
                            assert(before[from.node as int] == Some(input@));
                            self.step(model, n, &input)
                        },
                        None => Err(OpError::NoValue(n)),
                    }
                }
            };
            let ghost want = pulse_of(g, ins, before, now, known, n as int);
            match computed {
                Ok(value) => {
                    let ghost v = value@;
                    assert(want == Ok::<(Seq<i64>, Held), OpError>((v, self.states[n as int]@)));
                    assert(held_all(self.states@) =~= now.update(n as int, self.states[n as int]@));
                    values.set(n, Some(value));
                    assert(kept(values@) =~= before.update(n as int, Some(v)));
                },
                Err(e) => {
                    assert(want == Err::<(Seq<i64>, Held), OpError>(e));
                    assert(pulse_ran(g, plan.order@, ins, held, known, p + 1) == Err::<
                        (Seq<Option<Seq<i64>>>, Seq<Held>),
                        OpError,
                    >(e));
                    proof {
                        lemma_pulse_ran_fails(
                            g,
                            plan.order@,
                            ins,
                            held,
                            known,
                            p + 1,
                            plan.order.len() as int,
                        );
                    }
                    return Err(ModelError::Op(e));
                },
            }
            p += 1;
        }
        let ghost all = kept(values@);
        let mut out: Vec<Vec<i64>> = Vec::new();
        let mut k: usize = 0;
        assert(views_of(out@) =~= Seq::<Seq<i64>>::empty());
        while k < model.outputs.len()
            invariant
                0 <= k <= model.outputs.len(),
                model.wf(),
                g == model@,
                all == kept(values@),
                values.len() == model.nodes.len(),
                ins == views_of(inputs@),
                self.fits(model),
                self.known_stream_len == old(self).known_stream_len,
                known == old(self).known_stream_len,
                held == held_all(old(self).states@),
                pulse_ran(g, plan.order@, ins, held, known, plan.order.len() as int) == Ok::<
                    (Seq<Option<Seq<i64>>>, Seq<Held>),
                    OpError,
                >((all, held_all(self.states@))),
                collected(g, all, k as int) == Ok::<Seq<Seq<i64>>, OpError>(views_of(out@)),
            decreases model.outputs.len() - k,
        {
            let o = model.outputs[k];
            let ghost done = views_of(out@);
            assert(g.has_outlet(g.outputs[k as int]));
            assert(o == g.outputs[k as int]);
            let found = if o.slot != 0 {
                None
            } else {
                match &values[o.node] {
                    Some(v) => Some(copied(v)),
                    None => None,
                }
            };
            match found {
                Some(c) => {
                    let ghost v = c@;
                    assert(all[o.node as int] == Some(v));
                    out.push(c);
                    assert(views_of(out@) =~= done.push(v));
                },
                None => {
                    proof {
                        lemma_collected_fails(g, all, k + 1, g.outputs.len() as int);
                    }
                    return Err(ModelError::Op(OpError::NoValue(o.node)));
                },
            }
            k += 1;
        }
        Ok(out)
    }

    /// What the node `n` hands on for the pulse `input`; the node then
    /// holds what it holds after the pulse, or after a failure what it held
    /// before. The other nodes hold what they held.
    fn step(&mut self, model: &Model<PulsedFact, Op>, n: usize, input: &Vec<i64>) -> (r: Result<
        Vec<i64>,
        OpError,
    >)
        requires
            n < model.nodes.len(),
            old(self).fits(model),
        ensures
            final(self).fits(model),
            final(self).known_stream_len == old(self).known_stream_len,
            forall|m: int|
                0 <= m < final(self).states.len() && m != n ==> (#[trigger] final(self).states[m])@
                    == old(self).states[m]@,
            match r {
                Ok(v) => model.nodes[n as int].op.pulse_outcome(
                    old(self).states[n as int]@,
                    old(self).known_stream_len,
                    input@,
                ) == Ok::<(Seq<i64>, Held), OpError>((v@, final(self).states[n as int]@)),
                Err(e) => model.nodes[n as int].op.pulse_outcome(
                    old(self).states[n as int]@,
                    old(self).known_stream_len,
                    input@,
                ) == Err::<(Seq<i64>, Held), OpError>(e) && final(self).states[n as int]@
                    == old(self).states[n as int]@,
            },
    {
        let known = self.known_stream_len;
        let ghost before = self.states@;
        match &model.nodes[n].op {
            Op::Delay(d) => {
                if d.overlap > usize::MAX - input.len() {
                    return Err(OpError::Overflow);
                }
                let mut state = NodeState::Stateless;
                core::mem::swap(&mut state, &mut self.states[n]);
                let (out, state) = match state {
                    NodeState::Delay(mut s) => {
                        let out = s.eval(d, input);
                        (out, NodeState::Delay(s))
                    },
                    other => {
                        assert(false);
                        (Vec::new(), other)
                    },
                };
                self.states.set(n, state);
                assert(forall|m: int|
                    0 <= m < self.states.len() && m != n ==> self.states[m] == before[m]);
                Ok(out)
            },
            Op::PulsePad(pad) => {
                let end = pad.end_of_input(known);
                let mut state = NodeState::Stateless;
                core::mem::swap(&mut state, &mut self.states[n]);
                let (out, state) = match state {
                    NodeState::Pad(mut s) => {
                        if input.len() != pad.pulse || s.current_pos > usize::MAX - pad.pulse {
                            (None, NodeState::Pad(s))
                        } else {
                            let ghost pos = s.current_pos as int;
                            let ghost last = s.last_valid_frame;
                            let out = s.eval(pad, end, input);
                            assert(out@ =~= Seq::new(
                                pad.pulse as nat,
                                |j: int| pad.emitted(pos, end as int, input@, last, j),
                            ));
                            (Some(out), NodeState::Pad(s))
                        }
                    },
                    other => {
                        assert(false);
                        (None, other)
                    },
                };
                self.states.set(n, state);
                assert(forall|m: int|
                    0 <= m < self.states.len() && m != n ==> self.states[m] == before[m]);
                match out {
                    Some(v) => Ok(v),
                    None => Err(OpError::Overflow),
                }
            },
            Op::Identity => Ok(copied(input)),
            Op::PulsedAxisSlice(_) => Ok(copied(input)),
            Op::Downsample(d) => d.eval(input),
            _ => Err(OpError::NoEval),
        }
    }
}

/// Whether the operator is a delay that holds more than can be counted.
pub open spec fn too_long(op: Op) -> bool {
    op matches Op::Delay(d) && d.delay + d.overlap > usize::MAX
}

/// Whether `state` is the state that the operator `op` needs: for a delay
/// what it holds, as much as it holds; for a padding of the stream what it
/// holds; nothing else.
pub open spec fn state_fits(state: NodeState, op: Op) -> bool {
    match op {
        Op::Delay(d) => state matches NodeState::Delay(s) && s.buffer.len() == d.delay + d.overlap,
        Op::PulsePad(_) => state is Pad,
        _ => state is Stateless,
    }
}

} // verus!
