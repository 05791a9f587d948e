//! The scan as it runs: its body is run turn by turn over the chunks of
//! the scanned inputs, on tensors of one axis, a state being handed from
//! one turn to the next.

use vstd::prelude::*;
use crate::datum::DatumType;
use crate::dim::tree::{TDim, Expr, lemma_views_len, views};
use crate::error::OpError;
use crate::facts::{TypedFact, duplicate_dims};
use crate::model::fact::Fact;
use crate::model::graph::{Model, ModelError};
use crate::ops::declutter::{as_number, number};
use crate::ops::op::Op;
use crate::ops::pad::least;
use crate::ops::scan::{InputMapping, OutputMapping, StateInitializer, iterations};
use crate::plan::{SimplePlan, SimpleState, run_outcome, views_of};
use crate::tensor::copied;

verus! {

/// The chunk `ix` of `input`, of `chunk` elements: the elements from the
/// place `ix * chunk` on, or backward the elements that end `ix * chunk`
/// before the end, in their order. Where `input` has no more elements the
/// chunk holds zero.
pub open spec fn chunk_of(input: Seq<i64>, ix: int, chunk: int, backward: bool) -> Seq<i64> {
    Seq::new(
        chunk as nat,
        |j: int|
            {
                let at = if backward {
                    input.len() - 1 - (ix * chunk + (chunk - 1 - j))
                } else {
                    ix * chunk + j
                };
                if 0 <= at < input.len() {
                    input[at]
                } else {
                    0
                }
            },
    )
}

/// The chunk `ix` of `input`, of `chunk` elements.
pub fn slice_input(input: &Vec<i64>, ix: usize, chunk: usize, backward: bool) -> (r: Vec<i64>)
    requires
        ix * chunk + chunk <= usize::MAX,
    ensures
        r@ == chunk_of(input@, ix as int, chunk as int, backward),
{
    let len = input.len();
    assert(ix * chunk <= usize::MAX) by (nonlinear_arith)
        requires
            ix * chunk + chunk <= usize::MAX,
            chunk >= 0,
    ;
    let start = ix * chunk;
    let mut out: Vec<i64> = Vec::new();
    let mut j: usize = 0;
    while j < chunk
        invariant
            0 <= j <= chunk,
            len == input.len(),
            start == ix * chunk,
            start + chunk <= usize::MAX,
            out@ == Seq::new(j as nat, |k: int| chunk_of(input@, ix as int, chunk as int, backward)[k]),
        decreases chunk - j,
    {
        let x = if backward {
            let back = start + (chunk - 1 - j);
            if back < len {
                input[len - 1 - back]
            } else {
                0
            }
        } else {
            let at = start + j;
            if at < len {
                input[at]
            } else {
                0
            }
        };
        out.push(x);
        assert(out@ =~= Seq::new(
            (j + 1) as nat,
            |k: int| chunk_of(input@, ix as int, chunk as int, backward)[k],
        ));
        j += 1;
    }
    assert(out@ =~= chunk_of(input@, ix as int, chunk as int, backward));
    out
}

/// Where in an output of `len` elements the value of the turn `i`, of
/// `elem` elements, begins: at the place `i * elem`, or backward that far
/// before the last element.
pub open spec fn assign_offset(len: int, elem: int, i: int, backward: bool) -> int {
    if backward {
        len - 1 - i * elem
    } else {
        i * elem
    }
}

/// The output `output` once it holds the value `element` of the turn `i`,
/// as far as there is room for it; or the failure where the value begins
/// outside the output.
pub open spec fn assigned(output: Seq<i64>, element: Seq<i64>, i: int, backward: bool) -> Result<
    Seq<i64>,
    OpError,
> {
    let offset = assign_offset(output.len() as int, element.len() as int, i, backward);
    let count = least(element.len() as int, output.len() - offset);
    if offset < 0 || offset > output.len() {
        Err(OpError::Overflow)
    } else {
        Ok(
            Seq::new(
                output.len(),
                |j: int|
                    if offset <= j < offset + count {
                        element[j - offset]
                    } else {
                        output[j]
                    },
            ),
        )
    }
}

/// Puts the value `element` of the turn `i` into `output`.
pub fn assign_output(output: &mut Vec<i64>, element: &Vec<i64>, i: usize, backward: bool) -> (r:
    Result<(), OpError>)
    ensures
        match r {
            Ok(_) => assigned(old(output)@, element@, i as int, backward) == Ok::<Seq<i64>, OpError>(
                final(output)@,
            ),
            Err(e) => assigned(old(output)@, element@, i as int, backward) == Err::<
                Seq<i64>,
                OpError,
            >(e) && final(output)@ == old(output)@,
        },
{
    let len = output.len();
    let elem = element.len();
    let ghost want = assigned(output@, element@, i as int, backward);
    let step = match i.checked_mul(elem) {
        Some(s) => s,
        None => {
            assert(i * elem > len) by (nonlinear_arith)
                requires
                    i * elem > usize::MAX,
                    len <= usize::MAX,
            ;
            return Err(OpError::Overflow);
        },
    };
    let offset = if backward {
        if len == 0 || step > len - 1 {
            return Err(OpError::Overflow);
        }
        len - 1 - step
    } else {
        if step > len {
            return Err(OpError::Overflow);
        }
        step
    };
    let count = if elem < len - offset {
        elem
    } else {
        len - offset
    };
    let ghost before = output@;
    let mut k: usize = 0;
    while k < count
        invariant
            0 <= k <= count,
            offset + count <= len,
            count <= elem,
            elem == element.len(),
            output.len() == len,
            output@ == Seq::new(
                len as nat,
                |j: int|
                    if offset <= j < offset + k {
                        element[j - offset]
                    } else {
                        before[j]
                    },
            ),
        decreases count - k,
    {
        output.set(offset + k, element[k]);
        assert(output@ =~= Seq::new(
            len as nat,
            |j: int|
                if offset <= j < offset + k + 1 {
                    element[j - offset]
                } else {
                    before[j]
                },
        ));
        k += 1;
    }
    assert(output@ =~= want->Ok_0);
    Ok(())
}

/// What makes a scan: its body with the order in which to run it, how the
/// inputs of the body come from the inputs of the scan and from its
/// state, and what becomes of the outputs of the body. The first `skip`
/// turns are passed over. Backward, the scanned inputs are taken from
/// their end.
pub struct LirScanOpParams {
    pub skip: usize,
    pub backward: bool,
    pub body: Model<TypedFact, Op>,
    pub plan: SimplePlan,
    pub input_mapping: Vec<InputMapping<usize>>,
    pub output_mapping: Vec<OutputMapping<usize, TDim>>,
}

/// A scan, ready to run.
pub struct LirScan(pub LirScanOpParams);

impl LirScan {
    pub fn new(params: LirScanOpParams) -> (r: LirScan)
        ensures
            r.0 == params,
    {
        LirScan(params)
    }

    /// What makes the scan.
    pub fn params(&self) -> (r: &LirScanOpParams)
        ensures
            *r == self.0,
    {
        &self.0
    }

    /// The name of the operator.
    pub fn name(&self) -> (r: &'static str)
        ensures
            r@ == "Scan"@,
    {
        "Scan"
    }

    /// The state of the scan before its first call: it has seen no turn,
    /// and holds neither a state nor values of its body.
    pub fn state(&self) -> (r: ScanState)
        ensures
            r.position == 0,
            r.hidden_state.len() == 0,
            r.model_state.values.len() == 0,
    {
        ScanState { position: 0, hidden_state: Vec::new(), model_state: SimpleState::new() }
    }
}

/// What a scan keeps from call to call: how many turns it has seen, the
/// state that the last turn left, and the values of its body.
pub struct ScanState {
    pub position: usize,
    pub hidden_state: Vec<Vec<i64>>,
    pub model_state: SimpleState,
}

/// The state that a scan starts from, as far as the first `n` inputs of
/// its body tell: for each that is a state, the input of the scan or the
/// value that it starts from.
pub open spec fn first_states(
    mapping: Seq<InputMapping<usize>>,
    inputs: Seq<Seq<i64>>,
    n: int,
) -> Result<Seq<Seq<i64>>, OpError>
    decreases n,
{
    if n <= 0 {
        Ok(Seq::empty())
    } else {
        match first_states(mapping, inputs, n - 1) {
            Err(e) => Err(e),
            Ok(states) => match mapping[n - 1] {
                InputMapping::State { initializer: StateInitializer::FromInput(slot) } => if slot
                    < inputs.len() {
                    Ok(states.push(inputs[slot as int]))
                } else {
                    Err(OpError::WrongArity(inputs.len() as usize))
                },
                InputMapping::State { initializer: StateInitializer::Value(t) } => Ok(
                    states.push(t.data@),
                ),
                _ => Ok(states),
            },
        }
    }
}

/// The first input of the body, from the `k`-th on, that is scanned: the
/// input of the scan, the axis and the chunk.
pub open spec fn scanned(mapping: Seq<InputMapping<usize>>, k: int) -> Option<(usize, usize, usize)>
    decreases mapping.len() - k,
{
    if k < 0 || k >= mapping.len() {
        None
    } else {
        match mapping[k] {
            InputMapping::Scan { slot, axis, chunk } => Some((slot, axis, chunk)),
            _ => scanned(mapping, k + 1),
        }
    }
}

/// The number of turns of a scan on `inputs`: the number of chunks of the
/// first scanned input, the last one maybe in part. There is none without
/// a scanned input, along another axis than the first, or with chunks of
/// no element.
pub open spec fn turns(mapping: Seq<InputMapping<usize>>, inputs: Seq<Seq<i64>>) -> Result<
    int,
    OpError,
> {
    match scanned(mapping, 0) {
        None => Err(OpError::NoEval),
        Some((slot, axis, chunk)) => if slot >= inputs.len() {
            Err(OpError::WrongArity(inputs.len() as usize))
        } else if axis != 0 {
            Err(OpError::NoSuchAxis(axis))
        } else if chunk == 0 {
            Err(OpError::Overflow)
        } else {
            Ok((inputs[slot as int].len() + chunk - 1) / (chunk as int))
        },
    }
}

/// Where the output for `slot` goes among `outputs`, which are in the
/// order of their slots: behind those of its slot and of lower ones.
pub open spec fn slot_place<T>(outputs: Seq<(usize, T)>, slot: usize, i: int) -> int
    decreases outputs.len() - i,
{
    if i < 0 || i >= outputs.len() {
        outputs.len() as int
    } else if outputs[i].0 > slot {
        i
    } else {
        slot_place(outputs, slot, i + 1)
    }
}

/// `outputs` with one more for `slot`, in its place.
pub open spec fn with_output<T>(outputs: Seq<(usize, T)>, slot: usize, t: T) -> Seq<(usize, T)> {
    outputs.insert(slot_place(outputs, slot, 0), (slot, t))
}

impl LirScanOpParams {
    /// The body is consistent, and the plan is an order to run it in.
    pub open spec fn wf(&self) -> bool {
        self.body.wf() && self.body@.is_eval_order(self.plan.order@)
    }

    /// The length of the output of the scan that gathers the output `ix`
    /// of the body over `iters` turns: what the mapping says it is, where
    /// it says a number, and else the length of the output of the body,
    /// `iters` times.
    pub open spec fn full_len(&self, ix: int, iters: int) -> Result<int, OpError> {
        let m = self.output_mapping[ix];
        if ix >= self.body@.outputs.len() {
            Err(OpError::NoValue(ix as usize))
        } else {
            let fact = self.body@.fact(self.body@.outputs[ix]);
            if m.axis != 0 || fact.shape.len() == 0 {
                Err(OpError::NoSuchAxis(m.axis))
            } else {
                let hint = match m.full_dim_hint {
                    Some(d) => number(d@),
                    None => None,
                };
                match hint {
                    Some(v) => Ok(v),
                    None => match number(fact.shape[0]@) {
                        Some(l) => if l * iters > usize::MAX {
                            Err(OpError::Overflow)
                        } else {
                            Ok(l * iters)
                        },
                        None => Err(OpError::Overflow),
                    },
                }
            }
        }
    }

    /// The outputs of the scan before the first turn, as far as the first
    /// `n` outputs of the body tell, each with its slot and in the order
    /// of the slots: an output that gathers holds zeros, one for the last
    /// value holds nothing yet.
    pub open spec fn allotted(&self, iters: int, n: int) -> Result<Seq<(usize, Seq<i64>)>, OpError>
        decreases n,
    {
        if n <= 0 {
            Ok(Seq::empty())
        } else {
            match self.allotted(iters, n - 1) {
                Err(e) => Err(e),
                Ok(outputs) => {
                    let m = self.output_mapping[n - 1];
                    let gathering = match m.full_slot {
                        Some(slot) => match self.full_len(n - 1, iters) {
                            Ok(len) => Ok(
                                with_output(outputs, slot, Seq::new(len as nat, |j: int| 0i64)),
                            ),
                            Err(e) => Err(e),
                        },
                        None => Ok(outputs),
                    };
                    match gathering {
                        Err(e) => Err(e),
                        Ok(outputs) => match m.last_value_slot {
                            Some(slot) => Ok(with_output(outputs, slot, Seq::empty())),
                            None => Ok(outputs),
                        },
                    }
                },
            }
        }
    }

    /// The inputs of the body for the turn `i`, as far as its first `n`
    /// inputs go, and how many tensors of the state `hidden` they take: a
    /// state takes the next tensor of the state, a scanned input its chunk
    /// `i`, another input the whole input of the scan.
    pub open spec fn turn_inputs(
        &self,
        inputs: Seq<Seq<i64>>,
        hidden: Seq<Seq<i64>>,
        i: int,
        n: int,
    ) -> Result<(Seq<Seq<i64>>, int), OpError>
        decreases n,
    {
        if n <= 0 {
            Ok((Seq::empty(), 0))
        } else {
            match self.turn_inputs(inputs, hidden, i, n - 1) {
                Err(e) => Err(e),
                Ok((ins, used)) => match self.input_mapping[n - 1] {
                    InputMapping::State { initializer } => if used < hidden.len() {
                        Ok((ins.push(hidden[used]), used + 1))
                    } else {
                        Err(OpError::NoValue(used as usize))
                    },
                    InputMapping::Scan { slot, axis, chunk } => if slot >= inputs.len() {
                        Err(OpError::WrongArity(inputs.len() as usize))
                    } else if i * chunk + chunk > usize::MAX {
                        Err(OpError::Overflow)
                    } else {
                        Ok(
                            (
                                ins.push(chunk_of(inputs[slot as int], i, chunk as int, self.backward)),
                                used,
                            ),
                        )
                    },
                    InputMapping::Full { slot } => if slot >= inputs.len() {
                        Err(OpError::WrongArity(inputs.len() as usize))
                    } else {
                        Ok((ins.push(inputs[slot as int]), used))
                    },
                },
            }
        }
    }

    /// The outputs of the scan and its state once the first `n` outputs
    /// `outs` of the body in the turn `i` are dealt with: an output that is
    /// gathered goes into its output of the scan, one whose last value is
    /// asked for becomes that output in the last turn, and one that is
    /// state joins the state.
    pub open spec fn spread(
        &self,
        outs: Seq<Seq<i64>>,
        outputs: Seq<Seq<i64>>,
        hidden: Seq<Seq<i64>>,
        i: int,
        last: bool,
        n: int,
    ) -> Result<(Seq<Seq<i64>>, Seq<Seq<i64>>), OpError>
        decreases n,
    {
        if n <= 0 {
            Ok((outputs, hidden))
        } else {
            match self.spread(outs, outputs, hidden, i, last, n - 1) {
                Err(e) => Err(e),
                Ok((outputs, hidden)) => {
                    let m = self.output_mapping[n - 1];
                    let v = outs[n - 1];
                    let gathered = match m.full_slot {
                        Some(slot) => if slot >= outputs.len() {
                            Err(OpError::NoValue(slot))
                        } else {
                            match assigned(outputs[slot as int], v, i, self.backward) {
                                Ok(t) => Ok(outputs.update(slot as int, t)),
                                Err(e) => Err(e),
                            }
                        },
                        None => Ok(outputs),
                    };
                    match gathered {
                        Err(e) => Err(e),
                        Ok(outputs) => {
                            let kept = match m.last_value_slot {
                                Some(slot) => if !last {
                                    Ok(outputs)
                                } else if slot >= outputs.len() {
                                    Err(OpError::NoValue(slot))
                                } else {
                                    Ok(outputs.update(slot as int, v))
                                },
                                None => Ok(outputs),
                            };
                            match kept {
                                Err(e) => Err(e),
                                Ok(outputs) => Ok(
                                    (
                                        outputs,
                                        if m.state {
                                            hidden.push(v)
                                        } else {
                                            hidden
                                        },
                                    ),
                                ),
                            }
                        },
                    }
                },
            }
        }
    }

    /// The turn `i` of `iters`: the scan has seen one turn more; unless the
    /// turn is passed over, the body runs on its inputs for the turn, and
    /// its outputs go where they belong. The tensors of the state that the
    /// body did not take stay, in reverse order, before those that it
    /// gives.
    pub open spec fn turn(
        &self,
        inputs: Seq<Seq<i64>>,
        position: int,
        hidden: Seq<Seq<i64>>,
        outputs: Seq<Seq<i64>>,
        i: int,
        iters: int,
    ) -> Result<(int, Seq<Seq<i64>>, Seq<Seq<i64>>), OpError> {
        if position + 1 > usize::MAX {
            Err(OpError::Overflow)
        } else if position + 1 <= self.skip {
            Ok((position + 1, hidden, outputs))
        } else {
            match self.turn_inputs(inputs, hidden, i, self.input_mapping.len() as int) {
                Err(e) => Err(e),
                Ok((ins, used)) => match run_outcome(self.body@, self.plan.order@, ins) {
                    Err(e) => Err(e),
                    Ok(outs) => match self.spread(
                        outs,
                        outputs,
                        flipped_rest(hidden, used),
                        i,
                        i == iters - 1,
                        least(outs.len() as int, self.output_mapping.len() as int),
                    ) {
                        Err(e) => Err(e),
                        Ok((outputs, hidden)) => Ok((position + 1, hidden, outputs)),
                    },
                },
            }
        }
    }

    /// What the first `n` of `iters` turns leave: how many turns the scan
    /// has seen, its state and its outputs.
    pub open spec fn turned(
        &self,
        inputs: Seq<Seq<i64>>,
        position: int,
        hidden: Seq<Seq<i64>>,
        outputs: Seq<Seq<i64>>,
        iters: int,
        n: int,
    ) -> Result<(int, Seq<Seq<i64>>, Seq<Seq<i64>>), OpError>
        decreases n,
    {
        if n <= 0 {
            Ok((position, hidden, outputs))
        } else {
            match self.turned(inputs, position, hidden, outputs, iters, n - 1) {
                Err(e) => Err(e),
                Ok((p, h, o)) => self.turn(inputs, p, h, o, n - 1, iters),
            }
        }
    }

    /// What the scan computes of `inputs`, having seen `position` turns and
    /// holding the state `hidden`: its outputs, in the order of their
    /// slots, how many turns it has seen then, and its state. A scan that
    /// holds no state starts from what its mapping says.
    pub open spec fn outcome(&self, position: int, hidden: Seq<Seq<i64>>, inputs: Seq<Seq<i64>>) -> Result<
        (Seq<Seq<i64>>, int, Seq<Seq<i64>>),
        OpError,
    > {
        let started = if hidden.len() == 0 {
            first_states(self.input_mapping@, inputs, self.input_mapping.len() as int)
        } else {
            Ok(hidden)
        };
        match started {
            Err(e) => Err(e),
            Ok(hidden) => match turns(self.input_mapping@, inputs) {
                Err(e) => Err(e),
                Ok(iters) => match self.allotted(iters, self.output_mapping.len() as int) {
                    Err(e) => Err(e),
                    Ok(outputs) => match self.turned(
                        inputs,
                        position,
                        hidden,
                        tensors_of(outputs),
                        iters,
                        iters,
                    ) {
                        Err(e) => Err(e),
                        Ok((p, h, o)) => Ok((o, p, h)),
                    },
                },
            }
        }
    }

}

/// The tensors of the state `hidden` from the `used`-th on, the last one
/// first.
pub open spec fn flipped_rest(hidden: Seq<Seq<i64>>, used: int) -> Seq<Seq<i64>> {
    Seq::new((hidden.len() - used) as nat, |k: int| hidden[hidden.len() - 1 - k])
}

/// The outputs without their slots.
pub open spec fn tensors_of(outputs: Seq<(usize, Seq<i64>)>) -> Seq<Seq<i64>> {
    Seq::new(outputs.len(), |k: int| outputs[k].1)
}

/// The outputs with their slots, the tensors as sequences.
pub open spec fn entries_of(outputs: Seq<(usize, Vec<i64>)>) -> Seq<(usize, Seq<i64>)> {
    Seq::new(outputs.len(), |k: int| (outputs[k].0, outputs[k].1@))
}

/// A state that has failed to start stays failed.
pub proof fn lemma_first_states_fail(
    mapping: Seq<InputMapping<usize>>,
    inputs: Seq<Seq<i64>>,
    n: int,
    m: int,
)
    requires
        0 <= n <= m,
        first_states(mapping, inputs, n).is_err(),
    ensures
        first_states(mapping, inputs, m) == first_states(mapping, inputs, n),
    decreases m - n,
{
    if n < m {
        lemma_first_states_fail(mapping, inputs, n, m - 1);
    }
}

/// The state that a scan starts from.
fn init_states(mapping: &Vec<InputMapping<usize>>, inputs: &Vec<Vec<i64>>) -> (r: Result<
    Vec<Vec<i64>>,
    OpError,
>)
    ensures
        match r {
            Ok(h) => first_states(mapping@, views_of(inputs@), mapping.len() as int) == Ok::<
                Seq<Seq<i64>>,
                OpError,
            >(views_of(h@)),
            Err(e) => first_states(mapping@, views_of(inputs@), mapping.len() as int) == Err::<
                Seq<Seq<i64>>,
                OpError,
            >(e),
        },
{
    let ghost ins = views_of(inputs@);
    let mut hidden: Vec<Vec<i64>> = Vec::new();
    let mut k: usize = 0;
    assert(views_of(hidden@) =~= Seq::<Seq<i64>>::empty());
    while k < mapping.len()
        invariant
            0 <= k <= mapping.len(),
            ins == views_of(inputs@),
            first_states(mapping@, ins, k as int) == Ok::<Seq<Seq<i64>>, OpError>(views_of(hidden@)),
        decreases mapping.len() - k,
    {
        let ghost had = views_of(hidden@);
        match &mapping[k] {
            InputMapping::State { initializer } => match initializer {
                StateInitializer::FromInput(slot) => {
                    if *slot >= inputs.len() {
                        proof {
                            lemma_first_states_fail(mapping@, ins, k + 1, mapping.len() as int);
                        }
                        return Err(OpError::WrongArity(inputs.len()));
                    }
                    let t = copied(&inputs[*slot]);
                    assert(ins[*slot as int] == t@);
                    hidden.push(t);
                    assert(views_of(hidden@) =~= had.push(ins[*slot as int]));
                },
                StateInitializer::Value(v) => {
                    let t = copied(&v.data);
                    hidden.push(t);
                    assert(views_of(hidden@) =~= had.push(v.data@));
                },
            },
            _ => {},
        }
        k += 1;
    }
    Ok(hidden)
}

/// The number of turns of a scan on `inputs`.
fn count_turns(mapping: &Vec<InputMapping<usize>>, inputs: &Vec<Vec<i64>>) -> (r: Result<
    usize,
    OpError,
>)
    ensures
        match r {
            Ok(n) => turns(mapping@, views_of(inputs@)) == Ok::<int, OpError>(n as int),
            Err(e) => turns(mapping@, views_of(inputs@)) == Err::<int, OpError>(e),
        },
{
    let mut k: usize = 0;
    while k < mapping.len()
        invariant
            0 <= k <= mapping.len(),
            scanned(mapping@, 0) == scanned(mapping@, k as int),
        decreases mapping.len() - k,
    {
        match &mapping[k] {
            InputMapping::Scan { slot, axis, chunk } => {
                if *slot >= inputs.len() {
                    return Err(OpError::WrongArity(inputs.len()));
                }
                if *axis != 0 {
                    return Err(OpError::NoSuchAxis(*axis));
                }
                if *chunk == 0 {
                    return Err(OpError::Overflow);
                }
                assert(views_of(inputs@)[*slot as int] == inputs[*slot as int]@);
                return Ok(iterations(inputs[*slot].len(), *chunk));
            },
            _ => {},
        }
        k += 1;
    }
    Err(OpError::NoEval)
}

/// Puts the output `t` for `slot` in its place among `outputs`.
fn place_output(outputs: &mut Vec<(usize, Vec<i64>)>, slot: usize, t: Vec<i64>)
    ensures
        entries_of(final(outputs)@) == with_output(entries_of(old(outputs)@), slot, t@),
{
    let ghost before = entries_of(outputs@);
    let mut k: usize = 0;
    while k < outputs.len() && outputs[k].0 <= slot
        invariant
            0 <= k <= outputs.len(),
            *outputs == *old(outputs),
            before == entries_of(outputs@),
            slot_place(before, slot, 0) == slot_place(before, slot, k as int),
        decreases outputs.len() - k,
    {
        assert(before[k as int].0 == outputs[k as int].0);
        k += 1;
    }
    proof {
        if k < outputs.len() {
            assert(before[k as int].0 == outputs[k as int].0);
        }
    }
    let ghost added = t@;
    outputs.insert(k, (slot, t));
    assert(entries_of(outputs@) =~= before.insert(k as int, (slot, added)));
}

/// Outputs that are not to be had stay so.
pub proof fn lemma_allotted_fail(op: &LirScanOpParams, iters: int, n: int, m: int)
    requires
        0 <= n <= m,
        op.allotted(iters, n).is_err(),
    ensures
        op.allotted(iters, m) == op.allotted(iters, n),
    decreases m - n,
{
    if n < m {
        lemma_allotted_fail(op, iters, n, m - 1);
    }
}

impl LirScanOpParams {
    /// The length of the output of the scan that gathers the output `ix`
    /// of the body over `iters` turns.
    fn gathered_len(&self, ix: usize, iters: usize) -> (r: Result<usize, OpError>)
        requires
            self.wf(),
            ix < self.output_mapping.len(),
        ensures
            match r {
                Ok(n) => self.full_len(ix as int, iters as int) == Ok::<int, OpError>(n as int),
                Err(e) => self.full_len(ix as int, iters as int) == Err::<int, OpError>(e),
            },
    {
        let m = &self.output_mapping[ix];
        if ix >= self.body.outputs.len() {
            return Err(OpError::NoValue(ix));
        }
        let outlet = self.body.outputs[ix];
        assert(self.body@.has_outlet(self.body@.outputs[ix as int]));
        let fact = match self.body.outlet_fact(outlet) {
            Ok(f) => f,
            Err(_) => {
                assert(false);
                return Err(OpError::NoValue(ix));
            },
        };
        if m.axis != 0 || fact.shape.len() == 0 {
            return Err(OpError::NoSuchAxis(m.axis));
        }
        let hint = match &m.full_dim_hint {
            Some(d) => as_number(d),
            None => None,
        };
        match hint {
            Some(v) => Ok(v),
            None => match as_number(&fact.shape[0]) {
                Some(l) => match l.checked_mul(iters) {
                    Some(n) => Ok(n),
                    None => Err(OpError::Overflow),
                },
                None => Err(OpError::Overflow),
            },
        }
    }

    /// The outputs of the scan before the first of `iters` turns.
    fn allot(&self, iters: usize) -> (r: Result<Vec<Vec<i64>>, OpError>)
        requires
            self.wf(),
        ensures
            match r {
                Ok(v) => self.allotted(iters as int, self.output_mapping.len() as int) matches Ok(es)
                    && views_of(v@) == tensors_of(es),
                Err(e) => self.allotted(iters as int, self.output_mapping.len() as int) == Err::<
                    Seq<(usize, Seq<i64>)>,
                    OpError,
                >(e),
            },
    {
        let mut entries: Vec<(usize, Vec<i64>)> = Vec::new();
        let mut ix: usize = 0;
        assert(entries_of(entries@) =~= Seq::<(usize, Seq<i64>)>::empty());
        while ix < self.output_mapping.len()
            invariant
                0 <= ix <= self.output_mapping.len(),
                self.wf(),
                self.allotted(iters as int, ix as int) == Ok::<Seq<(usize, Seq<i64>)>, OpError>(
                    entries_of(entries@),
                ),
            decreases self.output_mapping.len() - ix,
        {
            let full_slot = self.output_mapping[ix].full_slot;
            let last_value_slot = self.output_mapping[ix].last_value_slot;
            match full_slot {
                Some(slot) => {
                    let len = match self.gathered_len(ix, iters) {
                        Ok(l) => l,
                        Err(e) => {
                            proof {
                                lemma_allotted_fail(
                                    self,
                                    iters as int,
                                    ix + 1,
                                    self.output_mapping.len() as int,
                                );
                            }
                            return Err(e);
                        },
                    };
                    let t = zeros(len);
                    place_output(&mut entries, slot, t);
                },
                None => {},
            }
            match last_value_slot {
                Some(slot) => {
                    let t: Vec<i64> = Vec::new();
                    assert(t@ =~= Seq::<i64>::empty());
                    place_output(&mut entries, slot, t);
                },
                None => {},
            }
            ix += 1;
        }
        let mut out: Vec<Vec<i64>> = Vec::new();
        let mut k: usize = 0;
        let ghost es = entries_of(entries@);
        while k < entries.len()
            invariant
                0 <= k <= entries.len(),
                es == entries_of(entries@),
                views_of(out@) == Seq::new(k as nat, |j: int| es[j].1),
            decreases entries.len() - k,
        {
            let ghost done = views_of(out@);
            let t = copied(&entries[k].1);
            assert(t@ == es[k as int].1);
            out.push(t);
            assert(views_of(out@) =~= done.push(es[k as int].1));
            assert(views_of(out@) =~= Seq::new((k + 1) as nat, |j: int| es[j].1));
            k += 1;
        }
        Ok(out)
    }
}

/// A tensor of `len` zeros.
fn zeros(len: usize) -> (r: Vec<i64>)
    ensures
        r@ == Seq::new(len as nat, |j: int| 0i64),
{
    let mut t: Vec<i64> = Vec::new();
    let mut k: usize = 0;
    while k < len
        invariant
            0 <= k <= len,
            t@ == Seq::new(k as nat, |j: int| 0i64),
        decreases len - k,
    {
        t.push(0);
        assert(t@ =~= Seq::new((k + 1) as nat, |j: int| 0i64));
        k += 1;
    }
    t
}

/// Inputs of the body that are not to be had stay so.
pub proof fn lemma_turn_inputs_fail(
    op: &LirScanOpParams,
    inputs: Seq<Seq<i64>>,
    hidden: Seq<Seq<i64>>,
    i: int,
    n: int,
    m: int,
)
    requires
        0 <= n <= m,
        op.turn_inputs(inputs, hidden, i, n).is_err(),
    ensures
        op.turn_inputs(inputs, hidden, i, m) == op.turn_inputs(inputs, hidden, i, n),
    decreases m - n,
{
    if n < m {
        lemma_turn_inputs_fail(op, inputs, hidden, i, n, m - 1);
    }
}

/// Once an output of the body finds no place, none after it does.
pub proof fn lemma_spread_fail(
    op: &LirScanOpParams,
    outs: Seq<Seq<i64>>,
    outputs: Seq<Seq<i64>>,
    hidden: Seq<Seq<i64>>,
    i: int,
    last: bool,
    n: int,
    m: int,
)
    requires
        0 <= n <= m,
        op.spread(outs, outputs, hidden, i, last, n).is_err(),
    ensures
        op.spread(outs, outputs, hidden, i, last, m) == op.spread(outs, outputs, hidden, i, last, n),
    decreases m - n,
{
    if n < m {
        lemma_spread_fail(op, outs, outputs, hidden, i, last, n, m - 1);
    }
}

/// Turns that have failed stay failed.
pub proof fn lemma_turned_fail(
    op: &LirScanOpParams,
    inputs: Seq<Seq<i64>>,
    position: int,
    hidden: Seq<Seq<i64>>,
    outputs: Seq<Seq<i64>>,
    iters: int,
    n: int,
    m: int,
)
    requires
        0 <= n <= m,
        op.turned(inputs, position, hidden, outputs, iters, n).is_err(),
    ensures
        op.turned(inputs, position, hidden, outputs, iters, m) == op.turned(
            inputs,
            position,
            hidden,
            outputs,
            iters,
            n,
        ),
    decreases m - n,
{
    if n < m {
        lemma_turned_fail(op, inputs, position, hidden, outputs, iters, n, m - 1);
    }
}

/// The tensors of the state `hidden` from the `used`-th on, the last one
/// first.
fn rest_flipped(hidden: &Vec<Vec<i64>>, used: usize) -> (r: Vec<Vec<i64>>)
    requires
        used <= hidden.len(),
    ensures
        views_of(r@) == flipped_rest(views_of(hidden@), used as int),
{
    let ghost h = views_of(hidden@);
    let n = hidden.len() - used;
    let mut out: Vec<Vec<i64>> = Vec::new();
    let mut k: usize = 0;
    while k < n
        invariant
            0 <= k <= n,
            n == hidden.len() - used,
            h == views_of(hidden@),
            views_of(out@) == Seq::new(k as nat, |j: int| h[h.len() - 1 - j]),
        decreases n - k,
    {
        let ghost done = views_of(out@);
        let t = copied(&hidden[hidden.len() - 1 - k]);
        assert(t@ == h[h.len() - 1 - k]);
        out.push(t);
        assert(views_of(out@) =~= done.push(h[h.len() - 1 - k]));
        assert(views_of(out@) =~= Seq::new((k + 1) as nat, |j: int| h[h.len() - 1 - j]));
        k += 1;
    }
    assert(views_of(out@) =~= flipped_rest(h, used as int));
    out
}

impl LirScanOpParams {
    /// The inputs of the body for the turn `i`, and how many tensors of
    /// the state `hidden` they take.
    fn gather_inputs(&self, inputs: &Vec<Vec<i64>>, hidden: &Vec<Vec<i64>>, i: usize) -> (r: Result<
        (Vec<Vec<i64>>, usize),
        OpError,
    >)
        ensures
            match r {
                Ok((ins, used)) => self.turn_inputs(
                    views_of(inputs@),
                    views_of(hidden@),
                    i as int,
                    self.input_mapping.len() as int,
                ) == Ok::<(Seq<Seq<i64>>, int), OpError>((views_of(ins@), used as int)) && used
                    <= hidden.len(),
                Err(e) => self.turn_inputs(
                    views_of(inputs@),
                    views_of(hidden@),
                    i as int,
                    self.input_mapping.len() as int,
                ) == Err::<(Seq<Seq<i64>>, int), OpError>(e),
            },
    {
        let ghost given = views_of(inputs@);
        let ghost h = views_of(hidden@);
        let mut ins: Vec<Vec<i64>> = Vec::new();
        let mut used: usize = 0;
        let mut k: usize = 0;
        assert(views_of(ins@) =~= Seq::<Seq<i64>>::empty());
        while k < self.input_mapping.len()
            invariant
                0 <= k <= self.input_mapping.len(),
                given == views_of(inputs@),
                h == views_of(hidden@),
                used <= hidden.len(),
                self.turn_inputs(given, h, i as int, k as int) == Ok::<
                    (Seq<Seq<i64>>, int),
                    OpError,
                >((views_of(ins@), used as int)),
            decreases self.input_mapping.len() - k,
        {
            let ghost had = views_of(ins@);
            let next = match &self.input_mapping[k] {
                InputMapping::State { initializer } => {
                    if used < hidden.len() {
                        let t = copied(&hidden[used]);
                        assert(h[used as int] == t@);
                        used += 1;
                        Ok(t)
                    } else {
                        Err(OpError::NoValue(used))
                    }
                },
                InputMapping::Scan { slot, axis, chunk } => {
                    if *slot >= inputs.len() {
                        Err(OpError::WrongArity(inputs.len()))
                    } else {
                        assert(given[*slot as int] == inputs[*slot as int]@);
                        match i.checked_mul(*chunk) {
                            Some(start) => if start > usize::MAX - *chunk {
                                Err(OpError::Overflow)
                            } else {
                                Ok(slice_input(&inputs[*slot], i, *chunk, self.backward))
                            },
                            None => Err(OpError::Overflow),
                        }
                    }
                },
                InputMapping::Full { slot } => {
                    if *slot >= inputs.len() {
                        Err(OpError::WrongArity(inputs.len()))
                    } else {
                        assert(given[*slot as int] == inputs[*slot as int]@);
                        Ok(copied(&inputs[*slot]))
                    }
                },
            };
            match next {
                Ok(t) => {
                    let ghost v = t@;
                    ins.push(t);
                    assert(views_of(ins@) =~= had.push(v));
                },
                Err(e) => {
                    proof {
                        lemma_turn_inputs_fail(
                            self,
                            given,
                            h,
                            i as int,
                            k + 1,
                            self.input_mapping.len() as int,
                        );
                    }
                    return Err(e);
                },
            }
            k += 1;
        }
        Ok((ins, used))
    }

    /// Deals with the outputs `outs` of the body in the turn `i`: puts
    /// what is gathered and what is asked for into `outputs`, and what is
    /// state behind `hidden`.
    fn spread_outputs(
        &self,
        outs: &Vec<Vec<i64>>,
        outputs: &mut Vec<Vec<i64>>,
        hidden: &mut Vec<Vec<i64>>,
        i: usize,
        last: bool,
    ) -> (r: Result<(), OpError>)
        ensures
            match r {
                Ok(_) => self.spread(
                    views_of(outs@),
                    views_of(old(outputs)@),
                    views_of(old(hidden)@),
                    i as int,
                    last,
                    least(outs.len() as int, self.output_mapping.len() as int),
                ) == Ok::<(Seq<Seq<i64>>, Seq<Seq<i64>>), OpError>(
                    (views_of(final(outputs)@), views_of(final(hidden)@)),
                ),
                Err(e) => self.spread(
                    views_of(outs@),
                    views_of(old(outputs)@),
                    views_of(old(hidden)@),
                    i as int,
                    last,
                    least(outs.len() as int, self.output_mapping.len() as int),
                ) == Err::<(Seq<Seq<i64>>, Seq<Seq<i64>>), OpError>(e),
            },
    {
        let ghost given = views_of(outs@);
        let ghost o0 = views_of(outputs@);
        let ghost h0 = views_of(hidden@);
        let n = if outs.len() < self.output_mapping.len() {
            outs.len()
        } else {
            self.output_mapping.len()
        };
        let mut k: usize = 0;
        while k < n
            invariant
                0 <= k <= n,
                n == least(outs.len() as int, self.output_mapping.len() as int),
                given == views_of(outs@),
                o0 == views_of(old(outputs)@),
                h0 == views_of(old(hidden)@),
                self.spread(given, o0, h0, i as int, last, k as int) == Ok::<
                    (Seq<Seq<i64>>, Seq<Seq<i64>>),
                    OpError,
                >((views_of(outputs@), views_of(hidden@))),
            decreases n - k,
        {
            let ghost o1 = views_of(outputs@);
            let ghost h1 = views_of(hidden@);
            let full_slot = self.output_mapping[k].full_slot;
            let last_value_slot = self.output_mapping[k].last_value_slot;
            let state = self.output_mapping[k].state;
            let v = &outs[k];
            assert(given[k as int] == v@);
            let gathered = match full_slot {
                Some(slot) => {
                    if slot >= outputs.len() {
                        Err(OpError::NoValue(slot))
                    } else {
                        let mut t = copied(&outputs[slot]);
                        assert(o1[slot as int] == t@);
                        match assign_output(&mut t, v, i, self.backward) {
                            Ok(_) => {
                                let ghost put = t@;
                                outputs.set(slot, t);
                                assert(views_of(outputs@) =~= o1.update(slot as int, put));
                                Ok(())
                            },
                            Err(e) => Err(e),
                        }
                    }
                },
                None => Ok(()),
            };
            let ghost o2 = views_of(outputs@);
            let kept = match gathered {
                Err(e) => Err(e),
                Ok(_) => match last_value_slot {
                    Some(slot) => {
                        if !last {
                            Ok(())
                        } else if slot >= outputs.len() {
                            Err(OpError::NoValue(slot))
                        } else {
                            outputs.set(slot, copied(v));
                            assert(views_of(outputs@) =~= o2.update(slot as int, v@));
                            Ok(())
                        }
                    },
                    None => Ok(()),
                },
            };
            match kept {
                Ok(_) => {
                    if state {
                        hidden.push(copied(v));
                        assert(views_of(hidden@) =~= h1.push(v@));
                    }
                },
                Err(e) => {
                    proof {
                        assert(self.spread(given, o0, h0, i as int, last, k as int) == Ok::<
                            (Seq<Seq<i64>>, Seq<Seq<i64>>),
                            OpError,
                        >((o1, h1)));
                        assert(self.spread(given, o0, h0, i as int, last, k + 1) == Err::<
                            (Seq<Seq<i64>>, Seq<Seq<i64>>),
                            OpError,
                        >(e));
                        lemma_spread_fail(self, given, o0, h0, i as int, last, k + 1, n as int);
                    }
                    return Err(e);
                },
            }
            k += 1;
        }
        Ok(())
    }
}

impl ScanState {
    /// The turn `i` of `iters` of the scan `op` on `inputs`.
    fn turn(
        &mut self,
        op: &LirScanOpParams,
        inputs: &Vec<Vec<i64>>,
        outputs: &mut Vec<Vec<i64>>,
        i: usize,
        iters: usize,
    ) -> (r: Result<(), OpError>)
        requires
            op.wf(),
        ensures
            match r {
                Ok(_) => op.turn(
                    views_of(inputs@),
                    old(self).position as int,
                    views_of(old(self).hidden_state@),
                    views_of(old(outputs)@),
                    i as int,
                    iters as int,
                ) == Ok::<(int, Seq<Seq<i64>>, Seq<Seq<i64>>), OpError>(
                    (
                        final(self).position as int,
                        views_of(final(self).hidden_state@),
                        views_of(final(outputs)@),
                    ),
                ),
                Err(e) => op.turn(
                    views_of(inputs@),
                    old(self).position as int,
                    views_of(old(self).hidden_state@),
                    views_of(old(outputs)@),
                    i as int,
                    iters as int,
                ) == Err::<(int, Seq<Seq<i64>>, Seq<Seq<i64>>), OpError>(e),
            },
    {
        if self.position == usize::MAX {
            return Err(OpError::Overflow);
        }
        self.position += 1;
        if self.position <= op.skip {
            return Ok(());
        }
        let (ins, used) = match op.gather_inputs(inputs, &self.hidden_state, i) {
            Ok(found) => found,
            Err(e) => {
                return Err(e);
            },
        };
        let outs = match self.model_state.run(&op.body, &op.plan, &ins) {
            Ok(outs) => outs,
            Err(e) => {
                return match e {
                    ModelError::Op(f) => Err(f),
                    _ => {
                        assert(false);
                        Err(OpError::NoEval)
                    },
                };
            },
        };
        let mut hidden = rest_flipped(&self.hidden_state, used);
        let r = op.spread_outputs(&outs, outputs, &mut hidden, i, iters > 0 && i == iters - 1);
        self.hidden_state = hidden;
        r
    }

    /// Runs the scan `op` on `inputs`, tensors of one axis, and gives its
    /// outputs in the order of their slots. The state goes on from where
    /// the last call left it; a state that holds nothing starts from what
    /// the scan says.
    pub fn eval(&mut self, op: &LirScanOpParams, inputs: &Vec<Vec<i64>>) -> (r: Result<
        Vec<Vec<i64>>,
        ModelError,
    >)
        requires
            op.wf(),
        ensures
            match r {
                Ok(out) => op.outcome(
                    old(self).position as int,
                    views_of(old(self).hidden_state@),
                    views_of(inputs@),
                ) == Ok::<(Seq<Seq<i64>>, int, Seq<Seq<i64>>), OpError>(
                    (
                        views_of(out@),
                        final(self).position as int,
                        views_of(final(self).hidden_state@),
                    ),
                ),
                Err(e) => e matches ModelError::Op(f) && op.outcome(
                    old(self).position as int,
                    views_of(old(self).hidden_state@),
                    views_of(inputs@),
                ) == Err::<(Seq<Seq<i64>>, int, Seq<Seq<i64>>), OpError>(f),
            },
    {
        let ghost given = views_of(inputs@);
        let ghost p0 = self.position as int;
        if self.hidden_state.len() == 0 {
            self.hidden_state = match init_states(&op.input_mapping, inputs) {
                Ok(h) => h,
                Err(e) => {
                    return Err(ModelError::Op(e));
                },
            };
        }
        let ghost h0 = views_of(self.hidden_state@);
        let iters = match count_turns(&op.input_mapping, inputs) {
            Ok(n) => n,
            Err(e) => {
                return Err(ModelError::Op(e));
            },
        };
        let mut outputs = match op.allot(iters) {
            Ok(o) => o,
            Err(e) => {
                return Err(ModelError::Op(e));
            },
        };
        let ghost o0 = views_of(outputs@);
        let ghost start = views_of(old(self).hidden_state@);
        let ghost want = op.outcome(p0, start, given);
        assert(want == (match op.turned(given, p0, h0, o0, iters as int, iters as int) {
            Err(e) => Err::<(Seq<Seq<i64>>, int, Seq<Seq<i64>>), OpError>(e),
            Ok((p, h, o)) => Ok((o, p, h)),
        }));
        let mut i: usize = 0;
        while i < iters
            invariant
                0 <= i <= iters,
                op.wf(),
                given == views_of(inputs@),
                want == op.outcome(
                    old(self).position as int,
                    views_of(old(self).hidden_state@),
                    given,
                ),
                want == (match op.turned(given, p0, h0, o0, iters as int, iters as int) {
                    Err(e) => Err::<(Seq<Seq<i64>>, int, Seq<Seq<i64>>), OpError>(e),
                    Ok((p, h, o)) => Ok((o, p, h)),
                }),
                op.turned(given, p0, h0, o0, iters as int, i as int) == Ok::<
                    (int, Seq<Seq<i64>>, Seq<Seq<i64>>),
                    OpError,
                >((self.position as int, views_of(self.hidden_state@), views_of(outputs@))),
            decreases iters - i,
        {
            match self.turn(op, inputs, &mut outputs, i, iters) {
                Ok(_) => {},
                Err(e) => {
                    proof {
                        lemma_turned_fail(op, given, p0, h0, o0, iters as int, i + 1, iters as int);
                    }
                    return Err(ModelError::Op(e));
                },
            }
            i += 1;
        }
        Ok(outputs)
    }
}

/// What is known of the outputs with their slots: of each its type and
/// its shape.
pub open spec fn known_of(outputs: Seq<(usize, TypedFact)>) -> Seq<(usize, (DatumType, Seq<Expr>))> {
    Seq::new(
        outputs.len(),
        |k: int| (outputs[k].0, (outputs[k].1.datum_type, views(outputs[k].1.shape@))),
    )
}

impl LirScanOpParams {
    /// The number of turns of the scan on inputs of which `inputs` is
    /// known: the length of the first scanned input along its axis, over
    /// the chunk, rounded up.
    pub open spec fn fact_turns(&self, inputs: Seq<TypedFact>) -> Result<Expr, OpError> {
        match scanned(self.input_mapping@, 0) {
            None => Err(OpError::NoEval),
            Some((slot, axis, chunk)) => if slot >= inputs.len() {
                Err(OpError::WrongArity(inputs.len() as usize))
            } else if axis >= inputs[slot as int].shape.len() {
                Err(OpError::NoSuchAxis(axis))
            } else if chunk == 0 || chunk > i32::MAX {
                Err(OpError::Overflow)
            } else {
                Ok(
                    inputs[slot as int].shape[axis as int]@.plus(Expr::Val(chunk - 1)).over(
                        chunk as int,
                    ).reduced(),
                )
            },
        }
    }

    /// The shape of the output of the scan that gathers the output `ix` of
    /// the body over `iters` turns: the shape of the output of the body,
    /// but along the axis of the mapping the length that the mapping says,
    /// or else the length of the output of the body, which has to be a
    /// number, `iters` times.
    pub open spec fn gathered_shape(&self, ix: int, iters: Expr) -> Result<Seq<Expr>, OpError> {
        let m = self.output_mapping[ix];
        let shape = views(self.body@.fact(self.body@.outputs[ix]).shape@);
        if m.axis >= shape.len() {
            Err(OpError::NoSuchAxis(m.axis))
        } else {
            match m.full_dim_hint {
                Some(d) => Ok(shape.update(m.axis as int, d@)),
                None => match shape[m.axis as int].eval(Map::empty()) {
                    Ok(n) => Ok(shape.update(m.axis as int, iters.times(n).reduced())),
                    Err(d) => Err(OpError::Symbolic(d)),
                },
            }
        }
    }

    /// What is known of the outputs of the scan, as far as the first `n`
    /// outputs of the body tell, each with its slot and in the order of the
    /// slots: of an output for the last value what is known of the output
    /// of the body, of one that gathers the same with the gathered shape.
    pub open spec fn facts_allotted(&self, iters: Expr, n: int) -> Result<
        Seq<(usize, (DatumType, Seq<Expr>))>,
        OpError,
    >
        decreases n,
    {
        if n <= 0 {
            Ok(Seq::empty())
        } else {
            match self.facts_allotted(iters, n - 1) {
                Err(e) => Err(e),
                Ok(outputs) => if n - 1 >= self.body@.outputs.len() {
                    Err(OpError::NoValue((n - 1) as usize))
                } else {
                    let m = self.output_mapping[n - 1];
                    let fact = self.body@.fact(self.body@.outputs[n - 1]);
                    let with_last = match m.last_value_slot {
                        Some(slot) => with_output(
                            outputs,
                            slot,
                            (fact.datum_type, views(fact.shape@)),
                        ),
                        None => outputs,
                    };
                    match m.full_slot {
                        Some(slot) => match self.gathered_shape(n - 1, iters) {
                            Ok(shape) => Ok(with_output(with_last, slot, (fact.datum_type, shape))),
                            Err(e) => Err(e),
                        },
                        None => Ok(with_last),
                    }
                },
            }
        }
    }

    /// What is known of the outputs of the scan on inputs of which
    /// `inputs` is known, or why nothing is.
    pub open spec fn facts_outcome(&self, inputs: Seq<TypedFact>) -> Result<
        Seq<(usize, (DatumType, Seq<Expr>))>,
        OpError,
    > {
        match self.fact_turns(inputs) {
            Err(e) => Err(e),
            Ok(iters) => self.facts_allotted(iters, self.output_mapping.len() as int),
        }
    }
}

/// What is not known of the outputs stays unknown.
pub proof fn lemma_facts_allotted_fail(op: &LirScanOpParams, iters: Expr, n: int, m: int)
    requires
        0 <= n <= m,
        op.facts_allotted(iters, n).is_err(),
    ensures
        op.facts_allotted(iters, m) == op.facts_allotted(iters, n),
    decreases m - n,
{
    if n < m {
        lemma_facts_allotted_fail(op, iters, n, m - 1);
    }
}

/// Puts what is known of the output for `slot` in its place among
/// `outputs`.
fn place_fact(outputs: &mut Vec<(usize, TypedFact)>, slot: usize, fact: TypedFact)
    requires
        fact.konst.is_none(),
        forall|k: int| 0 <= k < old(outputs).len() ==> (#[trigger] old(outputs)[k]).1.konst.is_none(),
    ensures
        known_of(final(outputs)@) == with_output(
            known_of(old(outputs)@),
            slot,
            (fact.datum_type, views(fact.shape@)),
        ),
        forall|k: int| 0 <= k < final(outputs).len() ==> (#[trigger] final(outputs)[k]).1.konst.is_none(),
{
    let ghost before = known_of(outputs@);
    let ghost had = outputs@;
    let mut k: usize = 0;
    while k < outputs.len() && outputs[k].0 <= slot
        invariant
            0 <= k <= outputs.len(),
            *outputs == *old(outputs),
            before == known_of(outputs@),
            slot_place(before, slot, 0) == slot_place(before, slot, k as int),
        decreases outputs.len() - k,
    {
        assert(before[k as int].0 == outputs[k as int].0);
        k += 1;
    }
    proof {
        if k < outputs.len() {
            assert(before[k as int].0 == outputs[k as int].0);
        }
    }
    let ghost added = (fact.datum_type, views(fact.shape@));
    outputs.insert(k, (slot, fact));
    assert(known_of(outputs@) =~= before.insert(k as int, (slot, added)));
    assert forall|j: int| 0 <= j < outputs.len() implies (#[trigger] outputs[j]).1.konst.is_none() by {
        if j < k {
            assert(outputs[j] == had[j]);
        } else if j > k {
            assert(outputs[j] == had[j - 1]);
        }
    }
}

impl LirScanOpParams {
    /// The number of turns of the scan on inputs of which `inputs` is
    /// known.
    fn count_fact_turns(&self, inputs: &Vec<TypedFact>) -> (r: Result<TDim, OpError>)
        ensures
            match r {
                Ok(n) => self.fact_turns(inputs@) == Ok::<Expr, OpError>(n@),
                Err(e) => self.fact_turns(inputs@) == Err::<Expr, OpError>(e),
            },
    {
        let mut k: usize = 0;
        while k < self.input_mapping.len()
            invariant
                0 <= k <= self.input_mapping.len(),
                scanned(self.input_mapping@, 0) == scanned(self.input_mapping@, k as int),
            decreases self.input_mapping.len() - k,
        {
            match &self.input_mapping[k] {
                InputMapping::Scan { slot, axis, chunk } => {
                    if *slot >= inputs.len() {
                        return Err(OpError::WrongArity(inputs.len()));
                    }
                    if *axis >= inputs[*slot].shape.len() {
                        return Err(OpError::NoSuchAxis(*axis));
                    }
                    if *chunk == 0 || *chunk > 0x7fff_ffff {
                        return Err(OpError::Overflow);
                    }
                    return Ok(inputs[*slot].shape[*axis].duplicate().div_ceil(*chunk as u32));
                },
                _ => {},
            }
            k += 1;
        }
        Err(OpError::NoEval)
    }

    /// The shape of the output of the scan that gathers the output `ix` of
    /// the body over `iters` turns.
    fn gather_shape(&self, ix: usize, fact: &TypedFact, iters: &TDim) -> (r: Result<
        Vec<TDim>,
        OpError,
    >)
        requires
            ix < self.output_mapping.len(),
            ix < self.body@.outputs.len(),
            *fact == self.body@.fact(self.body@.outputs[ix as int]),
        ensures
            match r {
                Ok(shape) => self.gathered_shape(ix as int, iters@) == Ok::<Seq<Expr>, OpError>(
                    views(shape@),
                ),
                Err(e) => self.gathered_shape(ix as int, iters@) == Err::<Seq<Expr>, OpError>(e),
            },
    {
        let m = &self.output_mapping[ix];
        proof {
            lemma_views_len(fact.shape@);
        }
        if m.axis >= fact.shape.len() {
            return Err(OpError::NoSuchAxis(m.axis));
        }
        let dim = match &m.full_dim_hint {
            Some(d) => d.duplicate(),
            None => match fact.shape[m.axis].to_integer() {
                Ok(n) => iters.duplicate().times(n),
                Err(d) => {
                    return Err(OpError::Symbolic(d));
                },
            },
        };
        let mut shape = duplicate_dims(&fact.shape);
        let ghost old_shape = shape@;
        let ghost put = dim@;
        shape.set(m.axis, dim);
        proof {
            lemma_views_len(old_shape);
            lemma_views_len(shape@);
            assert(views(shape@) =~= views(fact.shape@).update(m.axis as int, put));
        }
        Ok(shape)
    }

    /// What is known of the outputs of the scan on inputs of which
    /// `inputs` is known, in the order of their slots: the type and the
    /// shape of each, and nothing of its value.
    pub fn output_facts(&self, inputs: &Vec<TypedFact>) -> (r: Result<Vec<TypedFact>, OpError>)
        requires
            self.wf(),
        ensures
            match r {
                Ok(facts) => self.facts_outcome(inputs@) matches Ok(known) && facts.len()
                    == known.len() && forall|k: int|
                    0 <= k < facts.len() ==> (#[trigger] facts[k]).datum_type == known[k].1.0
                        && views(facts[k].shape@) == known[k].1.1 && facts[k].konst.is_none(),
                Err(e) => self.facts_outcome(inputs@) == Err::<
                    Seq<(usize, (DatumType, Seq<Expr>))>,
                    OpError,
                >(e),
            },
    {
        let iters = match self.count_fact_turns(inputs) {
            Ok(n) => n,
            Err(e) => {
                return Err(e);
            },
        };
        let mut entries: Vec<(usize, TypedFact)> = Vec::new();
        let mut ix: usize = 0;
        assert(known_of(entries@) =~= Seq::<(usize, (DatumType, Seq<Expr>))>::empty());
        while ix < self.output_mapping.len()
            invariant
                0 <= ix <= self.output_mapping.len(),
                self.wf(),
                self.fact_turns(inputs@) == Ok::<Expr, OpError>(iters@),
                self.facts_allotted(iters@, ix as int) == Ok::<
                    Seq<(usize, (DatumType, Seq<Expr>))>,
                    OpError,
                >(known_of(entries@)),
                forall|k: int| 0 <= k < entries.len() ==> (#[trigger] entries[k]).1.konst.is_none(),
            decreases self.output_mapping.len() - ix,
        {
            if ix >= self.body.outputs.len() {
                proof {
                    lemma_facts_allotted_fail(
                        self,
                        iters@,
                        ix + 1,
                        self.output_mapping.len() as int,
                    );
                }
                return Err(OpError::NoValue(ix));
            }
            let outlet = self.body.outputs[ix];
            assert(self.body@.has_outlet(self.body@.outputs[ix as int]));
            let fact = match self.body.outlet_fact(outlet) {
                Ok(f) => f,
                Err(_) => {
                    assert(false);
                    return Err(OpError::NoValue(ix));
                },
            };
            let full_slot = self.output_mapping[ix].full_slot;
            let last_value_slot = self.output_mapping[ix].last_value_slot;
            match last_value_slot {
                Some(slot) => {
                    let f = TypedFact::dt_shape(fact.datum_type, duplicate_dims(&fact.shape));
                    place_fact(&mut entries, slot, f);
                },
                None => {},
            }
            match full_slot {
                Some(slot) => {
                    let shape = match self.gather_shape(ix, fact, &iters) {
                        Ok(s) => s,
                        Err(e) => {
                            proof {
                                lemma_facts_allotted_fail(
                                    self,
                                    iters@,
                                    ix + 1,
                                    self.output_mapping.len() as int,
                                );
                            }
                            return Err(e);
                        },
                    };
                    let f = TypedFact::dt_shape(fact.datum_type, shape);
                    place_fact(&mut entries, slot, f);
                },
                None => {},
            }
            ix += 1;
        }
        let ghost known = known_of(entries@);
        let mut out: Vec<TypedFact> = Vec::new();
        let mut k: usize = 0;
        while k < entries.len()
            invariant
                0 <= k <= entries.len(),
                known == known_of(entries@),
                out.len() == k,
                forall|j: int| 0 <= j < entries.len() ==> (#[trigger] entries[j]).1.konst.is_none(),
                forall|j: int|
                    0 <= j < k ==> (#[trigger] out[j]).datum_type == known[j].1.0 && views(
                        out[j].shape@,
                    ) == known[j].1.1 && out[j].konst.is_none(),
            decreases entries.len() - k,
        {
            let f = entries[k].1.duplicate();
            assert(entries[k as int].1.konst.is_none());
            assert(known[k as int].1 == (entries[k as int].1.datum_type, views(entries[k as int].1.shape@)));
            out.push(f);
            k += 1;
        }
        Ok(out)
    }
}

} // verus!
