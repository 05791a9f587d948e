//! Padding, on whole tensors and on streams.

use vstd::prelude::*;
use crate::dim::tree::{TDim, Expr};
use crate::error::OpError;
use crate::facts::{PulsedFact, TypedFact};
use crate::model::fact::Fact;
use crate::tensor::{Tensor, copied};

verus! {

/// What the padding is filled with.
#[derive(Debug, PartialEq, Eq)]
pub enum PadMode {
    /// The value of this scalar.
    Constant(Tensor),
    /// The data mirrored at the edge.
    Reflect,
    /// The value at the edge.
    Edge,
}

impl PadMode {
    pub open spec fn same(&self, other: &PadMode) -> bool {
        match (self, other) {
            (PadMode::Constant(a), PadMode::Constant(b)) => a.same(b),
            (PadMode::Reflect, PadMode::Reflect) => true,
            (PadMode::Edge, PadMode::Edge) => true,
            _ => false,
        }
    }

    pub fn duplicate(&self) -> (r: PadMode)
        ensures
            r.same(self),
            self.same(&r),
    {
        match self {
            PadMode::Constant(t) => PadMode::Constant(t.duplicate()),
            PadMode::Reflect => PadMode::Reflect,
            PadMode::Edge => PadMode::Edge,
        }
    }
}

/// Padding: so many elements before and after the data, along each of the
/// first axes.
#[derive(Debug, PartialEq, Eq)]
pub struct Pad {
    pub pads: Vec<(usize, usize)>,
    pub mode: PadMode,
}

/// Padding of a stream along its axis: the operator sees the stream pulse
/// by pulse, and fills what comes before the input begins and after it
/// ends.
#[derive(Debug, PartialEq, Eq)]
pub struct PulsePad {
    pub axis: usize,
    pub pulse: usize,
    pub before: usize,
    pub after: usize,
    /// Where in the stream of pulses the input begins.
    pub begin_input: usize,
    /// Where in the stream of pulses the input ends.
    pub end_input: TDim,
    pub mode: PadMode,
}

/// How a padding goes onto a stream: the delay to put before it, so that
/// the padding before the data has room, and the operator on the stream.
pub struct PadPulse {
    pub extra_delay: usize,
    pub op: PulsePad,
}

/// The first axis from `i` on, other than `axis`, that `pads` pads.
pub open spec fn first_off_stream(pads: Seq<(usize, usize)>, axis: int, i: int) -> Option<usize>
    decreases pads.len() - i,
{
    if i < 0 || i >= pads.len() {
        None
    } else if i != axis && (pads[i].0 != 0 || pads[i].1 != 0) {
        Some(i as usize)
    } else {
        first_off_stream(pads, axis, i + 1)
    }
}

/// The delay to add before padding a stream that lags by `delay`: what
/// the padding before the data lacks; and for padding with the edge value,
/// what brings the first datum to the start of a pulse at the latest.
pub open spec fn extra_delay_spec(before: int, delay: int, pulse: int, edge: bool) -> int {
    let lack = if before > delay {
        before - delay
    } else {
        0
    };
    if edge {
        let offset = (delay + lack) % pulse;
        if before > offset {
            lack + before - offset
        } else {
            lack
        }
    } else {
        lack
    }
}

impl Pad {
    pub open spec fn same(&self, other: &Pad) -> bool {
        self.pads@ == other.pads@ && self.mode.same(&other.mode)
    }

    pub fn new(pads: Vec<(usize, usize)>, mode: PadMode) -> (r: Pad)
        ensures
            r.pads == pads,
            r.mode == mode,
    {
        Pad { pads, mode }
    }

    pub fn duplicate(&self) -> (r: Pad)
        ensures
            r.same(self),
            self.same(&r),
    {
        Pad { pads: copied(&self.pads), mode: self.mode.duplicate() }
    }

    /// Whether no axis is padded.
    pub fn is_noop(&self) -> (r: bool)
        ensures
            r == (forall|i: int|
                0 <= i < self.pads.len() ==> (#[trigger] self.pads[i]).0 == 0 && self.pads[i].1
                    == 0),
    {
        let mut i: usize = 0;
        while i < self.pads.len()
            invariant
                0 <= i <= self.pads.len(),
                forall|j: int| 0 <= j < i ==> (#[trigger] self.pads[j]).0 == 0 && self.pads[j].1 == 0,
            decreases self.pads.len() - i,
        {
            if self.pads[i].0 != 0 || self.pads[i].1 != 0 {
                return false;
            }
            i += 1;
        }
        true
    }

    /// Whether `out` is what is known of the padded tensor, `input` being
    /// known of the tensor: each padded axis is longer by its padding.
    pub open spec fn typed(&self, input: &TypedFact, out: &TypedFact) -> bool {
        &&& out.datum_type == input.datum_type
        &&& out.shape.len() == input.shape.len()
        &&& out.konst.is_none()
        &&& forall|i: int|
            0 <= i < self.pads.len() && i < out.shape.len() ==> (#[trigger] out.shape[i])@
                == input.shape[i]@.plus(Expr::Val(self.pads[i].0 as int)).reduced().plus(
                Expr::Val(self.pads[i].1 as int),
            ).reduced()
        &&& forall|i: int|
            self.pads.len() <= i < out.shape.len() ==> (#[trigger] out.shape[i])@
                == input.shape[i]@
    }

    /// Why nothing can be said of the padded tensor, if nothing can: an
    /// axis that is padded is none of the tensor, or a padding leaves the
    /// `i32` range.
    pub open spec fn typed_refusal(&self, input: &TypedFact) -> Option<OpError> {
        if self.pads.len() > input.shape.len() {
            Some(OpError::NoSuchAxis(input.shape.len()))
        } else if exists|i: int|
            0 <= i < self.pads.len() && ((#[trigger] self.pads[i]).0 > i32::MAX || self.pads[i].1
                > i32::MAX) {
            Some(OpError::Overflow)
        } else {
            None
        }
    }

    /// What is known of the padded tensor.
    pub fn output_facts(&self, input: &TypedFact) -> (r: Result<TypedFact, OpError>)
        ensures
            match r {
                Ok(f) => self.typed(input, &f) && self.typed_refusal(input).is_none(),
                Err(e) => self.typed_refusal(input) == Some(e),
            },
    {
        if self.pads.len() > input.shape.len() {
            return Err(OpError::NoSuchAxis(input.shape.len()));
        }
        let mut shape: Vec<TDim> = Vec::new();
        let mut i: usize = 0;
        while i < input.shape.len()
            invariant
                0 <= i <= input.shape.len(),
                self.pads.len() <= input.shape.len(),
                shape.len() == i,
                forall|j: int|
                    0 <= j < i && j < self.pads.len() ==> (#[trigger] self.pads[j]).0 <= i32::MAX
                        && self.pads[j].1 <= i32::MAX,
                forall|j: int|
                    0 <= j < i && j < self.pads.len() ==> (#[trigger] shape[j])@
                        == input.shape[j]@.plus(Expr::Val(self.pads[j].0 as int)).reduced().plus(
                        Expr::Val(self.pads[j].1 as int),
                    ).reduced(),
                forall|j: int|
                    self.pads.len() <= j < i ==> (#[trigger] shape[j])@ == input.shape[j]@,
            decreases input.shape.len() - i,
        {
            if i < self.pads.len() {
                let (b, e) = self.pads[i];
                if b > 0x7fff_ffff || e > 0x7fff_ffff {
                    return Err(OpError::Overflow);
                }
                let d = input.shape[i].duplicate().plus(TDim::Val(b as i32)).plus(
                    TDim::Val(e as i32),
                );
                shape.push(d);
            } else {
                shape.push(input.shape[i].duplicate());
            }
            i += 1;
        }
        Ok(TypedFact { datum_type: input.datum_type, shape, konst: None })
    }

    /// How the padding goes onto a stream of which `fact` is known. Only
    /// the streaming axis of a stream can be padded. Padding with the edge
    /// value needs a pulse bigger than the padding before the data, and
    /// padding by reflection cannot be done. The delays and the paddings
    /// have to stay within the `i32` range.
    pub fn pulse_plan(&self, fact: &PulsedFact) -> (r: Result<PadPulse, OpError>)
        ensures
            r is Ok <==> self.pulse_check(fact) is Ok,
            match r {
                Ok(plan) => {
                    let before = self.pads[fact.axis as int].0;
                    let after = self.pads[fact.axis as int].1;
                    let pulse = fact.shape[fact.axis as int];
                    &&& plan.extra_delay == extra_delay_spec(
                        before as int,
                        fact.delay as int,
                        pulse as int,
                        self.mode is Edge,
                    )
                    &&& plan.op.axis == fact.axis
                    &&& plan.op.pulse == pulse
                    &&& plan.op.before == before
                    &&& plan.op.after == after
                    &&& plan.op.begin_input == fact.delay + plan.extra_delay
                    &&& plan.op.end_input@ == Expr::Val(fact.delay as int).plus(
                        Expr::Val(plan.extra_delay as int),
                    ).reduced().plus(fact.dim@).reduced()
                    &&& plan.op.mode.same(&self.mode)
                },
                Err(e) => self.pulse_check(fact) == Err::<(), OpError>(e),
            },
    {
        let mut i: usize = 0;
        while i < self.pads.len()
            invariant
                0 <= i <= self.pads.len(),
                first_off_stream(self.pads@, fact.axis as int, 0) == first_off_stream(
                    self.pads@,
                    fact.axis as int,
                    i as int,
                ),
            decreases self.pads.len() - i,
        {
            if i != fact.axis && (self.pads[i].0 != 0 || self.pads[i].1 != 0) {
                return Err(OpError::PadOffStream(i));
            }
            i += 1;
        }
        if fact.axis >= self.pads.len() || fact.axis >= fact.shape.len() {
            return Err(OpError::NoSuchAxis(fact.axis));
        }
        let (before, after) = self.pads[fact.axis];
        let pulse = fact.pulse();
        let mut extra_delay: usize = if before > fact.delay {
            before - fact.delay
        } else {
            0
        };
        match &self.mode {
            PadMode::Constant(_) => {},
            PadMode::Edge => {
                if before < pulse {
                    if fact.delay > usize::MAX - extra_delay {
                        return Err(OpError::Overflow);
                    }
                    let start_offset = (fact.delay + extra_delay) % pulse;
                    if before > start_offset {
                        if extra_delay > usize::MAX - (before - start_offset) {
                            return Err(OpError::Overflow);
                        }
                        extra_delay = extra_delay + (before - start_offset);
                    }
                } else {
                    return Err(OpError::PadEdgePulse { pulse, padding: before });
                }
            },
            PadMode::Reflect => {
                return Err(OpError::PadReflect);
            },
        }
        if fact.delay > 0x7fff_ffff || extra_delay > 0x7fff_ffff || before > 0x7fff_ffff || after
            > 0x7fff_ffff - before {
            return Err(OpError::Overflow);
        }
        let end_input = TDim::Val(fact.delay as i32).plus(TDim::Val(extra_delay as i32)).plus(
            fact.dim.duplicate(),
        );
        Ok(
            PadPulse {
                extra_delay,
                op: PulsePad {
                    axis: fact.axis,
                    pulse,
                    before,
                    after,
                    begin_input: fact.delay + extra_delay,
                    end_input,
                    mode: self.mode.duplicate(),
                },
            },
        )
    }

    /// Whether the padding goes onto a stream of which `fact` is known, and
    /// why not.
    pub open spec fn pulse_check(&self, fact: &PulsedFact) -> Result<(), OpError> {
        if let Some(axis) = first_off_stream(self.pads@, fact.axis as int, 0) {
            Err(OpError::PadOffStream(axis))
        } else if fact.axis >= self.pads.len() || fact.axis >= fact.shape.len() {
            Err(OpError::NoSuchAxis(fact.axis))
        } else {
            let before = self.pads[fact.axis as int].0;
            let pulse = fact.shape[fact.axis as int];
            let extra = extra_delay_spec(
                before as int,
                fact.delay as int,
                pulse as int,
                self.mode is Edge,
            );
            if self.mode is Reflect {
                Err(OpError::PadReflect)
            } else if self.mode is Edge && before >= pulse {
                Err(OpError::PadEdgePulse { pulse, padding: before })
            } else if fact.delay > i32::MAX || extra > i32::MAX || before
                + self.pads[fact.axis as int].1 > i32::MAX {
                Err(OpError::Overflow)
            } else {
                Ok(())
            }
        }
    }
}

impl PulsePad {
    pub open spec fn same(&self, other: &PulsePad) -> bool {
        &&& self.axis == other.axis
        &&& self.pulse == other.pulse
        &&& self.before == other.before
        &&& self.after == other.after
        &&& self.begin_input == other.begin_input
        &&& self.end_input@ == other.end_input@
        &&& self.mode.same(&other.mode)
    }

    pub fn duplicate(&self) -> (r: PulsePad)
        ensures
            r.same(self),
            self.same(&r),
    {
        PulsePad {
            axis: self.axis,
            pulse: self.pulse,
            before: self.before,
            after: self.after,
            begin_input: self.begin_input,
            end_input: self.end_input.duplicate(),
            mode: self.mode.duplicate(),
        }
    }

    /// Whether `out` is what is known of the padded stream, `input` being
    /// known of the stream: it is longer by the padding, and lags less by
    /// the padding before the data.
    pub open spec fn pulsed(&self, input: &PulsedFact, out: &PulsedFact) -> bool {
        &&& out.datum_type == input.datum_type
        &&& out.shape@ == input.shape@
        &&& out.axis == input.axis
        &&& out.delay == input.delay - self.before
        &&& out.dim@ == input.dim@.plus(Expr::Val(self.before + self.after)).reduced()
    }

    /// Why nothing can be said of the padded stream, if nothing can: the
    /// padding leaves the `i32` range, or the stream lags less than the
    /// padding before the data.
    pub open spec fn pulsed_refusal(&self, input: &PulsedFact) -> Option<OpError> {
        if self.before + self.after > i32::MAX {
            Some(OpError::Overflow)
        } else if self.before > input.delay {
            Some(OpError::DelayUnderflow { delay: input.delay, needed: self.before })
        } else {
            None
        }
    }

    /// What is known of the padded stream.
    pub fn pulsed_output_facts(&self, input: &PulsedFact) -> (r: Result<PulsedFact, OpError>)
        ensures
            match r {
                Ok(f) => self.pulsed(input, &f) && self.pulsed_refusal(input).is_none(),
                Err(e) => self.pulsed_refusal(input) == Some(e),
            },
    {
        if self.before > 0x7fff_ffff || self.after > 0x7fff_ffff - self.before {
            return Err(OpError::Overflow);
        }
        if self.before > input.delay {
            return Err(OpError::DelayUnderflow { delay: input.delay, needed: self.before });
        }
        Ok(
            PulsedFact {
                datum_type: input.datum_type,
                shape: copied(&input.shape),
                axis: input.axis,
                dim: input.dim.duplicate().plus(TDim::Val((self.before + self.after) as i32)),
                delay: input.delay - self.before,
            },
        )
    }
}

/// The delay that a padding asks for makes room for the padding before the
/// data: the stream then lags by no less than that padding.
pub proof fn lemma_extra_delay_covers(before: int, delay: int, pulse: int, edge: bool)
    requires
        0 <= before,
        0 <= delay,
        0 < pulse,
    ensures
        extra_delay_spec(before, delay, pulse, edge) >= 0,
        delay + extra_delay_spec(before, delay, pulse, edge) >= before,
        edge && before < pulse ==> (delay + extra_delay_spec(before, delay, pulse, edge)) % pulse
            >= before || (delay + extra_delay_spec(before, delay, pulse, edge)) % pulse == before
            % pulse,
{
    let lack = if before > delay {
        before - delay
    } else {
        0
    };
    if edge && before < pulse {
        let offset = (delay + lack) % pulse;
        vstd::arithmetic::div_mod::lemma_mod_bound(delay + lack, pulse);
        if before > offset {
            let total = delay + lack + before - offset;
            vstd::arithmetic::div_mod::lemma_fundamental_div_mod(delay + lack, pulse);
            let q = (delay + lack) / pulse;
            assert(total == pulse * q + before);
            vstd::arithmetic::div_mod::lemma_fundamental_div_mod_converse_mod(
                total,
                pulse,
                q,
                before,
            );
            vstd::arithmetic::div_mod::lemma_small_mod(before as nat, pulse as nat);
        }
    }
}

/// What a padding of a stream holds between two pulses: where in the
/// stream of pulses the next one begins, and the last element of the input
/// that it has seen.
pub struct PulsePadOpState {
    pub current_pos: usize,
    pub last_valid_frame: Option<i64>,
}

/// The smaller of `a` and `b`.
pub open spec fn least(a: int, b: int) -> int {
    if a <= b {
        a
    } else {
        b
    }
}

impl PulsePad {
    /// The value that a constant padding fills with: the first datum of its
    /// tensor, or zero.
    pub open spec fn constant(&self) -> i64 {
        match self.mode {
            PadMode::Constant(t) => if t.data.len() > 0 {
                t.data[0]
            } else {
                0
            },
            _ => 0,
        }
    }

    /// Whether the pulse that begins at `pos` is handed on as it is: it
    /// lies within the input, or before the padding, or after it.
    pub open spec fn forwards(&self, pos: int, end_input: int) -> bool {
        ||| (pos >= self.begin_input && pos + self.pulse <= end_input)
        ||| (self.begin_input >= self.before && pos + self.pulse <= self.begin_input - self.before)
        ||| pos >= end_input + self.after
    }

    /// How many elements at the start of the pulse that begins at `pos`
    /// come before the input.
    pub open spec fn fill_up_to(&self, pos: int) -> int {
        if pos < self.begin_input {
            least(self.begin_input - pos, self.pulse as int)
        } else {
            0
        }
    }

    /// From which element on the pulse that begins at `pos` comes after the
    /// input, where there is padding after it.
    pub open spec fn fill_from(&self, pos: int, end_input: int) -> int {
        if pos + self.pulse > end_input && self.after > 0 {
            self.pulse - least(pos + self.pulse - end_input, self.pulse as int)
        } else {
            self.pulse as int
        }
    }

    /// The last element of the input that a padding with the edge value has
    /// seen once the pulse `input` that begins at `pos` has come.
    pub open spec fn seen(&self, pos: int, end_input: int, input: Seq<i64>, last: Option<i64>) -> Option<
        i64,
    > {
        if self.mode is Edge && self.after > 0 && pos < end_input && self.pulse > 0 && end_input
            > pos {
            Some(input[least(end_input - pos, self.pulse as int) - 1])
        } else {
            last
        }
    }

    /// The `j`-th element that the padding hands on for the pulse `input`
    /// that begins at `pos`: the element of the input, or before the
    /// input and after it what the padding fills with.
    pub open spec fn emitted(
        &self,
        pos: int,
        end_input: int,
        input: Seq<i64>,
        last: Option<i64>,
        j: int,
    ) -> i64 {
        let up_to = self.fill_up_to(pos);
        let from = self.fill_from(pos, end_input);
        let left = if j < up_to {
            match self.mode {
                PadMode::Constant(_) => self.constant(),
                PadMode::Edge => if up_to < self.pulse {
                    input[up_to]
                } else {
                    input[j]
                },
                PadMode::Reflect => input[j],
            }
        } else {
            input[j]
        };
        if self.forwards(pos, end_input) {
            input[j]
        } else if j >= from {
            match self.mode {
                PadMode::Constant(_) => self.constant(),
                PadMode::Edge => match self.seen(pos, end_input, input, last) {
                    Some(l) => l,
                    None => left,
                },
                PadMode::Reflect => left,
            }
        } else {
            left
        }
    }

    /// Where the input ends in the stream of pulses, for a stream of
    /// `known` elements: never, as long as the length is not known.
    pub open spec fn end_spec(&self, known: Option<usize>) -> int {
        match known {
            Some(s) => if s <= i32::MAX {
                match self.end_input@.eval(map!['S' => s as int]) {
                    Ok(v) => if v >= 0 {
                        v
                    } else {
                        usize::MAX as int
                    },
                    Err(_) => usize::MAX as int,
                }
            } else {
                usize::MAX as int
            },
            None => usize::MAX as int,
        }
    }

    /// Where the input ends in the stream of pulses, for a stream of
    /// `known_stream_len` elements.
    pub fn end_of_input(&self, known_stream_len: Option<usize>) -> (r: usize)
        ensures
            r == self.end_spec(known_stream_len),
    {
        match known_stream_len {
            Some(s) => {
                if s > 0x7fff_ffff {
                    return usize::MAX;
                }
                match self.end_input.eval(s as i32) {
                    Some(v) => if v >= 0 {
                        v as usize
                    } else {
                        usize::MAX
                    },
                    None => usize::MAX,
                }
            },
            None => usize::MAX,
        }
    }
}

impl PulsePadOpState {
    /// The state before the first pulse.
    pub fn new() -> (r: PulsePadOpState)
        ensures
            r.current_pos == 0,
            r.last_valid_frame.is_none(),
    {
        PulsePadOpState { current_pos: 0, last_valid_frame: None }
    }

    /// Takes the pulse `input` along the axis of the stream and hands on
    /// the padded pulse, for an input that ends at `end_input` in the
    /// stream of pulses.
    pub fn eval(&mut self, op: &PulsePad, end_input: usize, input: &Vec<i64>) -> (output: Vec<i64>)
        requires
            input.len() == op.pulse,
            old(self).current_pos + op.pulse <= usize::MAX,
        ensures
            final(self).current_pos == old(self).current_pos + op.pulse,
            final(self).last_valid_frame == op.seen(
                old(self).current_pos as int,
                end_input as int,
                input@,
                old(self).last_valid_frame,
            ),
            output.len() == op.pulse,
            forall|j: int|
                0 <= j < op.pulse ==> #[trigger] output[j] == op.emitted(
                    old(self).current_pos as int,
                    end_input as int,
                    input@,
                    old(self).last_valid_frame,
                    j,
                ),
    {
        let pos = self.current_pos;
        let pulse = op.pulse;
        let pulse_end = pos + pulse;
        self.current_pos = pulse_end;
        let edge = match op.mode {
            PadMode::Edge => true,
            _ => false,
        };
        if edge && op.after > 0 && pos < end_input && pulse > 0 {
            let room = end_input - pos;
            let latest = if room < pulse {
                room - 1
            } else {
                pulse - 1
            };
            self.last_valid_frame = Some(input[latest]);
        }
        let constant: i64 = match &op.mode {
            PadMode::Constant(t) => if t.data.len() > 0 {
                t.data[0]
            } else {
                0
            },
            _ => 0,
        };
        let forwards = (pos >= op.begin_input && pulse_end <= end_input) || (op.begin_input
            >= op.before && pulse_end <= op.begin_input - op.before) || (op.after <= usize::MAX
            - end_input && pos >= end_input + op.after);
        let up_to: usize = if pos < op.begin_input {
            if op.begin_input - pos < pulse {
                op.begin_input - pos
            } else {
                pulse
            }
        } else {
            0
        };
        let from: usize = if pulse_end > end_input && op.after > 0 {
            if pulse_end - end_input < pulse {
                pulse - (pulse_end - end_input)
            } else {
                0
            }
        } else {
            pulse
        };
        let mut output: Vec<i64> = Vec::new();
        let mut j: usize = 0;
        while j < pulse
            invariant
                0 <= j <= pulse,
                pulse == op.pulse,
                input.len() == pulse,
                pos == old(self).current_pos,
                pos + pulse <= usize::MAX,
                constant == op.constant(),
                edge == (op.mode is Edge),
                forwards == op.forwards(pos as int, end_input as int),
                up_to == op.fill_up_to(pos as int),
                from == op.fill_from(pos as int, end_input as int),
                self.last_valid_frame == op.seen(
                    pos as int,
                    end_input as int,
                    input@,
                    old(self).last_valid_frame,
                ),
                output.len() == j,
                forall|k: int|
                    0 <= k < j ==> #[trigger] output[k] == op.emitted(
                        pos as int,
                        end_input as int,
                        input@,
                        old(self).last_valid_frame,
                        k,
                    ),
            decreases pulse - j,
        {
            let left = if j < up_to {
                match &op.mode {
                    PadMode::Constant(_) => constant,
                    PadMode::Edge => if up_to < pulse {
                        input[up_to]
                    } else {
                        input[j]
                    },
                    PadMode::Reflect => input[j],
                }
            } else {
                input[j]
            };
            let x = if forwards {
                input[j]
            } else if j >= from {
                match &op.mode {
                    PadMode::Constant(_) => constant,
                    PadMode::Edge => match self.last_valid_frame {
                        Some(l) => l,
                        None => left,
                    },
                    PadMode::Reflect => left,
                }
            } else {
                left
            };
            output.push(x);
            j += 1;
        }
        output
    }
}

} // verus!
