//! The delay: the operator that holds back a stream, and hands it on with
//! a look back.

use vstd::prelude::*;
use crate::datum::DatumType;
use crate::dim::tree::{TDim, Expr};
use crate::error::OpError;
use crate::facts::{PulsedFact, TypedFact};
use crate::tensor::copied;

verus! {

/// A delay along the axis of a stream: it hands on each pulse `delay`
/// elements late, preceded by the `overlap` elements that came before.
#[derive(Debug, PartialEq, Eq)]
pub struct Delay {
    pub datum_type: DatumType,
    pub buffer_shape: Vec<usize>,
    pub axis: usize,
    pub delay: usize,
    pub overlap: usize,
}

impl Delay {
    pub open spec fn same(&self, other: &Delay) -> bool {
        &&& self.datum_type == other.datum_type
        &&& self.buffer_shape@ == other.buffer_shape@
        &&& self.axis == other.axis
        &&& self.delay == other.delay
        &&& self.overlap == other.overlap
    }

    /// The delay by `delay` with a look back of `overlap` on a stream of
    /// which `input_fact` is known. It holds `delay + overlap` elements
    /// along the axis.
    pub fn new(input_fact: &PulsedFact, delay: usize, overlap: usize) -> (r: Result<Delay, OpError>)
        ensures
            match r {
                Ok(d) => {
                    &&& input_fact.axis < input_fact.shape.len()
                    &&& delay + overlap <= usize::MAX
                    &&& d.datum_type == input_fact.datum_type
                    &&& d.buffer_shape@ == input_fact.shape@.update(
                        input_fact.axis as int,
                        (delay + overlap) as usize,
                    )
                    &&& d.axis == input_fact.axis
                    &&& d.delay == delay
                    &&& d.overlap == overlap
                },
                Err(e) => if input_fact.axis >= input_fact.shape.len() {
                    e == OpError::NoSuchAxis(input_fact.axis)
                } else {
                    delay + overlap > usize::MAX && e == OpError::Overflow
                },
            },
    {
        if input_fact.axis >= input_fact.shape.len() {
            return Err(OpError::NoSuchAxis(input_fact.axis));
        }
        if overlap > usize::MAX - delay {
            return Err(OpError::Overflow);
        }
        let mut buffer_shape = copied(&input_fact.shape);
        buffer_shape.set(input_fact.axis, delay + overlap);
        Ok(
            Delay {
                datum_type: input_fact.datum_type,
                buffer_shape,
                axis: input_fact.axis,
                delay,
                overlap,
            },
        )
    }

    pub fn duplicate(&self) -> (r: Delay)
        ensures
            r.same(self),
            self.same(&r),
    {
        Delay {
            datum_type: self.datum_type,
            buffer_shape: copied(&self.buffer_shape),
            axis: self.axis,
            delay: self.delay,
            overlap: self.overlap,
        }
    }

    /// Whether `out` is what is known of the tensor that one pulse gives,
    /// `input` being known of the pulse: along the axis it is longer by
    /// the look back.
    pub open spec fn typed(&self, input: &TypedFact, out: &TypedFact) -> bool {
        &&& out.datum_type == input.datum_type
        &&& out.shape.len() == input.shape.len()
        &&& out.konst.is_none()
        &&& forall|i: int|
            0 <= i < out.shape.len() ==> (#[trigger] out.shape[i])@ == (if i == self.axis {
                input.shape[i]@.plus(Expr::Val(self.overlap as int)).reduced()
            } else {
                input.shape[i]@
            })
    }

    /// Why nothing can be said of the tensor that one pulse gives, if
    /// nothing can: the pulse has not the axis, or the look back leaves the
    /// `i32` range.
    pub open spec fn typed_refusal(&self, input: &TypedFact) -> Option<OpError> {
        if self.axis >= input.shape.len() {
            Some(OpError::NoSuchAxis(self.axis))
        } else if self.overlap > i32::MAX {
            Some(OpError::Overflow)
        } else {
            None
        }
    }

    /// What is known of the tensor that one pulse gives.
    pub fn output_facts(&self, input: &TypedFact) -> (r: Result<TypedFact, OpError>)
        ensures
            match r {
                Ok(f) => self.typed(input, &f) && self.typed_refusal(input).is_none(),
                Err(e) => self.typed_refusal(input) == Some(e),
            },
    {
        if self.axis >= input.shape.len() {
            return Err(OpError::NoSuchAxis(self.axis));
        }
        if self.overlap > 0x7fff_ffff {
            return Err(OpError::Overflow);
        }
        let mut shape: Vec<TDim> = Vec::new();
        let mut i: usize = 0;
        while i < input.shape.len()
            invariant
                0 <= i <= input.shape.len(),
                self.overlap <= i32::MAX,
                shape.len() == i,
                forall|j: int|
                    0 <= j < i ==> (#[trigger] shape[j])@ == (if j == self.axis {
                        input.shape[j]@.plus(Expr::Val(self.overlap as int)).reduced()
                    } else {
                        input.shape[j]@
                    }),
            decreases input.shape.len() - i,
        {
            if i == self.axis {
                shape.push(input.shape[i].duplicate().plus(TDim::Val(self.overlap as i32)));
            } else {
                shape.push(input.shape[i].duplicate());
            }
            i += 1;
        }
        Ok(TypedFact { datum_type: input.datum_type, shape, konst: None })
    }

    /// Whether `out` is what is known of the delayed stream, `input` being
    /// known of the stream: a pulse is longer by the look back, and the
    /// stream lags by the delay and the look back more.
    pub open spec fn pulsed(&self, input: &PulsedFact, out: &PulsedFact) -> bool {
        &&& out.datum_type == input.datum_type
        &&& out.shape@ == input.shape@.update(
            self.axis as int,
            (input.shape[self.axis as int] + self.overlap) as usize,
        )
        &&& out.axis == input.axis
        &&& out.delay == input.delay + self.delay + self.overlap
        &&& out.dim@ == input.dim@
    }

    /// Why nothing can be said of the delayed stream, if nothing can: the
    /// stream has not the axis, or a size leaves its range.
    pub open spec fn pulsed_refusal(&self, input: &PulsedFact) -> Option<OpError> {
        if self.axis >= input.shape.len() {
            Some(OpError::NoSuchAxis(self.axis))
        } else if input.shape[self.axis as int] + self.overlap > usize::MAX || input.delay
            + self.delay + self.overlap > usize::MAX {
            Some(OpError::Overflow)
        } else {
            None
        }
    }

    /// What is known of the delayed stream.
    pub fn pulsed_output_facts(&self, input: &PulsedFact) -> (r: Result<PulsedFact, OpError>)
        ensures
            match r {
                Ok(f) => self.pulsed(input, &f) && self.pulsed_refusal(input).is_none(),
                Err(e) => self.pulsed_refusal(input) == Some(e),
            },
    {
        if self.axis >= input.shape.len() {
            return Err(OpError::NoSuchAxis(self.axis));
        }
        if self.overlap > usize::MAX - input.shape[self.axis] {
            return Err(OpError::Overflow);
        }
        if self.delay > usize::MAX - input.delay || self.overlap > usize::MAX - input.delay
            - self.delay {
            return Err(OpError::Overflow);
        }
        let mut shape = copied(&input.shape);
        shape.set(self.axis, input.shape[self.axis] + self.overlap);
        Ok(
            PulsedFact {
                datum_type: input.datum_type,
                shape,
                axis: input.axis,
                dim: input.dim.duplicate(),
                delay: input.delay + self.delay + self.overlap,
            },
        )
    }
}

/// What a delay holds between two pulses of a stream along its first axis:
/// the last elements that came.
pub struct DelayState<T> {
    pub buffer: Vec<T>,
}

/// What a delay hands on for the pulse `input`, while it holds `buffer`:
/// what it holds and the pulse, less the last `delay` elements.
pub open spec fn delay_output<T>(buffer: Seq<T>, input: Seq<T>, delay: int) -> Seq<T> {
    (buffer + input).take(buffer.len() + input.len() - delay)
}

/// What a delay holds after the pulse `input`, while it held `buffer`: as
/// many elements as before, the last of what it held and the pulse.
pub open spec fn delay_buffer<T>(buffer: Seq<T>, input: Seq<T>) -> Seq<T> {
    (buffer + input).skip(input.len() as int)
}

impl<T: Copy> DelayState<T> {
    /// The state of the delay `op` before the first pulse: it holds
    /// `fill`, as often as it holds elements.
    pub fn new(op: &Delay, fill: T) -> (r: Option<DelayState<T>>)
        ensures
            match r {
                Some(s) => op.delay + op.overlap <= usize::MAX && s.buffer@ == Seq::new(
                    (op.delay + op.overlap) as nat,
                    |i: int| fill,
                ),
                None => op.delay + op.overlap > usize::MAX,
            },
    {
        if op.overlap > usize::MAX - op.delay {
            return None;
        }
        let n = op.delay + op.overlap;
        let mut buffer: Vec<T> = Vec::new();
        let mut i: usize = 0;
        while i < n
            invariant
                0 <= i <= n,
                buffer@ == Seq::new(i as nat, |k: int| fill),
            decreases n - i,
        {
            buffer.push(fill);
            assert(buffer@ =~= Seq::new((i + 1) as nat, |k: int| fill));
            i += 1;
        }
        Some(DelayState { buffer })
    }

    /// Takes the pulse `input` and hands on the pulse that is due: the
    /// `overlap` elements that came before it, and its elements, all
    /// `delay` elements late.
    pub fn eval(&mut self, op: &Delay, input: &Vec<T>) -> (output: Vec<T>)
        requires
            old(self).buffer.len() == op.delay + op.overlap,
            input.len() + op.overlap <= usize::MAX,
        ensures
            output@ == delay_output(old(self).buffer@, input@, op.delay as int),
            output.len() == input.len() + op.overlap,
            final(self).buffer@ == delay_buffer(old(self).buffer@, input@),
            final(self).buffer.len() == old(self).buffer.len(),
    {
        let buffered = self.buffer.len();
        let input_pulse = input.len();
        let output_pulse = input_pulse + op.overlap;
        let ghost both = self.buffer@ + input@;
        let mut output: Vec<T> = Vec::new();
        let mut i: usize = 0;
        while i < output_pulse
            invariant
                0 <= i <= output_pulse,
                output_pulse == input_pulse + op.overlap,
                buffered == op.delay + op.overlap,
                buffered == self.buffer.len(),
                input_pulse == input.len(),
                both == self.buffer@ + input@,
                output@ == both.take(i as int),
            decreases output_pulse - i,
        {
            let x = if i < buffered {
                self.buffer[i]
            } else {
                input[i - buffered]
            };
            assert(x == both[i as int]);
            output.push(x);
            assert(output@ =~= both.take(i + 1));
            i += 1;
        }
        let mut kept: Vec<T> = Vec::new();
        let mut j: usize = 0;
        while j < buffered
            invariant
                0 <= j <= buffered,
                buffered == self.buffer.len(),
                input_pulse == input.len(),
                both == self.buffer@ + input@,
                kept@ == both.subrange(input_pulse as int, input_pulse + j),
            decreases buffered - j,
        {
            let x = if input_pulse < buffered - j {
                self.buffer[input_pulse + j]
            } else {
                input[input_pulse - (buffered - j)]
            };
            assert(x == both[input_pulse + j]);
            kept.push(x);
            assert(kept@ =~= both.subrange(input_pulse as int, input_pulse + j + 1));
            j += 1;
        }
        assert(kept@ =~= both.skip(input_pulse as int));
        self.buffer = kept;
        output
    }
}

/// The first `k` pulses, one after the other.
pub open spec fn flat<T>(inputs: Seq<Seq<T>>, k: int) -> Seq<T>
    decreases k,
{
    if k <= 0 {
        Seq::empty()
    } else {
        flat(inputs, k - 1) + inputs[k - 1]
    }
}

/// What a delay that held `start` holds after the first `k` pulses.
pub open spec fn run_buffer<T>(start: Seq<T>, inputs: Seq<Seq<T>>, k: int) -> Seq<T>
    decreases k,
{
    if k <= 0 {
        start
    } else {
        delay_buffer(run_buffer(start, inputs, k - 1), inputs[k - 1])
    }
}

/// The element at the place `i` of the stream that the pulses make, and
/// before its beginning what the delay held at the start: the place `-1`
/// is the last element of `start`.
pub open spec fn stream_at<T>(start: Seq<T>, inputs: Seq<Seq<T>>, i: int) -> T {
    if i < 0 {
        start[start.len() + i]
    } else {
        flat(inputs, inputs.len() as int)[i]
    }
}

/// The first `k` pulses of `p` elements each hold `k * p` elements, and
/// more pulses begin with them.
pub proof fn lemma_flat<T>(inputs: Seq<Seq<T>>, p: int, k: int, n: int)
    requires
        0 <= k <= n <= inputs.len(),
        0 <= p,
        forall|i: int| 0 <= i < inputs.len() ==> (#[trigger] inputs[i]).len() == p,
    ensures
        flat(inputs, k).len() == k * p,
        flat(inputs, n).len() == n * p,
        forall|i: int| 0 <= i < k * p ==> #[trigger] flat(inputs, n)[i] == flat(inputs, k)[i],
    decreases n,
{
    if n > 0 {
        if k < n {
            lemma_flat(inputs, p, k, n - 1);
            assert((n - 1) * p + p == n * p) by (nonlinear_arith);
            assert(k * p <= (n - 1) * p) by (nonlinear_arith)
                requires
                    k <= n - 1,
                    0 <= p,
            ;
            assert forall|i: int| 0 <= i < k * p implies #[trigger] flat(inputs, n)[i] == flat(
                inputs,
                k,
            )[i] by {
                assert(flat(inputs, n)[i] == flat(inputs, n - 1)[i]);
            }
        } else {
            lemma_flat(inputs, p, k - 1, n - 1);
            assert((n - 1) * p + p == n * p) by (nonlinear_arith);
        }
    } else {
        assert(0 * p == 0) by (nonlinear_arith);
    }
}

/// After `k` pulses a delay holds the last elements of what it held at the
/// start followed by the pulses.
pub proof fn lemma_run_buffer<T>(start: Seq<T>, inputs: Seq<Seq<T>>, p: int, k: int)
    requires
        0 <= k <= inputs.len(),
        0 <= p,
        forall|i: int| 0 <= i < inputs.len() ==> (#[trigger] inputs[i]).len() == p,
    ensures
        flat(inputs, k).len() == k * p,
        run_buffer(start, inputs, k) == (start + flat(inputs, k)).skip(k * p),
        run_buffer(start, inputs, k).len() == start.len(),
    decreases k,
{
    lemma_flat(inputs, p, k, k);
    if k > 0 {
        lemma_run_buffer(start, inputs, p, k - 1);
        lemma_flat(inputs, p, k - 1, k);
        assert((k - 1) * p + p == k * p) by (nonlinear_arith);
        let before = run_buffer(start, inputs, k - 1);
        assert(run_buffer(start, inputs, k) =~= (start + flat(inputs, k)).skip(k * p));
    } else {
        assert(0 * p == 0) by (nonlinear_arith);
        assert(run_buffer(start, inputs, k) =~= (start + flat(inputs, k)).skip(k * p));
    }
}

/// What a delay hands on. Of a stream that comes in pulses of `p`
/// elements, a delay by `d` with a look back of `o`, which held `start` at
/// first, hands on for the `k`-th pulse the `p + o` elements of the stream
/// from the place `k * p - d - o` on: its `j`-th element is the one at the
/// place `k * p - d - o + j`.
pub proof fn lemma_delay_window<T>(
    start: Seq<T>,
    inputs: Seq<Seq<T>>,
    p: int,
    d: int,
    o: int,
    k: int,
    j: int,
)
    requires
        0 <= p,
        0 <= d,
        0 <= o,
        start.len() == d + o,
        0 <= k < inputs.len(),
        0 <= j < p + o,
        forall|i: int| 0 <= i < inputs.len() ==> (#[trigger] inputs[i]).len() == p,
    ensures
        delay_output(run_buffer(start, inputs, k), inputs[k], d).len() == p + o,
        delay_output(run_buffer(start, inputs, k), inputs[k], d)[j] == stream_at(
            start,
            inputs,
            k * p - d - o + j,
        ),
{
    lemma_run_buffer(start, inputs, p, k);
    lemma_flat(inputs, p, k, k + 1);
    lemma_flat(inputs, p, k + 1, inputs.len() as int);
    assert(k * p + p == (k + 1) * p) by (nonlinear_arith);
    assert(0 <= k * p) by (nonlinear_arith)
        requires
            0 <= k,
            0 <= p,
    ;
    let buffer = run_buffer(start, inputs, k);
    let both = buffer + inputs[k];
    let i = k * p - d - o + j;
    if i < 0 {
        assert(both[j] == buffer[j]);
        assert(buffer[j] == (start + flat(inputs, k))[k * p + j]);
    } else {
        if j < d + o {
            assert(both[j] == buffer[j]);
            assert(buffer[j] == (start + flat(inputs, k))[k * p + j]);
            assert((start + flat(inputs, k))[k * p + j] == flat(inputs, k)[i]);
            assert(flat(inputs, k + 1)[i] == flat(inputs, k)[i]);
        } else {
            assert(both[j] == inputs[k][j - d - o]);
            assert(flat(inputs, k + 1)[i] == inputs[k][i - k * p]);
        }
        assert(flat(inputs, inputs.len() as int)[i] == flat(inputs, k + 1)[i]);
    }
}

} // verus!
