//! A stream in pulses against the whole tensor: what an operator hands on
//! pulse by pulse is what it computes of the whole tensor, later by the
//! delay that is declared for it.

use vstd::prelude::*;
use vstd::arithmetic::div_mod::{
    lemma_fundamental_div_mod, lemma_fundamental_div_mod_converse, lemma_mod_bound,
};
use crate::error::OpError;
use crate::ops::declutter::number;
use crate::ops::delay::{Delay, flat, lemma_delay_window, lemma_flat, run_buffer, stream_at};
use crate::ops::downsample::{Downsample, sampled};
use crate::ops::eval::{lemma_sampled_count, padded_at, sampled_len};
use crate::ops::op::Op;
use crate::ops::pad::{Pad, PulsePad};
use crate::ops::slice::{PulsedAxisSlice, Slice};
use crate::plan::Held;

verus! {

/// The element at the place `i` of the stream that pulses of `p` elements
/// each make.
pub open spec fn stream(pulses: Seq<Seq<i64>>, p: int, i: int) -> i64 {
    pulses[i / p][i % p]
}

/// Whether the pulses, of `p` elements each, make a stream that holds
/// `data` from the place `delay` on, as far as the pulses go.
pub open spec fn carries(pulses: Seq<Seq<i64>>, p: int, delay: int, data: Seq<i64>) -> bool {
    &&& p > 0
    &&& delay >= 0
    &&& forall|k: int| 0 <= k < pulses.len() ==> (#[trigger] pulses[k]).len() == p
    &&& forall|t: int|
        0 <= t < data.len() && delay + t < pulses.len() * p ==> #[trigger] data[t] == stream(
            pulses,
            p,
            delay + t,
        )
}

/// What a node with the operator `op` holds after the first `k` of
/// `pulses`, if it held `start` before the first. A pulse on which it
/// fails leaves what it holds.
pub open spec fn held_after(
    op: Op,
    start: Held,
    known: Option<usize>,
    pulses: Seq<Seq<i64>>,
    k: int,
) -> Held
    decreases k,
{
    if k <= 0 {
        start
    } else {
        let before = held_after(op, start, known, pulses, k - 1);
        match op.pulse_outcome(before, known, pulses[k - 1]) {
            Ok((_, held)) => held,
            Err(_) => before,
        }
    }
}

/// What a node with the operator `op` hands on for the `k`-th of `pulses`,
/// if it held `start` before the first, or why it hands on nothing.
pub open spec fn handed(
    op: Op,
    start: Held,
    known: Option<usize>,
    pulses: Seq<Seq<i64>>,
    k: int,
) -> Result<Seq<i64>, OpError> {
    match op.pulse_outcome(held_after(op, start, known, pulses, k), known, pulses[k]) {
        Ok((out, _)) => Ok(out),
        Err(e) => Err(e),
    }
}

/// Whether a node with the operator `op` that held `start` before the
/// first of `pulses` hands on the pulses `out`, one for each.
pub open spec fn hands_on(
    op: Op,
    start: Held,
    known: Option<usize>,
    pulses: Seq<Seq<i64>>,
    out: Seq<Seq<i64>>,
) -> bool {
    &&& out.len() == pulses.len()
    &&& forall|k: int|
        0 <= k < pulses.len() ==> handed(op, start, known, pulses, k) == Ok::<Seq<i64>, OpError>(
            #[trigger] out[k],
        )
}

/// The place `i` of a stream in pulses of `p` elements lies in the pulse
/// `i / p`, at the place `i % p` of it.
pub proof fn lemma_place(p: int, n: int, i: int)
    requires
        0 < p,
        0 <= i < n * p,
    ensures
        0 <= i / p < n,
        0 <= i % p < p,
        i == (i / p) * p + i % p,
{
    lemma_fundamental_div_mod(i, p);
    lemma_mod_bound(i, p);
    assert(p * (i / p) == (i / p) * p) by (nonlinear_arith);
    assert(i / p < n) by (nonlinear_arith)
        requires
            i == (i / p) * p + i % p,
            0 <= i % p,
            i < n * p,
            0 < p,
    ;
    assert(0 <= i / p) by (nonlinear_arith)
        requires
            i == (i / p) * p + i % p,
            i % p < p,
            0 <= i,
            0 < p,
    ;
}

/// The place `j` of the pulse `k` is the place `k * p + j` of the stream.
pub proof fn lemma_place_of(p: int, k: int, j: int)
    requires
        0 < p,
        0 <= k,
        0 <= j < p,
    ensures
        (k * p + j) / p == k,
        (k * p + j) % p == j,
        0 <= k * p + j,
{
    lemma_fundamental_div_mod_converse(k * p + j, p, k, j);
    assert(0 <= k * p) by (nonlinear_arith)
        requires
            0 <= k,
            0 < p,
    ;
}

/// The pulses one after the other are the stream.
pub proof fn lemma_flat_stream(pulses: Seq<Seq<i64>>, p: int, n: int, i: int)
    requires
        0 < p,
        0 <= n <= pulses.len(),
        forall|k: int| 0 <= k < pulses.len() ==> (#[trigger] pulses[k]).len() == p,
        0 <= i < n * p,
    ensures
        flat(pulses, n).len() == n * p,
        flat(pulses, n)[i] == stream(pulses, p, i),
    decreases n,
{
    lemma_flat(pulses, p, n, n);
    if n > 0 {
        lemma_flat(pulses, p, n - 1, n);
        assert((n - 1) * p + p == n * p) by (nonlinear_arith);
        if i < (n - 1) * p {
            lemma_flat_stream(pulses, p, n - 1, i);
        } else {
            let j = i - (n - 1) * p;
            lemma_place_of(p, n - 1, j);
        }
    }
}

/// The identity on a stream. Where the stream holds `data` from the place
/// `delay` on, so does what the identity hands on.
pub proof fn lemma_identity_streams(
    known: Option<usize>,
    pulses: Seq<Seq<i64>>,
    p: int,
    delay: int,
    data: Seq<i64>,
)
    requires
        carries(pulses, p, delay, data),
    ensures
        hands_on(Op::Identity, Held::Nothing, known, pulses, pulses),
        Op::Identity.outcome(seq![data]) == Ok::<Seq<i64>, OpError>(data),
{
}

/// The slice of a stream. Where the stream holds `data` from the place
/// `delay` on, the slice of the stream that stands for the slice `s` of a
/// tensor hands the pulses on as they come, and they hold the slice of
/// `data` from the place `delay + skip` on.
pub proof fn lemma_slice_streams(
    s: Slice,
    ps: PulsedAxisSlice,
    known: Option<usize>,
    pulses: Seq<Seq<i64>>,
    p: int,
    delay: int,
    data: Seq<i64>,
)
    requires
        carries(pulses, p, delay, data),
        number(s.start@) == Some(ps.skip as int),
        s.outcome(data).is_ok(),
    ensures
        hands_on(Op::PulsedAxisSlice(ps), Held::Nothing, known, pulses, pulses),
        carries(pulses, p, delay + ps.skip, s.outcome(data).unwrap()),
{
    let out = s.outcome(data).unwrap();
    let from = ps.skip as int;
    assert forall|t: int| 0 <= t < out.len() && delay + from + t < pulses.len() * p implies
        #[trigger] out[t] == stream(pulses, p, delay + from + t) by {
        assert(out[t] == data[from + t]);
    }
}

/// What a delay holds after the first `k` pulses.
pub proof fn lemma_delay_holds(
    d: Delay,
    buffer: Seq<i64>,
    known: Option<usize>,
    pulses: Seq<Seq<i64>>,
    p: int,
    k: int,
)
    requires
        0 <= k <= pulses.len(),
        0 <= p,
        d.overlap + p <= usize::MAX,
        forall|i: int| 0 <= i < pulses.len() ==> (#[trigger] pulses[i]).len() == p,
    ensures
        held_after(Op::Delay(d), Held::Delay(buffer), known, pulses, k) == Held::Delay(
            run_buffer(buffer, pulses, k),
        ),
    decreases k,
{
    if k > 0 {
        lemma_delay_holds(d, buffer, known, pulses, p, k - 1);
        assert(pulses[k - 1].len() == p);
    }
}

/// The delay on a stream. Where the stream holds `data` from the place
/// `delay` on, what a delay by `d.delay` without a look back hands on holds
/// `data` from the place `delay + d.delay` on, whatever the delay held at
/// first.
pub proof fn lemma_delay_streams(
    d: Delay,
    buffer: Seq<i64>,
    known: Option<usize>,
    pulses: Seq<Seq<i64>>,
    out: Seq<Seq<i64>>,
    p: int,
    delay: int,
    data: Seq<i64>,
)
    requires
        carries(pulses, p, delay, data),
        d.overlap == 0,
        buffer.len() == d.delay,
        p <= usize::MAX,
        hands_on(Op::Delay(d), Held::Delay(buffer), known, pulses, out),
    ensures
        carries(out, p, delay + d.delay, data),
{
    assert forall|k: int| 0 <= k < out.len() implies (#[trigger] out[k]).len() == p by {
        lemma_delay_holds(d, buffer, known, pulses, p, k);
        assert(handed(Op::Delay(d), Held::Delay(buffer), known, pulses, k) == Ok::<
            Seq<i64>,
            OpError,
        >(out[k]));
        assert(pulses[k].len() == p);
        lemma_delay_window(buffer, pulses, p, d.delay as int, 0, k, 0);
    }
    assert forall|t: int| 0 <= t < data.len() && delay + d.delay + t < out.len() * p implies
        #[trigger] data[t] == stream(out, p, delay + d.delay + t) by {
        let i = delay + d.delay + t;
        lemma_place(p, out.len() as int, i);
        let k = i / p;
        let j = i % p;
        lemma_delay_holds(d, buffer, known, pulses, p, k);
        assert(handed(Op::Delay(d), Held::Delay(buffer), known, pulses, k) == Ok::<
            Seq<i64>,
            OpError,
        >(out[k]));
        assert(pulses[k].len() == p);
        lemma_delay_window(buffer, pulses, p, d.delay as int, 0, k, j);
        assert(k * p - d.delay + j == delay + t);
        assert(delay + t < pulses.len() * p);
        lemma_flat_stream(pulses, p, pulses.len() as int, delay + t);
        assert(stream_at(buffer, pulses, delay + t) == stream(pulses, p, delay + t));
    }
}

/// The downsampling of a stream. Where the stream holds `data` from the
/// place `delay` on, and the stride divides both the pulse and `delay`,
/// what the downsampling hands on comes in pulses of the `stride`-th part,
/// and holds the downsampled `data` from the place `delay / stride` on.
pub proof fn lemma_downsample_streams(
    d: Downsample,
    known: Option<usize>,
    pulses: Seq<Seq<i64>>,
    out: Seq<Seq<i64>>,
    p: int,
    delay: int,
    data: Seq<i64>,
)
    requires
        carries(pulses, p, delay, data),
        d.axis == 0,
        d.stride > 0,
        d.modulo < d.stride,
        p % (d.stride as int) == 0,
        delay % (d.stride as int) == 0,
        hands_on(Op::Downsample(d), Held::Nothing, known, pulses, out),
    ensures
        d.outcome(data).is_ok(),
        carries(out, p / (d.stride as int), delay / (d.stride as int), d.outcome(data).unwrap()),
{
    let s = d.stride as int;
    let m = d.modulo as int;
    let q = p / s;
    let lag = delay / s;
    let n = pulses.len() as int;
    let whole = d.outcome(data).unwrap();
    lemma_fundamental_div_mod(p, s);
    lemma_fundamental_div_mod(delay, s);
    assert(p == q * s) by (nonlinear_arith)
        requires
            p == s * q + 0,
    ;
    assert(delay == lag * s) by (nonlinear_arith)
        requires
            delay == s * lag + 0,
    ;
    assert(q > 0 && lag >= 0) by (nonlinear_arith)
        requires
            p == q * s,
            delay == lag * s,
            p > 0,
            delay >= 0,
            s > 0,
    ;
    lemma_fundamental_div_mod_converse(p - m + s - 1, s, q, s - 1 - m);
    assert(sampled_len(p, s, m) == q) by {
        assert(m < p) by (nonlinear_arith)
            requires
                p == q * s,
                q > 0,
                0 <= m < s,
        ;
    }
    assert forall|k: int| 0 <= k < out.len() implies (#[trigger] out[k]).len() == q by {
        assert(handed(Op::Downsample(d), Held::Nothing, known, pulses, k) == Ok::<
            Seq<i64>,
            OpError,
        >(out[k]));
        assert(held_after(Op::Downsample(d), Held::Nothing, known, pulses, k) == Held::Nothing) by {
            lemma_stateless(Op::Downsample(d), known, pulses, k);
        }
        assert(pulses[k].len() == p);
    }
    assert forall|t: int| 0 <= t < whole.len() && lag + t < out.len() * q implies #[trigger] whole[t]
        == stream(out, q, lag + t) by {
        let i = lag + t;
        lemma_place(q, n, i);
        let k = i / q;
        let j = i % q;
        assert(handed(Op::Downsample(d), Held::Nothing, known, pulses, k) == Ok::<
            Seq<i64>,
            OpError,
        >(out[k]));
        lemma_stateless(Op::Downsample(d), known, pulses, k);
        assert(pulses[k].len() == p);
        assert(out[k][j] == pulses[k][sampled(s, m, j)]);
        if m < data.len() {
            lemma_sampled_count(data.len() as int, s, m);
        }
        let u = sampled(s, m, t);
        assert(0 <= u < data.len());
        assert(whole[t] == data[u]);
        let inner = j * s + m;
        assert(0 <= inner < p) by (nonlinear_arith)
            requires
                0 <= j < q,
                p == q * s,
                0 <= m < s,
                inner == j * s + m,
        ;
        assert(delay + u == k * p + inner) by (nonlinear_arith)
            requires
                delay == lag * s,
                u == m + t * s,
                lag + t == k * q + j,
                p == q * s,
                inner == j * s + m,
        ;
        lemma_place_of(p, k, inner);
        assert(delay + u < n * p) by (nonlinear_arith)
            requires
                delay + u == k * p + inner,
                inner < p,
                k < n,
                p > 0,
        ;
        assert(sampled(s, m, j) == inner) by (nonlinear_arith)
            requires
                inner == j * s + m,
                sampled(s, m, j) == m + j * s,
        ;
    }
}

/// A node that holds nothing goes on holding nothing.
pub proof fn lemma_stateless(op: Op, known: Option<usize>, pulses: Seq<Seq<i64>>, k: int)
    requires
        op is Downsample || op is Identity || op is PulsedAxisSlice,
    ensures
        held_after(op, Held::Nothing, known, pulses, k) == Held::Nothing,
    decreases k,
{
    if k > 0 {
        lemma_stateless(op, known, pulses, k - 1);
    }
}

/// What a padding with the mode and the paddings of `pad` makes of the
/// whole of `data`.
pub open spec fn padded(pad: PulsePad, data: Seq<i64>) -> Seq<i64> {
    Seq::new(
        (pad.before + data.len() + pad.after) as nat,
        |t: int|
            padded_at(&pad.mode, pad.constant(), data, pad.before as int, pad.after as int, t),
    )
}

/// The padding of a stream pads as the padding `src` of one axis does, if
/// it has its mode and its paddings.
pub proof fn lemma_padded(src: Pad, pad: PulsePad, data: Seq<i64>)
    requires
        src.pads@ == seq![(pad.before, pad.after)],
        src.mode.same(&pad.mode),
        src.outcome(data).is_ok(),
    ensures
        src.outcome(data).unwrap() == padded(pad, data),
{
    assert(src.pads[0] == (pad.before, pad.after));
    assert(src.outcome(data).unwrap() =~= padded(pad, data));
}

/// Whether the padding `pad` of a stream, which holds nothing yet, stands
/// rightly on a stream in pulses of `p` elements that holds `data` from
/// the place where the padding expects its input: it knows where the
/// input ends, the stream lags by the padding before the data at least,
/// and the pulses can be counted. A padding with the edge value needs an
/// element of data, and the padding before the data within the pulse in
/// which the data begin.
pub open spec fn pad_stands(
    pad: PulsePad,
    known: Option<usize>,
    pulses: Seq<Seq<i64>>,
    p: int,
    data: Seq<i64>,
) -> bool {
    &&& carries(pulses, p, pad.begin_input as int, data)
    &&& p == pad.pulse
    &&& pad.before <= pad.begin_input
    &&& pad.end_spec(known) == pad.begin_input + data.len()
    &&& pulses.len() * p <= usize::MAX
    &&& !(pad.mode is Reflect)
    &&& pad.mode is Edge ==> data.len() > 0 && pad.before <= (pad.begin_input as int) % p
}

/// The place in the stream where a padding of the stream stands after the
/// first `k` pulses.
pub proof fn lemma_pad_holds(
    pad: PulsePad,
    known: Option<usize>,
    pulses: Seq<Seq<i64>>,
    p: int,
    k: int,
)
    requires
        0 <= k <= pulses.len(),
        0 < p,
        p == pad.pulse,
        pulses.len() * p <= usize::MAX,
        forall|i: int| 0 <= i < pulses.len() ==> (#[trigger] pulses[i]).len() == p,
    ensures
        held_after(Op::PulsePad(pad), Held::Pad { pos: 0, last: None }, known, pulses, k) matches Held::Pad {
            pos,
            last,
        } && pos == k * p,
        k < pulses.len() ==> Op::PulsePad(pad).pulse_outcome(
            held_after(Op::PulsePad(pad), Held::Pad { pos: 0, last: None }, known, pulses, k),
            known,
            pulses[k],
        ).is_ok(),
    decreases k,
{
    let n = pulses.len() as int;
    if k > 0 {
        lemma_pad_holds(pad, known, pulses, p, k - 1);
        assert(pulses[k - 1].len() == p);
        assert((k - 1) * p + p == k * p) by (nonlinear_arith);
    } else {
        assert(0 * p == 0) by (nonlinear_arith);
    }
    if k < n {
        assert(pulses[k].len() == p);
        assert(k * p + p <= n * p) by (nonlinear_arith)
            requires
                k + 1 <= n,
                0 < p,
        ;
    }
}

/// The last element of the data that a padding with the edge value has
/// seen, once the pulses have gone past the end of the data.
pub proof fn lemma_pad_seen(
    pad: PulsePad,
    known: Option<usize>,
    pulses: Seq<Seq<i64>>,
    p: int,
    data: Seq<i64>,
    k: int,
)
    requires
        pad_stands(pad, known, pulses, p, data),
        pad.mode is Edge,
        pad.after > 0,
        0 <= k <= pulses.len(),
        k * p >= pad.begin_input + data.len(),
    ensures
        held_after(Op::PulsePad(pad), Held::Pad { pos: 0, last: None }, known, pulses, k) matches Held::Pad {
            pos,
            last,
        } && last == Some(data[data.len() - 1]),
    decreases k,
{
    let n = pulses.len() as int;
    let begin = pad.begin_input as int;
    let end = begin + data.len();
    assert(k > 0) by (nonlinear_arith)
        requires
            k * p >= end,
            end > 0,
            k >= 0,
    ;
    lemma_pad_holds(pad, known, pulses, p, k - 1);
    lemma_pad_holds(pad, known, pulses, p, k);
    let pos = (k - 1) * p;
    assert(pos + p == k * p) by (nonlinear_arith)
        requires
            pos == (k - 1) * p,
    ;
    assert(0 <= pos) by (nonlinear_arith)
        requires
            pos == (k - 1) * p,
            k >= 1,
            p > 0,
    ;
    assert(pulses[k - 1].len() == p);
    if pos >= end {
        lemma_pad_seen(pad, known, pulses, p, data, k - 1);
    } else {
        let j = end - 1 - pos;
        lemma_place_of(p, k - 1, j);
        assert(k * p <= n * p) by (nonlinear_arith)
            requires
                k <= n,
                p > 0,
        ;
        let t = data.len() - 1;
        assert(data[t] == stream(pulses, p, begin + t));
        assert(begin + t == (k - 1) * p + j);
    }
}

/// The padding of a stream, place by place: what it hands on at the place
/// `j` of the pulse `k` is what the padding of the whole of `data` has at
/// the place that lies the padding before the data earlier than where the
/// data begin in the stream.
pub proof fn lemma_pad_place(
    pad: PulsePad,
    known: Option<usize>,
    pulses: Seq<Seq<i64>>,
    p: int,
    data: Seq<i64>,
    k: int,
    j: int,
)
    requires
        pad_stands(pad, known, pulses, p, data),
        0 <= k < pulses.len(),
        0 <= j < p,
        0 <= k * p + j - (pad.begin_input - pad.before) < pad.before + data.len() + pad.after,
    ensures
        handed(Op::PulsePad(pad), Held::Pad { pos: 0, last: None }, known, pulses, k).is_ok(),
        handed(Op::PulsePad(pad), Held::Pad { pos: 0, last: None }, known, pulses, k).unwrap().len()
            == p,
        handed(Op::PulsePad(pad), Held::Pad { pos: 0, last: None }, known, pulses, k).unwrap()[j]
            == padded(pad, data)[k * p + j - (pad.begin_input - pad.before)],
{
    let n = pulses.len() as int;
    let begin = pad.begin_input as int;
    let len = data.len() as int;
    let end = begin + len;
    let pos = k * p;
    let i = pos + j;
    let t = i - (begin - pad.before);
    let start = Held::Pad { pos: 0, last: None };
    let held = held_after(Op::PulsePad(pad), start, known, pulses, k);
    lemma_pad_holds(pad, known, pulses, p, k);
    lemma_place_of(p, k, j);
    assert(pulses[k].len() == p);
    let last = held->last;
    let input = pulses[k];
    let got = pad.emitted(pos, end, input, last, j);
    assert(handed(Op::PulsePad(pad), start, known, pulses, k).unwrap()[j] == got);
    assert(pos + p <= n * p) by (nonlinear_arith)
        requires
            pos == k * p,
            k + 1 <= n,
            0 < p,
    ;
    if begin <= i < end {
        assert(data[i - begin] == stream(pulses, p, begin + (i - begin)));
    } else if i < begin {
        if pad.mode is Edge {
            let lead = begin % p;
            lemma_fundamental_div_mod(begin, p);
            lemma_mod_bound(begin, p);
            let first = begin / p;
            assert(p * first == first * p) by (nonlinear_arith);
            lemma_fundamental_div_mod_converse(i, p, first, i - first * p);
            assert(k == first);
            assert(data[0] == stream(pulses, p, begin + 0));
        }
    } else {
        if pad.mode is Edge {
            if pos < end {
                let at = end - 1 - pos;
                lemma_place_of(p, k, at);
                let u = len - 1;
                assert(data[u] == stream(pulses, p, begin + u));
                assert(begin + u == k * p + at);
            } else {
                lemma_pad_seen(pad, known, pulses, p, data, k);
            }
        }
    }
}

/// The padding of a stream. Where the stream holds `data` from the place
/// on where the padding expects them, what the padding hands on holds the
/// padded `data`, earlier by the padding before the data.
pub proof fn lemma_pad_streams(
    pad: PulsePad,
    known: Option<usize>,
    pulses: Seq<Seq<i64>>,
    out: Seq<Seq<i64>>,
    p: int,
    data: Seq<i64>,
)
    requires
        pad_stands(pad, known, pulses, p, data),
        hands_on(Op::PulsePad(pad), Held::Pad { pos: 0, last: None }, known, pulses, out),
    ensures
        carries(out, p, pad.begin_input - pad.before, padded(pad, data)),
{
    let n = pulses.len() as int;
    let lag = pad.begin_input - pad.before;
    let whole = padded(pad, data);
    let start = Held::Pad { pos: 0, last: None };
    assert forall|k: int| 0 <= k < out.len() implies (#[trigger] out[k]).len() == p by {
        lemma_pad_holds(pad, known, pulses, p, k);
        assert(handed(Op::PulsePad(pad), start, known, pulses, k) == Ok::<Seq<i64>, OpError>(
            out[k],
        ));
        assert(pulses[k].len() == p);
    }
    assert forall|t: int| 0 <= t < whole.len() && lag + t < out.len() * p implies #[trigger] whole[t]
        == stream(out, p, lag + t) by {
        let i = lag + t;
        lemma_place(p, n, i);
        let k = i / p;
        let j = i % p;
        assert(handed(Op::PulsePad(pad), start, known, pulses, k) == Ok::<Seq<i64>, OpError>(
            out[k],
        ));
        lemma_pad_place(pad, known, pulses, p, data, k, j);
    }
}

/// A padding that has gone onto a stream, behind its delay. Where the
/// stream holds `data` from the place `delay` on, the delay `d` makes
/// room for the padding `pad`, which expects the data where the delayed
/// stream holds them; and what the padding hands on of what the delay
/// hands on holds the padded `data`, from the place on that lies the
/// padding before the data earlier than where the delayed stream holds
/// the data.
pub proof fn lemma_delayed_pad_streams(
    d: Delay,
    buffer: Seq<i64>,
    pad: PulsePad,
    known: Option<usize>,
    pulses: Seq<Seq<i64>>,
    delayed: Seq<Seq<i64>>,
    out: Seq<Seq<i64>>,
    p: int,
    delay: int,
    data: Seq<i64>,
)
    requires
        carries(pulses, p, delay, data),
        d.overlap == 0,
        buffer.len() == d.delay,
        pad.begin_input == delay + d.delay,
        p == pad.pulse,
        pad.before <= pad.begin_input,
        pad.end_spec(known) == pad.begin_input + data.len(),
        pulses.len() * p <= usize::MAX,
        !(pad.mode is Reflect),
        pad.mode is Edge ==> data.len() > 0 && pad.before <= (pad.begin_input as int) % p,
        hands_on(Op::Delay(d), Held::Delay(buffer), known, pulses, delayed),
        hands_on(Op::PulsePad(pad), Held::Pad { pos: 0, last: None }, known, delayed, out),
    ensures
        carries(out, p, delay + d.delay - pad.before, padded(pad, data)),
{
    lemma_delay_streams(d, buffer, known, pulses, delayed, p, delay, data);
    assert(pad_stands(pad, known, delayed, p, data));
    lemma_pad_streams(pad, known, delayed, out, p, data);
}

} // verus!
