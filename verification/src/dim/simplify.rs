//! Rewriting a dimension into its reduced form.

use vstd::prelude::*;
use crate::dim::tree::{TDim, Expr, views, compare_spec, lemma_views_len, lemma_views_take, lemma_views_push};

verus! {

/// Whether `x` is an `i32`.
pub open spec fn fits_i32(x: int) -> bool {
    i32::MIN <= x <= i32::MAX
}

/// Whether `x` is a `u32`.
pub open spec fn fits_u32(x: int) -> bool {
    0 <= x <= u32::MAX
}

/// The greatest common divisor of `a` and `b`, by Euclid's rule.
pub open spec fn gcd_spec(a: nat, b: nat) -> nat
    decreases b,
{
    if b == 0 {
        a
    } else {
        gcd_spec(b, a % b)
    }
}

/// `p / g` rounded towards zero, for a positive `g`.
pub open spec fn quot_to_zero(p: int, g: int) -> int {
    if p >= 0 {
        p / g
    } else {
        -((-p) / g)
    }
}

/// A tally of terms: `coefs[i]` times `keys[i]`, for each `i`.
pub struct Tally {
    pub keys: Seq<Expr>,
    pub coefs: Seq<int>,
}

impl Tally {
    pub open spec fn empty() -> Tally {
        Tally { keys: Seq::empty(), coefs: Seq::empty() }
    }

    /// The first entry from `i` on that holds `k` and can take `v` more
    /// within `i32`, or the number of entries where there is none.
    pub open spec fn slot(self, k: Expr, v: int, i: int) -> int
        decreases self.keys.len() - i,
    {
        if i < 0 || i >= self.keys.len() {
            self.keys.len() as int
        } else if self.keys[i] == k && fits_i32(self.coefs[i] + v) {
            i
        } else {
            self.slot(k, v, i + 1)
        }
    }

    /// The tally with `v` times `k` more: added to the first entry of `k`
    /// that can take it, or else as a new last entry.
    pub open spec fn with(self, k: Expr, v: int) -> Tally {
        let i = self.slot(k, v, 0);
        if i < self.keys.len() {
            Tally { keys: self.keys, coefs: self.coefs.update(i, self.coefs[i] + v) }
        } else {
            Tally { keys: self.keys.push(k), coefs: self.coefs.push(v) }
        }
    }

    /// The tally with the reduced term `t` more: a literal counts towards
    /// the key `1`, a multiple towards its operand, anything else is its own
    /// key; zero is dropped.
    pub open spec fn absorb(self, t: Expr) -> Tally {
        match t {
            Expr::Val(v) => if v == 0 {
                self
            } else {
                self.with(Expr::Val(1), v)
            },
            Expr::Mul(v, f) => self.with(*f, v),
            _ => self.with(t, 1),
        }
    }

    /// The tally with each of `ts` absorbed, in order.
    pub open spec fn absorb_all(self, ts: Seq<Expr>) -> Tally
        decreases ts.len(),
    {
        if ts.len() == 0 {
            self
        } else {
            self.absorb_all(ts.drop_last()).absorb(ts.last())
        }
    }

    /// The tally with the reduced term `t` more, a sum counting term by term.
    pub open spec fn gather(self, t: Expr) -> Tally {
        match t {
            Expr::Add(items) => self.absorb_all(items),
            _ => self.absorb(t),
        }
    }

    /// The terms that the first `n` entries stand for, in order: none for a
    /// coefficient of zero, a literal for the key `1`, the key itself for a
    /// coefficient of one, and a multiple otherwise.
    pub open spec fn members(self, n: int) -> Seq<Expr>
        decreases n,
    {
        if n <= 0 {
            Seq::empty()
        } else {
            let m = self.members(n - 1);
            let k = self.keys[n - 1];
            let v = self.coefs[n - 1];
            if v == 0 {
                m
            } else if k == Expr::Val(1) {
                m.push(Expr::Val(v))
            } else if v == 1 {
                m.push(k)
            } else {
                m.push(Expr::Mul(v, Box::new(k)))
            }
        }
    }

    /// The sum that the tally stands for: its members in order; `0` where
    /// there is none, the member itself where there is one.
    pub open spec fn total(self) -> Expr {
        let ms = sorted(self.members(self.keys.len() as int));
        if ms.len() == 0 {
            Expr::Val(0)
        } else if ms.len() == 1 {
            ms[0]
        } else {
            Expr::Add(ms)
        }
    }
}

/// Where `x` goes into the ordered `s`: before the first term from `i` on
/// that comes after it.
pub open spec fn place(s: Seq<Expr>, x: Expr, i: int) -> int
    decreases s.len() - i,
{
    if i < 0 || i >= s.len() {
        s.len() as int
    } else if compare_spec(s[i], x) > 0 {
        i
    } else {
        place(s, x, i + 1)
    }
}

/// The terms of `ts` in ascending order, equal terms in the order they came.
pub open spec fn sorted(ts: Seq<Expr>) -> Seq<Expr>
    decreases ts.len(),
{
    if ts.len() == 0 {
        Seq::empty()
    } else {
        let s = sorted(ts.drop_last());
        s.insert(place(s, ts.last(), 0), ts.last())
    }
}

/// `p` times the term `t` of a reduced sum.
pub open spec fn scale_term(p: int, t: Expr) -> Expr {
    match t {
        Expr::Mul(p2, a) => if !fits_i32(p * p2) {
            Expr::Mul(p, Box::new(t))
        } else if p * p2 == 0 {
            Expr::Val(0)
        } else if p * p2 == 1 {
            *a
        } else {
            Expr::Mul(p * p2, a)
        },
        Expr::Val(v) => if fits_i32(p * v) {
            Expr::Val(p * v)
        } else {
            Expr::Mul(p, Box::new(t))
        },
        _ => if p == 0 {
            Expr::Val(0)
        } else if p == 1 {
            t
        } else {
            Expr::Mul(p, Box::new(t))
        },
    }
}

/// `scale_term` on each of `ts`.
pub open spec fn scale_terms(p: int, ts: Seq<Expr>) -> Seq<Expr>
    decreases ts.len(),
{
    if ts.len() == 0 {
        Seq::empty()
    } else {
        scale_terms(p, ts.drop_last()).push(scale_term(p, ts.last()))
    }
}

/// `p` times the reduced tree `s`: `0` and `1` are absorbed, a sum is scaled
/// term by term, a literal or a multiple takes the factor in where the
/// product is an `i32`.
pub open spec fn scale(p: int, s: Expr) -> Expr {
    if p == 0 {
        Expr::Val(0)
    } else if p == 1 {
        s
    } else {
        match s {
            Expr::Add(ts) => Expr::Add(scale_terms(p, ts)),
            Expr::Val(v) => if fits_i32(p * v) {
                Expr::Val(p * v)
            } else {
                Expr::Mul(p, Box::new(s))
            },
            Expr::Mul(p2, a) => if fits_i32(p * p2) {
                Expr::Mul(p * p2, a)
            } else {
                Expr::Mul(p, Box::new(s))
            },
            _ => Expr::Mul(p, Box::new(s)),
        }
    }
}

/// The first literal among `ts` from `i` on, if any.
pub open spec fn first_literal(ts: Seq<Expr>, i: int) -> Option<int>
    decreases ts.len() - i,
{
    if i < 0 || i >= ts.len() {
        None
    } else if let Expr::Val(v) = ts[i] {
        Some(v)
    } else {
        first_literal(ts, i + 1)
    }
}

/// The whole quotient to take out of a reduced sum `ts` over `q`: the floor
/// of its first literal over `q`, where that is not zero and taking it out
/// keeps every number in range.
pub open spec fn offset(ts: Seq<Expr>, q: int) -> Option<int> {
    match first_literal(ts, 0) {
        Some(v) => if (v >= q || v < 0) && v > i32::MIN && q <= i32::MAX && fits_i32(
            -(v / q) * q,
        ) {
            Some(v / q)
        } else {
            None
        },
        None => None,
    }
}

/// The reduced tree `s` over `q`.
pub open spec fn quotient(s: Expr, q: int) -> Expr
    decreases q,
{
    if q <= 0 {
        Expr::Div(Box::new(s), q)
    } else {
        match s {
            Expr::Val(v) => Expr::Val(v / q),
            Expr::Add(ts) => match offset(ts, q) {
                Some(val) => Expr::Add(
                    seq![
                        Expr::Val(val),
                        Expr::Div(
                            Box::new(Tally::empty().absorb_all(ts.push(Expr::Val(-val * q))).total()),
                            q,
                        ),
                    ],
                ),
                None => Expr::Div(Box::new(s), q),
            },
            Expr::Mul(p, a) => {
                let g = gcd_spec(abs(p) as nat, q as nat) as int;
                if p == -1 {
                    Expr::Mul(-1, Box::new(Expr::Div(a, q)))
                } else if p == q {
                    *a
                } else if g == p {
                    Expr::Div(a, q / g)
                } else if g == q {
                    Expr::Mul(quot_to_zero(p, g), a)
                } else if 1 < g < q {
                    proof {
                        assert(0 <= q / g < q) by (nonlinear_arith)
                            requires
                                1 < g < q,
                        ;
                    }
                    quotient(Expr::Mul(quot_to_zero(p, g), a), q / g)
                } else {
                    Expr::Div(Box::new(s), q)
                }
            },
            _ => Expr::Div(Box::new(s), q),
        }
    }
}

/// The absolute value of `x`.
pub open spec fn abs(x: int) -> int {
    if x < 0 {
        -x
    } else {
        x
    }
}

impl Expr {
    /// The tree rewritten bottom-up: sums are flattened, like terms are
    /// collected and ordered, factors and divisors are folded together, and
    /// whole parts are taken out of quotients. A step is left out where a
    /// number of its result would not fit the tree's integer types.
    pub open spec fn simplified(self) -> Expr
        decreases self, 2nat,
    {
        match self {
            Expr::Sym(_) => self,
            Expr::Val(_) => self,
            Expr::Add(ts) => gathered(ts).total(),
            Expr::Mul(p, a) => simplified_times(p, *a),
            Expr::Div(a, q) => simplified_over(*a, q),
        }
    }
}

/// The tally of the reduced forms of `ts`.
pub open spec fn gathered(ts: Seq<Expr>) -> Tally
    decreases ts, 0nat,
{
    if ts.len() == 0 {
        Tally::empty()
    } else {
        gathered(ts.drop_last()).gather(ts.last().simplified())
    }
}

/// The reduced form of `p` times `a`.
pub open spec fn simplified_times(p: int, a: Expr) -> Expr
    decreases a, 3nat,
{
    match a {
        Expr::Mul(p2, a2) => if fits_i32(p * p2) {
            simplified_times(p * p2, *a2)
        } else {
            scale(p, a.simplified())
        },
        Expr::Val(p2) => if fits_i32(p * p2) {
            Expr::Val(p * p2)
        } else {
            scale(p, a.simplified())
        },
        _ => scale(p, a.simplified()),
    }
}

/// The reduced form of `a` over `q`.
pub open spec fn simplified_over(a: Expr, q: int) -> Expr
    decreases a, 3nat,
{
    if q == 1 {
        a.simplified()
    } else {
        match a {
            Expr::Div(a2, q2) => if fits_u32(q * q2) {
                simplified_over(*a2, q * q2)
            } else {
                quotient(a.simplified(), q)
            },
            _ => quotient(a.simplified(), q),
        }
    }
}

/// `Integer::gcd` of num-integer on `u32`: the greatest common divisor of the
/// two numbers, `0` for two zeros. Euclid's rule defines the same number.
#[verifier::external_body]
pub(crate) fn gcd_u32(a: u32, b: u32) -> (r: u32)
    ensures
        r as nat == gcd_spec(a as nat, b as nat),
{
    num_integer::Integer::gcd(&a, &b)
}

/// `Integer::div_ceil` of num-integer on `i32`, for a positive divisor: the
/// quotient rounded up.
#[verifier::external_body]
pub(crate) fn div_ceil_i32(a: i32, b: i32) -> (r: i32)
    requires
        b > 0,
    ensures
        r as int == -((-(a as int)) / (b as int)),
{
    num_integer::Integer::div_ceil(&a, &b)
}

/// Unfolds `absorb_all` on a sequence that ends in `x`.
pub proof fn lemma_absorb_all_push(t: Tally, ts: Seq<Expr>, x: Expr)
    ensures
        t.absorb_all(ts.push(x)) == t.absorb_all(ts).absorb(x),
{
    assert(ts.push(x).drop_last() =~= ts);
}

/// Unfolds `gathered` on a sequence that ends in `x`.
pub proof fn lemma_gathered_push(ts: Seq<Expr>, x: Expr)
    ensures
        gathered(ts.push(x)) == gathered(ts).gather(x.simplified()),
{
    assert(ts.push(x).drop_last() =~= ts);
}

/// Unfolds `sorted` on a sequence that ends in `x`.
pub proof fn lemma_sorted_push(ts: Seq<Expr>, x: Expr)
    ensures
        sorted(ts.push(x)) == sorted(ts).insert(place(sorted(ts), x, 0), x),
{
    assert(ts.push(x).drop_last() =~= ts);
}

/// Unfolds `scale_terms` on a sequence that ends in `x`.
pub proof fn lemma_scale_terms_push(p: int, ts: Seq<Expr>, x: Expr)
    ensures
        scale_terms(p, ts.push(x)) == scale_terms(p, ts).push(scale_term(p, x)),
{
    assert(ts.push(x).drop_last() =~= ts);
}

/// The terms collected so far, as the sum is walked.
struct Collected {
    keys: Vec<TDim>,
    coefs: Vec<i32>,
}

impl Collected {
    spec fn tally(&self) -> Tally {
        Tally { keys: views(self.keys@), coefs: self.coefs@.map_values(|c: i32| c as int) }
    }

    spec fn ok(&self) -> bool {
        self.keys.len() == self.coefs.len()
    }

    fn new() -> (r: Collected)
        ensures
            r.ok(),
            r.tally() == Tally::empty(),
    {
        let r = Collected { keys: Vec::new(), coefs: Vec::new() };
        assert(r.tally().coefs =~= Seq::<int>::empty());
        r
    }

    fn count(&mut self, k: &TDim, v: i32)
        requires
            old(self).ok(),
        ensures
            final(self).ok(),
            final(self).tally() == old(self).tally().with(k@, v as int),
    {
        let ghost before = self.tally();
        proof {
            lemma_views_len(self.keys@);
        }
        let mut i: usize = 0;
        while i < self.keys.len()
            invariant
                0 <= i <= self.keys.len(),
                self.ok(),
                self.tally() == before,
                *self == *old(self),
                before.keys.len() == self.keys.len(),
                forall|j: int| 0 <= j < self.keys.len() ==> #[trigger] before.keys[j] == self.keys[j]@,
                before.slot(k@, v as int, 0) == before.slot(k@, v as int, i as int),
            decreases self.keys.len() - i,
        {
            if self.keys[i].same(k) {
                match self.coefs[i].checked_add(v) {
                    Some(n) => {
                        self.coefs.set(i, n);
                        assert(self.tally().coefs =~= before.coefs.update(
                            i as int,
                            before.coefs[i as int] + v,
                        ));
                        return ;
                    },
                    None => {},
                }
            }
            i += 1;
        }
        let key = k.duplicate();
        proof {
            lemma_views_push(self.keys@, key);
        }
        self.keys.push(key);
        self.coefs.push(v);
        assert(self.tally().coefs =~= before.coefs.push(v as int));
    }

    fn absorb(&mut self, t: &TDim)
        requires
            old(self).ok(),
        ensures
            final(self).ok(),
            final(self).tally() == old(self).tally().absorb(t@),
    {
        match t {
            TDim::Val(v) => {
                if *v != 0 {
                    self.count(&TDim::Val(1), *v);
                }
            },
            TDim::Mul(v, f) => {
                self.count(f, *v);
            },
            _ => {
                self.count(t, 1);
            },
        }
    }

    fn absorb_all(&mut self, ts: &Vec<TDim>)
        requires
            old(self).ok(),
        ensures
            final(self).ok(),
            final(self).tally() == old(self).tally().absorb_all(views(ts@)),
    {
        let ghost before = self.tally();
        let mut i: usize = 0;
        while i < ts.len()
            invariant
                0 <= i <= ts.len(),
                self.ok(),
                self.tally() == before.absorb_all(views(ts@.take(i as int))),
            decreases ts.len() - i,
        {
            proof {
                lemma_views_take(ts@, i as int);
                lemma_absorb_all_push(before, views(ts@.take(i as int)), ts[i as int]@);
            }
            self.absorb(&ts[i]);
            i += 1;
        }
        assert(ts@.take(i as int) =~= ts@);
    }

    fn gather(&mut self, t: &TDim)
        requires
            old(self).ok(),
        ensures
            final(self).ok(),
            final(self).tally() == old(self).tally().gather(t@),
    {
        match t {
            TDim::Add(items) => self.absorb_all(items),
            _ => self.absorb(t),
        }
    }

    fn members(&self) -> (r: Vec<TDim>)
        requires
            self.ok(),
        ensures
            views(r@) == self.tally().members(self.keys.len() as int),
    {
        let mut out: Vec<TDim> = Vec::new();
        let one = TDim::Val(1);
        proof {
            lemma_views_len(self.keys@);
        }
        let mut i: usize = 0;
        while i < self.keys.len()
            invariant
                0 <= i <= self.keys.len(),
                self.ok(),
                one@ == Expr::Val(1),
                views(self.keys@).len() == self.keys.len(),
                forall|j: int|
                    0 <= j < self.keys.len() ==> #[trigger] views(self.keys@)[j] == self.keys[j]@,
                views(out@) == self.tally().members(i as int),
            decreases self.keys.len() - i,
        {
            let v = self.coefs[i];
            if v != 0 {
                let m = if self.keys[i].same(&one) {
                    TDim::Val(v)
                } else if v == 1 {
                    self.keys[i].duplicate()
                } else {
                    TDim::Mul(v, Box::new(self.keys[i].duplicate()))
                };
                proof {
                    lemma_views_push(out@, m);
                }
                out.push(m);
            }
            i += 1;
        }
        out
    }

    fn total(&self) -> (r: TDim)
        requires
            self.ok(),
        ensures
            r@ == self.tally().total(),
    {
        let mut ms = sort(&self.members());
        let ghost all = views(ms@);
        proof {
            lemma_views_len(ms@);
            lemma_views_len(self.keys@);
            assert(all == sorted(self.tally().members(self.keys.len() as int)));
        }
        if ms.len() == 0 {
            TDim::Val(0)
        } else if ms.len() == 1 {
            let m = ms.remove(0);
            assert(m@ == all[0]);
            m
        } else {
            TDim::Add(ms)
        }
    }
}

/// Puts `x` into the ordered `v`, behind the terms that do not come after it.
fn insert_ordered(v: &mut Vec<TDim>, x: TDim)
    ensures
        views(final(v)@) == views(old(v)@).insert(place(views(old(v)@), x@, 0), x@),
{
    proof {
        lemma_views_len(v@);
    }
    let mut i: usize = 0;
    while i < v.len() && v[i].compare(&x) <= 0
        invariant
            0 <= i <= v.len(),
            *v == *old(v),
            views(v@).len() == v.len(),
            forall|j: int| 0 <= j < v.len() ==> #[trigger] views(v@)[j] == v[j]@,
            place(views(v@), x@, 0) == place(views(v@), x@, i as int),
        decreases v.len() - i,
    {
        i += 1;
    }
    let ghost before = v@;
    v.insert(i, x);
    proof {
        lemma_views_len(v@);
        assert(views(v@) =~= views(before).insert(i as int, x@));
    }
}

/// The terms of `ts` in ascending order.
pub(crate) fn sort(ts: &Vec<TDim>) -> (r: Vec<TDim>)
    ensures
        views(r@) == sorted(views(ts@)),
{
    let mut out: Vec<TDim> = Vec::new();
    let mut i: usize = 0;
    while i < ts.len()
        invariant
            0 <= i <= ts.len(),
            views(out@) == sorted(views(ts@.take(i as int))),
        decreases ts.len() - i,
    {
        proof {
            lemma_views_take(ts@, i as int);
            lemma_sorted_push(views(ts@.take(i as int)), ts[i as int]@);
        }
        insert_ordered(&mut out, ts[i].duplicate());
        i += 1;
    }
    assert(ts@.take(i as int) =~= ts@);
    out
}

/// The greatest common divisor of two numbers, one of them positive, is
/// positive.
pub proof fn lemma_gcd_positive(a: nat, b: nat)
    requires
        a > 0 || b > 0,
    ensures
        gcd_spec(a, b) > 0,
    decreases b,
{
    if b > 0 {
        lemma_gcd_positive(b, a % b);
    }
}

/// Below zero, the floor of `v / q` is minus the quotient of `-v` rounded up.
pub proof fn lemma_floor_below_zero(v: int, q: int)
    requires
        v < 0,
        q > 0,
    ensures
        v / q == -((-v + q - 1) / q),
{
    let x = -v + q - 1;
    let c = x / q;
    let r = x % q;
    vstd::arithmetic::div_mod::lemma_fundamental_div_mod(x, q);
    vstd::arithmetic::div_mod::lemma_mod_bound(x, q);
    assert(v == (-c) * q + (q - 1 - r)) by (nonlinear_arith)
        requires
            x == q * c + r,
            x == -v + q - 1,
    ;
    vstd::arithmetic::div_mod::lemma_fundamental_div_mod_converse_div(v, q, -c, q - 1 - r);
}

/// The floor of `v / q`.
pub(crate) fn floor_div(v: i32, q: u32) -> (r: i32)
    requires
        q > 0,
    ensures
        r as int == (v as int) / (q as int),
{
    if v >= 0 {
        let d = (v as u32) / q;
        assert(d <= v as u32) by (nonlinear_arith)
            requires
                d == (v as u32) / q,
                q > 0,
        ;
        d as i32
    } else {
        let n: u64 = (-(v as i64)) as u64;
        let c: u64 = (n + (q as u64) - 1) / (q as u64);
        proof {
            lemma_floor_below_zero(v as int, q as int);
            assert(c <= n + q - 1) by (nonlinear_arith)
                requires
                    c == (n + q - 1) / (q as int),
                    q > 0,
                    n > 0,
            ;
            assert(c <= n) by (nonlinear_arith)
                requires
                    c == (n + q - 1) / (q as int),
                    q > 0,
                    n > 0,
            ;
        }
        (-(c as i64)) as i32
    }
}

/// `p / g` rounded towards zero.
pub(crate) fn quot_towards_zero(p: i32, g: u32) -> (r: i32)
    requires
        g > 0,
    ensures
        r as int == quot_to_zero(p as int, g as int),
{
    if p >= 0 {
        let d = (p as u32) / g;
        assert(d <= p as u32) by (nonlinear_arith)
            requires
                d == (p as u32) / g,
                g > 0,
        ;
        d as i32
    } else {
        let n: u64 = (-(p as i64)) as u64;
        let d: u64 = n / (g as u64);
        assert(d <= n) by (nonlinear_arith)
            requires
                d == n / (g as u64),
                g > 0,
        ;
        (-(d as i64)) as i32
    }
}

/// The size of `p`.
pub(crate) fn magnitude(p: i32) -> (r: u32)
    ensures
        r as int == abs(p as int),
{
    if p >= 0 {
        p as u32
    } else {
        (-(p as i64)) as u32
    }
}

fn scale_one(p: i32, t: &TDim) -> (r: TDim)
    ensures
        r@ == scale_term(p as int, t@),
{
    match t {
        TDim::Mul(p2, a) => {
            match p.checked_mul(*p2) {
                None => TDim::Mul(p, Box::new(t.duplicate())),
                Some(n) => {
                    if n == 0 {
                        TDim::Val(0)
                    } else if n == 1 {
                        a.duplicate()
                    } else {
                        TDim::Mul(n, Box::new(a.duplicate()))
                    }
                },
            }
        },
        TDim::Val(v) => {
            match p.checked_mul(*v) {
                Some(n) => TDim::Val(n),
                None => TDim::Mul(p, Box::new(t.duplicate())),
            }
        },
        _ => {
            if p == 0 {
                TDim::Val(0)
            } else if p == 1 {
                t.duplicate()
            } else {
                TDim::Mul(p, Box::new(t.duplicate()))
            }
        },
    }
}

fn scale_by(p: i32, s: TDim) -> (r: TDim)
    ensures
        r@ == scale(p as int, s@),
{
    if p == 0 {
        return TDim::Val(0);
    }
    if p == 1 {
        return s;
    }
    match s {
        TDim::Add(ts) => {
            let mut out: Vec<TDim> = Vec::new();
            let mut i: usize = 0;
            while i < ts.len()
                invariant
                    0 <= i <= ts.len(),
                    views(out@) == scale_terms(p as int, views(ts@.take(i as int))),
                decreases ts.len() - i,
            {
                let t = scale_one(p, &ts[i]);
                proof {
                    lemma_views_take(ts@, i as int);
                    lemma_scale_terms_push(p as int, views(ts@.take(i as int)), ts[i as int]@);
                    lemma_views_push(out@, t);
                }
                out.push(t);
                i += 1;
            }
            assert(ts@.take(i as int) =~= ts@);
            TDim::Add(out)
        },
        TDim::Val(v) => {
            match p.checked_mul(v) {
                Some(n) => TDim::Val(n),
                None => TDim::Mul(p, Box::new(TDim::Val(v))),
            }
        },
        TDim::Mul(p2, a) => {
            match p.checked_mul(p2) {
                Some(n) => TDim::Mul(n, a),
                None => TDim::Mul(p, Box::new(TDim::Mul(p2, a))),
            }
        },
        other => TDim::Mul(p, Box::new(other)),
    }
}

fn whole_part(ts: &Vec<TDim>, q: u32) -> (r: Option<(i32, i32)>)
    requires
        q > 0,
    ensures
        match r {
            Some((val, back)) => offset(views(ts@), q as int) == Some(val as int) && back as int
                == -(val as int) * (q as int),
            None => offset(views(ts@), q as int).is_none(),
        },
{
    proof {
        lemma_views_len(ts@);
    }
    let mut i: usize = 0;
    let mut found: Option<i32> = None;
    while i < ts.len()
        invariant_except_break
            found.is_none(),
            first_literal(views(ts@), 0) == first_literal(views(ts@), i as int),
        invariant
            0 <= i <= ts.len(),
            views(ts@).len() == ts.len(),
            forall|j: int| 0 <= j < ts.len() ==> #[trigger] views(ts@)[j] == ts[j]@,
        ensures
            match found {
                Some(v) => first_literal(views(ts@), 0) == Some(v as int),
                None => first_literal(views(ts@), 0).is_none(),
            },
        decreases ts.len() - i,
    {
        match &ts[i] {
            TDim::Val(v) => {
                found = Some(*v);
                break ;
            },
            _ => {},
        }
        i += 1;
    }
    match found {
        None => None,
        Some(v) => {
            if ((v as i64) >= (q as i64) || v < 0) && v > i32::MIN && q <= 0x7fff_ffff {
                let val: i32 = if v >= 0 {
                    v / (q as i32)
                } else {
                    let c = div_ceil_i32(-v, q as i32);
                    assert(v <= (v as int) / (q as int) <= 0) by (nonlinear_arith)
                        requires
                            v < 0,
                            q > 0,
                    ;
                    -c
                };
                assert(-0x4000_0000_0000_0000 <= -(val as int) * (q as int)
                    <= 0x4000_0000_0000_0000) by (nonlinear_arith)
                    requires
                        -0x8000_0000 <= val <= 0x7fff_ffff,
                        0 < q <= 0x7fff_ffff,
                ;
                let back: i64 = -(val as i64) * (q as i64);
                if back >= -0x8000_0000 && back <= 0x7fff_ffff {
                    Some((val, back as i32))
                } else {
                    None
                }
            } else {
                None
            }
        },
    }
}

fn divide(s: TDim, q: u32) -> (r: TDim)
    ensures
        r@ == quotient(s@, q as int),
    decreases q,
{
    if q == 0 {
        return TDim::Div(Box::new(s), q);
    }
    let ghost sv = s@;
    match s {
        TDim::Val(v) => TDim::Val(floor_div(v, q)),
        TDim::Add(ts) => {
            assert(sv == Expr::Add(views(ts@)));
            match whole_part(&ts, q) {
                Some((val, back)) => {
                    let mut ts = ts;
                    let ghost before = ts@;
                    let back = TDim::Val(back);
                    proof {
                        lemma_views_push(before, back);
                    }
                    ts.push(back);
                    let mut c = Collected::new();
                    c.absorb_all(&ts);
                    let rest = c.total();
                    let out = vec![TDim::Val(val), TDim::Div(Box::new(rest), q)];
                    proof {
                        lemma_views_len(out@);
                        assert(views(out@) =~= seq![out[0]@, out[1]@]);
                    }
                    TDim::Add(out)
                },
                None => TDim::Div(Box::new(TDim::Add(ts)), q),
            }
        },
        TDim::Mul(p, a) => {
            let g = gcd_u32(magnitude(p), q);
            proof {
                lemma_gcd_positive(abs(p as int) as nat, q as nat);
            }
            assert(sv == Expr::Mul(p as int, Box::new(a@)));
            if p == -1 {
                let inner = TDim::Div(a, q);
                assert(inner@ == Expr::Div(Box::new(a@), q as int));
                TDim::Mul(-1, Box::new(inner))
            } else if p as i64 == q as i64 {
                *a
            } else if g as i64 == p as i64 {
                TDim::Div(a, q / g)
            } else if g == q {
                TDim::Mul(quot_towards_zero(p, g), a)
            } else if 1 < g && g < q {
                assert(0 <= (q as int) / (g as int) < q) by (nonlinear_arith)
                    requires
                        1 < g < q,
                ;
                divide(TDim::Mul(quot_towards_zero(p, g), a), q / g)
            } else {
                TDim::Div(Box::new(TDim::Mul(p, a)), q)
            }
        },
        other => TDim::Div(Box::new(other), q),
    }
}

fn reduce_times(p: i32, a: &TDim) -> (r: TDim)
    ensures
        r@ == simplified_times(p as int, a@),
    decreases a, 3nat,
{
    match a {
        TDim::Mul(p2, a2) => {
            match p.checked_mul(*p2) {
                Some(n) => reduce_times(n, a2),
                None => scale_by(p, a.simplified()),
            }
        },
        TDim::Val(p2) => {
            match p.checked_mul(*p2) {
                Some(n) => TDim::Val(n),
                None => scale_by(p, a.simplified()),
            }
        },
        _ => scale_by(p, a.simplified()),
    }
}

fn reduce_over(a: &TDim, q: u32) -> (r: TDim)
    ensures
        r@ == simplified_over(a@, q as int),
    decreases a, 3nat,
{
    if q == 1 {
        return a.simplified();
    }
    match a {
        TDim::Div(a2, q2) => {
            match q.checked_mul(*q2) {
                Some(n) => reduce_over(a2, n),
                None => divide(a.simplified(), q),
            }
        },
        _ => divide(a.simplified(), q),
    }
}

impl TDim {
    /// The reduced form of this dimension.
    pub fn simplified(&self) -> (r: TDim)
        ensures
            r@ == self@.simplified(),
        decreases self, 2nat,
    {
        match self {
            TDim::Sym(c) => TDim::Sym(*c),
            TDim::Val(v) => TDim::Val(*v),
            TDim::Add(ts) => {
                let mut c = Collected::new();
                let mut i: usize = 0;
                while i < ts.len()
                    invariant
                        0 <= i <= ts.len(),
                        forall|j: int| 0 <= j < ts.len() ==> decreases_to!(self => #[trigger] ts[j]),
                        c.ok(),
                        c.tally() == gathered(views(ts@.take(i as int))),
                    decreases ts.len() - i,
                {
                    let t = ts[i].simplified();
                    proof {
                        lemma_views_take(ts@, i as int);
                        lemma_gathered_push(views(ts@.take(i as int)), ts[i as int]@);
                    }
                    c.gather(&t);
                    i += 1;
                }
                assert(ts@.take(i as int) =~= ts@);
                c.total()
            },
            TDim::Mul(p, a) => reduce_times(*p, a),
            TDim::Div(a, q) => reduce_over(a, *q),
        }
    }

    /// Rewrites the dimension bottom-up: sums are flattened, like terms are
    /// collected and put in order, factors and divisors are folded
    /// together, and whole parts are taken out of quotients. A negative
    /// factor is taken out of a quotient as it is: `(-1·a)/q` becomes
    /// `-1·(a/q)`, which is the same number only where `q` divides `a`,
    /// since a quotient is rounded down.
    pub fn simplify(self) -> (r: TDim)
        ensures
            r@ == self@.simplified(),
    {
        self.simplified()
    }
}

} // verus!
