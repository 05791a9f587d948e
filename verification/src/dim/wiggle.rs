//! The equivalent forms of a dimension that differ in where the divisions
//! stand.

use vstd::prelude::*;
use itertools::Itertools;
use crate::dim::tree::{TDim, Expr, views, lemma_views_len, lemma_views_push};
use crate::dim::simplify::{
    gcd_spec, gcd_u32, abs, fits_u32, quot_to_zero, lemma_gcd_positive, floor_div,
    quot_towards_zero, magnitude,
};

verus! {

impl Expr {
    /// A number that is known to divide the tree's value, whatever the
    /// symbols stand for; `1` where none better is known.
    pub open spec fn divisor(self) -> int
        decreases self, 1nat,
    {
        match self {
            Expr::Val(v) => abs(v),
            Expr::Sym(_) => 1,
            Expr::Add(ts) => divisor_all(ts, ts.len() as int),
            Expr::Mul(p, a) => if fits_u32(a.divisor() * abs(p)) {
                a.divisor() * abs(p)
            } else {
                1
            },
            Expr::Div(a, q) => if q > 0 && a.divisor() % q == 0 {
                a.divisor() / q
            } else {
                1
            },
        }
    }

    /// The tree over `d`, for a tree that `d` divides: the division is
    /// carried into literals, factors and sums. Under a symbol it stays a
    /// quotient.
    pub open spec fn divided(self, d: int) -> Expr
        decreases self, 1nat,
    {
        if d == 1 {
            self
        } else if d <= 0 {
            Expr::Div(Box::new(self), d)
        } else {
            match self {
                Expr::Val(v) => Expr::Val(v / d),
                Expr::Sym(_) => Expr::Div(Box::new(self), d),
                Expr::Add(ts) => Expr::Add(divided_each(ts, d, ts.len() as int)),
                Expr::Mul(p, a) => if p == d {
                    *a
                } else {
                    let g = gcd_spec(abs(p) as nat, d as nat) as int;
                    Expr::Mul(quot_to_zero(p, g), Box::new(a.divided(d / g)))
                },
                Expr::Div(a, q) => if fits_u32(q * d) {
                    Expr::Div(a, q * d)
                } else {
                    Expr::Div(Box::new(self), d)
                },
            }
        }
    }

    /// The forms of the tree: itself, and those that come of lifting a
    /// division out of a sum or of carrying one into a sum.
    pub open spec fn wiggled(self) -> Seq<Expr>
        decreases self, 1nat,
    {
        match self {
            Expr::Sym(_) => seq![self],
            Expr::Val(_) => seq![self],
            Expr::Add(ts) => lift_all(
                product(wiggled_each(ts, ts.len() as int)),
                product(wiggled_each(ts, ts.len() as int)).len() as int,
            ),
            Expr::Mul(p, a) => times_each(p, a.wiggled(), a.wiggled().len() as int),
            Expr::Div(a, q) => split_all(a.wiggled(), q, a.wiggled().len() as int),
        }
    }
}

/// The greatest common divisor of the divisors of the first `n` of `ts`.
pub open spec fn divisor_all(ts: Seq<Expr>, n: int) -> int
    decreases ts, n,
{
    if n <= 0 || n > ts.len() {
        0
    } else {
        gcd_spec(divisor_all(ts, n - 1) as nat, ts[n - 1].divisor() as nat) as int
    }
}

/// The first `n` of `ts`, each over `d`.
pub open spec fn divided_each(ts: Seq<Expr>, d: int, n: int) -> Seq<Expr>
    decreases ts, n,
{
    if n <= 0 || n > ts.len() {
        Seq::empty()
    } else {
        divided_each(ts, d, n - 1).push(ts[n - 1].divided(d))
    }
}

/// The forms of each of the first `n` of `ts`.
pub open spec fn wiggled_each(ts: Seq<Expr>, n: int) -> Seq<Seq<Expr>>
    decreases ts, n,
{
    if n <= 0 || n > ts.len() {
        Seq::empty()
    } else {
        wiggled_each(ts, n - 1).push(ts[n - 1].wiggled())
    }
}

/// `p` times each of the first `n` of `forms`.
pub open spec fn times_each(p: int, forms: Seq<Expr>, n: int) -> Seq<Expr>
    decreases n,
{
    if n <= 0 {
        Seq::empty()
    } else {
        times_each(p, forms, n - 1).push(Expr::Mul(p, Box::new(forms[n - 1])))
    }
}

/// Every way to pick one item from each list, the picks from the last list
/// changing fastest. There is none where a list is empty, and none for no
/// lists at all.
pub open spec fn product(lists: Seq<Seq<Expr>>) -> Seq<Seq<Expr>>
    decreases lists.len(),
{
    if lists.len() == 0 {
        Seq::empty()
    } else if lists.len() == 1 {
        Seq::new(lists[0].len(), |k: int| seq![lists[0][k]])
    } else {
        let head = product(lists.drop_last());
        let last = lists.last();
        Seq::new(
            head.len() * last.len(),
            |k: int| head[k / (last.len() as int)].push(last[k % (last.len() as int)]),
        )
    }
}

/// The first quotient among `sub` from `i` on, or the length of `sub`.
pub open spec fn first_quotient(sub: Seq<Expr>, i: int) -> int
    decreases sub.len() - i,
{
    if i < 0 || i >= sub.len() {
        sub.len() as int
    } else if sub[i] is Div {
        i
    } else {
        first_quotient(sub, i + 1)
    }
}

/// The first `n` terms of the sum `sub` brought over the divisor `q` of its
/// term `ix`: that term gives its numerator `num`, every other one is
/// multiplied by `q`.
pub open spec fn lift_terms(sub: Seq<Expr>, ix: int, q: int, num: Expr, n: int) -> Seq<Expr>
    decreases n,
{
    if n <= 0 {
        Seq::empty()
    } else {
        lift_terms(sub, ix, q, num, n - 1).push(
            if n - 1 == ix {
                num
            } else {
                Expr::Mul(q, Box::new(sub[n - 1]))
            },
        )
    }
}

/// The forms of the sum of `sub`: with its first quotient lifted over the
/// whole sum, where it has one whose divisor is an `i32`, and as it is.
pub open spec fn lifted(sub: Seq<Expr>) -> Seq<Expr> {
    let ix = first_quotient(sub, 0);
    if ix < sub.len() {
        match sub[ix] {
            Expr::Div(num, q) => if q <= i32::MAX {
                seq![
                    Expr::Div(
                        Box::new(Expr::Add(lift_terms(sub, ix, q, *num, sub.len() as int))),
                        q,
                    ),
                    Expr::Add(sub),
                ]
            } else {
                seq![Expr::Add(sub)]
            },
            _ => seq![Expr::Add(sub)],
        }
    } else {
        seq![Expr::Add(sub)]
    }
}

/// The forms of the first `n` sums of `subs`, in order.
pub open spec fn lift_all(subs: Seq<Seq<Expr>>, n: int) -> Seq<Expr>
    decreases n,
{
    if n <= 0 {
        Seq::empty()
    } else {
        lift_all(subs, n - 1) + lifted(subs[n - 1])
    }
}

/// Those of the first `n` of `ts` that `q` is known to divide, each over `q`.
pub open spec fn whole_terms(ts: Seq<Expr>, q: int, n: int) -> Seq<Expr>
    decreases n,
{
    if n <= 0 {
        Seq::empty()
    } else if ts[n - 1].divisor() % q == 0 {
        whole_terms(ts, q, n - 1).push(ts[n - 1].divided(q))
    } else {
        whole_terms(ts, q, n - 1)
    }
}

/// Those of the first `n` of `ts` that `q` is not known to divide.
pub open spec fn rest_terms(ts: Seq<Expr>, q: int, n: int) -> Seq<Expr>
    decreases n,
{
    if n <= 0 {
        Seq::empty()
    } else if ts[n - 1].divisor() % q == 0 {
        rest_terms(ts, q, n - 1)
    } else {
        rest_terms(ts, q, n - 1).push(ts[n - 1])
    }
}

/// The forms of `num` over `q`: for a sum, with the division carried into
/// the terms that `q` divides, the others staying together over `q`; and as
/// it is.
pub open spec fn split(num: Expr, q: int) -> Seq<Expr> {
    match num {
        Expr::Add(ts) => if q > 0 {
            let whole = whole_terms(ts, q, ts.len() as int);
            let rest = rest_terms(ts, q, ts.len() as int);
            seq![
                Expr::Add(
                    if rest.len() > 0 {
                        whole.push(Expr::Div(Box::new(Expr::Add(rest)), q))
                    } else {
                        whole
                    },
                ),
                Expr::Div(Box::new(num), q),
            ]
        } else {
            seq![Expr::Div(Box::new(num), q)]
        },
        _ => seq![Expr::Div(Box::new(num), q)],
    }
}

/// The forms of each of the first `n` of `nums` over `q`, in order.
pub open spec fn split_all(nums: Seq<Expr>, q: int, n: int) -> Seq<Expr>
    decreases n,
{
    if n <= 0 {
        Seq::empty()
    } else {
        split_all(nums, q, n - 1) + split(nums[n - 1], q)
    }
}

/// The trees of each list of dimensions.
pub open spec fn views_each(ls: Seq<Vec<TDim>>) -> Seq<Seq<Expr>> {
    Seq::new(ls.len(), |i: int| views(ls[i]@))
}

/// `multi_cartesian_product` of itertools over the lists: every way to pick
/// one item from each list, in the order in which the adaptor yields them,
/// the last list's items changing fastest; nothing for no lists.
#[verifier::external_body]
fn cartesian(lists: Vec<Vec<TDim>>) -> (r: Vec<Vec<TDim>>)
    ensures
        views_each(r@) == product(views_each(lists@)),
{
    lists.into_iter().map(|l| l.into_iter()).multi_cartesian_product().collect()
}

impl TDim {
    /// A number that is known to divide this dimension.
    pub fn gcd(&self) -> (r: u32)
        ensures
            r as int == self@.divisor(),
        decreases self,
    {
        match self {
            TDim::Val(v) => magnitude(*v),
            TDim::Sym(_) => 1,
            TDim::Add(ts) => {
                proof {
                    lemma_views_len(ts@);
                }
                let mut acc: u32 = 0;
                let mut i: usize = 0;
                while i < ts.len()
                    invariant
                        0 <= i <= ts.len(),
                        forall|j: int| 0 <= j < ts.len() ==> decreases_to!(self => #[trigger] ts[j]),
                        views(ts@).len() == ts.len(),
                        forall|j: int| 0 <= j < ts.len() ==> #[trigger] views(ts@)[j] == ts[j]@,
                        acc as int == divisor_all(views(ts@), i as int),
                    decreases ts.len() - i,
                {
                    let g = ts[i].gcd();
                    acc = gcd_u32(acc, g);
                    i += 1;
                }
                acc
            },
            TDim::Mul(p, a) => {
                let g = a.gcd();
                let m = magnitude(*p);
                assert((g as int) * (m as int) <= 0xffff_ffff * 0xffff_ffff) by (nonlinear_arith)
                    requires
                        0 <= g <= 0xffff_ffff,
                        0 <= m <= 0xffff_ffff,
                ;
                let d: u64 = (g as u64) * (m as u64);
                if d <= 0xffff_ffff {
                    d as u32
                } else {
                    1
                }
            },
            TDim::Div(a, q) => {
                let d = a.gcd();
                if *q > 0 && d % *q == 0 {
                    d / *q
                } else {
                    1
                }
            },
        }
    }

    /// This dimension over `d`, the division carried into it.
    pub fn div(&self, d: u32) -> (r: TDim)
        ensures
            r@ == self@.divided(d as int),
        decreases self,
    {
        if d == 1 {
            return self.duplicate();
        }
        if d == 0 {
            return TDim::Div(Box::new(self.duplicate()), d);
        }
        match self {
            TDim::Val(v) => TDim::Val(floor_div(*v, d)),
            TDim::Sym(_) => TDim::Div(Box::new(self.duplicate()), d),
            TDim::Add(ts) => {
                proof {
                    lemma_views_len(ts@);
                }
                let mut out: Vec<TDim> = Vec::new();
                let mut i: usize = 0;
                while i < ts.len()
                    invariant
                        0 <= i <= ts.len(),
                        forall|j: int| 0 <= j < ts.len() ==> decreases_to!(self => #[trigger] ts[j]),
                        views(ts@).len() == ts.len(),
                        forall|j: int| 0 <= j < ts.len() ==> #[trigger] views(ts@)[j] == ts[j]@,
                        views(out@) == divided_each(views(ts@), d as int, i as int),
                    decreases ts.len() - i,
                {
                    let t = ts[i].div(d);
                    proof {
                        lemma_views_push(out@, t);
                    }
                    out.push(t);
                    i += 1;
                }
                TDim::Add(out)
            },
            TDim::Mul(p, a) => {
                if *p as i64 == d as i64 {
                    a.duplicate()
                } else {
                    let g = gcd_u32(magnitude(*p), d);
                    proof {
                        lemma_gcd_positive(abs(*p as int) as nat, d as nat);
                    }
                    TDim::Mul(quot_towards_zero(*p, g), Box::new(a.div(d / g)))
                }
            },
            TDim::Div(a, q) => {
                match q.checked_mul(d) {
                    Some(n) => TDim::Div(Box::new(a.duplicate()), n),
                    None => TDim::Div(Box::new(self.duplicate()), d),
                }
            },
        }
    }

    /// The forms of this dimension: itself, and those that come of lifting
    /// a division out of a sum or of carrying one into a sum.
    pub fn wiggle(&self) -> (r: Vec<TDim>)
        ensures
            views(r@) == self@.wiggled(),
        decreases self,
    {
        match self {
            TDim::Sym(_) | TDim::Val(_) => {
                let out = vec![self.duplicate()];
                proof {
                    lemma_views_len(out@);
                    assert(views(out@) =~= seq![self@]);
                }
                out
            },
            TDim::Add(ts) => {
                proof {
                    lemma_views_len(ts@);
                }
                let mut subs: Vec<Vec<TDim>> = Vec::new();
                let mut i: usize = 0;
                while i < ts.len()
                    invariant
                        0 <= i <= ts.len(),
                        forall|j: int| 0 <= j < ts.len() ==> decreases_to!(self => #[trigger] ts[j]),
                        views(ts@).len() == ts.len(),
                        forall|j: int| 0 <= j < ts.len() ==> #[trigger] views(ts@)[j] == ts[j]@,
                        views_each(subs@) == wiggled_each(views(ts@), i as int),
                    decreases ts.len() - i,
                {
                    let w = ts[i].wiggle();
                    assert(views_each(subs@.push(w)) =~= views_each(subs@).push(views(w@)));
                    subs.push(w);
                    i += 1;
                }
                let combos = cartesian(subs);
                let mut forms: Vec<TDim> = Vec::new();
                let mut k: usize = 0;
                while k < combos.len()
                    invariant
                        0 <= k <= combos.len(),
                        views(forms@) == lift_all(views_each(combos@), k as int),
                    decreases combos.len() - k,
                {
                    lift(&combos[k], &mut forms);
                    k += 1;
                }
                assert(views_each(combos@).len() == combos.len());
                forms
            },
            TDim::Mul(p, a) => {
                let inner = a.wiggle();
                proof {
                    lemma_views_len(inner@);
                }
                let mut forms: Vec<TDim> = Vec::new();
                let mut k: usize = 0;
                while k < inner.len()
                    invariant
                        0 <= k <= inner.len(),
                        views(inner@).len() == inner.len(),
                        forall|j: int|
                            0 <= j < inner.len() ==> #[trigger] views(inner@)[j] == inner[j]@,
                        views(forms@) == times_each(*p as int, views(inner@), k as int),
                    decreases inner.len() - k,
                {
                    let f = TDim::Mul(*p, Box::new(inner[k].duplicate()));
                    proof {
                        lemma_views_push(forms@, f);
                    }
                    forms.push(f);
                    k += 1;
                }
                forms
            },
            TDim::Div(a, q) => {
                let inner = a.wiggle();
                proof {
                    lemma_views_len(inner@);
                }
                let mut forms: Vec<TDim> = Vec::new();
                let mut k: usize = 0;
                while k < inner.len()
                    invariant
                        0 <= k <= inner.len(),
                        views(inner@).len() == inner.len(),
                        forall|j: int|
                            0 <= j < inner.len() ==> #[trigger] views(inner@)[j] == inner[j]@,
                        views(forms@) == split_all(views(inner@), *q as int, k as int),
                    decreases inner.len() - k,
                {
                    carry(&inner[k], *q, &mut forms);
                    k += 1;
                }
                forms
            },
        }
    }
}

/// Appends to `forms` the forms of the sum of `sub`.
fn lift(sub: &Vec<TDim>, forms: &mut Vec<TDim>)
    ensures
        views(final(forms)@) == views(old(forms)@) + lifted(views(sub@)),
{
    proof {
        lemma_views_len(sub@);
    }
    let mut ix: usize = 0;
    while ix < sub.len() && !is_quotient(&sub[ix])
        invariant
            0 <= ix <= sub.len(),
            views(sub@).len() == sub.len(),
            forall|j: int| 0 <= j < sub.len() ==> #[trigger] views(sub@)[j] == sub[j]@,
            first_quotient(views(sub@), 0) == first_quotient(views(sub@), ix as int),
        decreases sub.len() - ix,
    {
        ix += 1;
    }
    let ghost before = forms@;
    if ix < sub.len() {
        match &sub[ix] {
            TDim::Div(num, q) => {
                assert(views(sub@)[ix as int] == Expr::Div(Box::new(num@), *q as int));
                if *q <= 0x7fff_ffff {
                    let mut terms: Vec<TDim> = Vec::new();
                    let mut j: usize = 0;
                    while j < sub.len()
                        invariant
                            0 <= j <= sub.len(),
                            ix < sub.len(),
                            *q <= 0x7fff_ffff,
                            views(sub@).len() == sub.len(),
                            forall|j: int|
                                0 <= j < sub.len() ==> #[trigger] views(sub@)[j] == sub[j]@,
                            views(terms@) == lift_terms(
                                views(sub@),
                                ix as int,
                                *q as int,
                                num@,
                                j as int,
                            ),
                        decreases sub.len() - j,
                    {
                        let t = if j == ix {
                            num.duplicate()
                        } else {
                            TDim::Mul(*q as i32, Box::new(sub[j].duplicate()))
                        };
                        proof {
                            lemma_views_push(terms@, t);
                        }
                        terms.push(t);
                        j += 1;
                    }
                    let sum = TDim::Add(terms);
                    assert(sum@ == Expr::Add(
                        lift_terms(views(sub@), ix as int, *q as int, num@, sub.len() as int),
                    ));
                    let f = TDim::Div(Box::new(sum), *q);
                    proof {
                        lemma_views_push(forms@, f);
                    }
                    forms.push(f);
                }
            },
            _ => {},
        }
    }
    let whole = TDim::Add(duplicate_all(sub));
    assert(whole@ == Expr::Add(views(sub@)));
    proof {
        lemma_views_push(forms@, whole);
    }
    forms.push(whole);
    assert(views(forms@) =~= views(before) + lifted(views(sub@)));
}

/// Whether `t` is a quotient.
fn is_quotient(t: &TDim) -> (r: bool)
    ensures
        r == (t@ is Div),
{
    match t {
        TDim::Div(_, _) => true,
        _ => false,
    }
}

/// Copies of the dimensions of `ts`.
pub(crate) fn duplicate_all(ts: &Vec<TDim>) -> (r: Vec<TDim>)
    ensures
        views(r@) == views(ts@),
{
    proof {
        lemma_views_len(ts@);
    }
    let mut out: Vec<TDim> = Vec::new();
    let mut i: usize = 0;
    while i < ts.len()
        invariant
            0 <= i <= ts.len(),
            out.len() == i,
            forall|j: int| 0 <= j < i ==> out[j]@ == ts[j]@,
        decreases ts.len() - i,
    {
        out.push(ts[i].duplicate());
        i += 1;
    }
    proof {
        lemma_views_len(out@);
        assert(views(out@) =~= views(ts@));
    }
    out
}

/// Appends to `forms` the forms of `num` over `q`.
fn carry(num: &TDim, q: u32, forms: &mut Vec<TDim>)
    ensures
        views(final(forms)@) == views(old(forms)@) + split(num@, q as int),
{
    let ghost before = forms@;
    match num {
        TDim::Add(ts) => {
            if q > 0 {
                proof {
                    lemma_views_len(ts@);
                }
                let mut whole: Vec<TDim> = Vec::new();
                let mut rest: Vec<TDim> = Vec::new();
                let mut i: usize = 0;
                while i < ts.len()
                    invariant
                        0 <= i <= ts.len(),
                        q > 0,
                        views(ts@).len() == ts.len(),
                        forall|j: int| 0 <= j < ts.len() ==> #[trigger] views(ts@)[j] == ts[j]@,
                        views(whole@) == whole_terms(views(ts@), q as int, i as int),
                        views(rest@) == rest_terms(views(ts@), q as int, i as int),
                    decreases ts.len() - i,
                {
                    if ts[i].gcd() % q == 0 {
                        let t = ts[i].div(q);
                        proof {
                            lemma_views_push(whole@, t);
                        }
                        whole.push(t);
                    } else {
                        let t = ts[i].duplicate();
                        proof {
                            lemma_views_push(rest@, t);
                        }
                        rest.push(t);
                    }
                    i += 1;
                }
                proof {
                    lemma_views_len(rest@);
                }
                if rest.len() > 0 {
                    let together = TDim::Add(rest);
                    assert(together@ == Expr::Add(
                        rest_terms(views(ts@), q as int, ts.len() as int),
                    ));
                    let over = TDim::Div(Box::new(together), q);
                    proof {
                        lemma_views_push(whole@, over);
                    }
                    whole.push(over);
                }
                let f = TDim::Add(whole);
                proof {
                    lemma_views_push(forms@, f);
                }
                forms.push(f);
            }
        },
        _ => {},
    }
    let f = TDim::Div(Box::new(num.duplicate()), q);
    proof {
        lemma_views_push(forms@, f);
    }
    forms.push(f);
    assert(views(forms@) =~= views(before) + split(num@, q as int));
}

} // verus!
