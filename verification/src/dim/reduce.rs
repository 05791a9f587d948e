//! The canonical form of a dimension, and arithmetic on canonical forms.

use vstd::prelude::*;
use crate::dim::tree::{TDim, Expr, views, compare_spec, capped, lemma_views_len};

verus! {

/// Whether the form `a` is preferred to the form `b`: its reduced form
/// costs less, or as much while `a` comes first in the order of trees.
pub open spec fn better(a: Expr, b: Expr) -> bool {
    let ca = capped(a.simplified().cost());
    let cb = capped(b.simplified().cost());
    ca < cb || (ca == cb && compare_spec(a, b) < 0)
}

/// The preferred one among the first `n` of `forms`, the earlier of two
/// between which there is no preference.
pub open spec fn choice(forms: Seq<Expr>, n: int) -> int
    decreases n,
{
    if n <= 1 {
        0
    } else {
        let c = choice(forms, n - 1);
        if better(forms[n - 1], forms[c]) {
            n - 1
        } else {
            c
        }
    }
}

impl Expr {
    /// The canonical form: the tree is reduced, its forms are listed, and
    /// the reduced form of the preferred one is taken.
    pub open spec fn reduced(self) -> Expr {
        let s = self.simplified();
        let forms = s.wiggled();
        if forms.len() == 0 {
            s
        } else {
            forms[choice(forms, forms.len() as int)].simplified()
        }
    }

    /// The sum of two trees.
    pub open spec fn plus(self, other: Expr) -> Expr {
        Expr::Add(seq![self, other])
    }

    /// `p` times the tree.
    pub open spec fn times(self, p: int) -> Expr {
        Expr::Mul(p, Box::new(self))
    }

    /// The tree over `q`.
    pub open spec fn over(self, q: int) -> Expr {
        Expr::Div(Box::new(self), q)
    }
}

/// `choice` stays within the forms it chooses from.
pub proof fn lemma_choice_in_range(forms: Seq<Expr>, n: int)
    requires
        1 <= n,
    ensures
        0 <= choice(forms, n) < n,
    decreases n,
{
    if n > 1 {
        lemma_choice_in_range(forms, n - 1);
    }
}

impl TDim {
    /// The canonical form of this dimension: of the forms that shifting
    /// divisors about gives, simplified, the cheapest. The form stands for
    /// the same number as the dimension where no quotient has a negative
    /// factor taken out of it: a factor of `-1` goes out of a quotient as
    /// it is, which keeps the number only where the division leaves no
    /// rest, since a quotient is rounded down.
    pub fn reduce(self) -> (r: TDim)
        ensures
            r@ == self@.reduced(),
    {
        let s = self.simplified();
        let forms = s.wiggle();
        if forms.len() == 0 {
            proof {
                lemma_views_len(forms@);
            }
            return s;
        }
        proof {
            lemma_views_len(forms@);
        }
        let mut best: usize = 0;
        let mut best_form = forms[0].simplified();
        let mut best_cost = best_form.cost();
        let mut i: usize = 1;
        while i < forms.len()
            invariant
                1 <= i <= forms.len(),
                views(forms@).len() == forms.len(),
                forall|j: int| 0 <= j < forms.len() ==> #[trigger] views(forms@)[j] == forms[j]@,
                best as int == choice(views(forms@), i as int),
                0 <= best < i,
                best_form@ == forms[best as int]@.simplified(),
                best_cost as int == capped(best_form@.cost()),
            decreases forms.len() - i,
        {
            let cand = forms[i].simplified();
            let c = cand.cost();
            if c < best_cost || (c == best_cost && forms[i].compare(&forms[best]) < 0) {
                best = i;
                best_form = cand;
                best_cost = c;
            }
            i += 1;
        }
        best_form
    }

    /// The symbol `S`, the length of the stream.
    pub fn s() -> (r: TDim)
        ensures
            r@ == Expr::Sym('S'),
    {
        TDim::Sym('S')
    }

    /// The symbol `S`, the length of the stream.
    pub fn stream() -> (r: TDim)
        ensures
            r@ == Expr::Sym('S'),
    {
        Self::s()
    }

    /// The dimension `0`.
    pub fn zero() -> (r: TDim)
        ensures
            r@ == Expr::Val(0),
    {
        TDim::Val(0)
    }

    /// Whether this dimension is the literal `0`.
    pub fn is_zero(&self) -> (r: bool)
        ensures
            r == (self@ == Expr::Val(0)),
    {
        match self {
            TDim::Val(v) => *v == 0,
            _ => false,
        }
    }

    /// The canonical form of the sum of this dimension and `rhs`.
    pub fn plus(self, rhs: TDim) -> (r: TDim)
        ensures
            r@ == self@.plus(rhs@).reduced(),
    {
        let terms = vec![self, rhs];
        proof {
            lemma_views_len(terms@);
            assert(views(terms@) =~= seq![self@, rhs@]);
        }
        TDim::Add(terms).reduce()
    }

    /// The canonical form of minus this dimension.
    pub fn negated(self) -> (r: TDim)
        ensures
            r@ == self@.times(-1).reduced(),
    {
        TDim::Mul(-1, Box::new(self)).reduce()
    }

    /// The canonical form of this dimension less `rhs`: the sum of this
    /// dimension and the canonical form of minus `rhs`.
    pub fn minus(self, rhs: TDim) -> (r: TDim)
        ensures
            r@ == self@.plus(rhs@.times(-1).reduced()).reduced(),
    {
        let n = rhs.negated();
        self.plus(n)
    }

    /// The canonical form of `rhs` times this dimension.
    pub fn times(self, rhs: i32) -> (r: TDim)
        ensures
            r@ == self@.times(rhs as int).reduced(),
    {
        TDim::Mul(rhs, Box::new(self)).reduce()
    }

    /// The canonical form of this dimension over `rhs`.
    pub fn over(self, rhs: u32) -> (r: TDim)
        ensures
            r@ == self@.over(rhs as int).reduced(),
    {
        TDim::Div(Box::new(self), rhs).reduce()
    }

    /// The canonical form of what `rhs` leaves of this dimension: the
    /// dimension less `rhs` times its quotient over `rhs`.
    pub fn modulo(self, rhs: u32) -> (r: TDim)
        requires
            rhs <= i32::MAX,
        ensures
            r@ == self@.plus(
                self@.over(rhs as int).reduced().times(rhs as int).reduced().times(-1).reduced(),
            ).reduced(),
    {
        let whole = self.duplicate().over(rhs).times(rhs as i32).negated();
        self.plus(whole)
    }

    /// The canonical form of this dimension over `rhs`, rounded up: of the
    /// dimension and `rhs - 1`, over `rhs`.
    pub fn div_ceil(self, rhs: u32) -> (r: TDim)
        requires
            0 < rhs <= i32::MAX,
        ensures
            r@ == self@.plus(Expr::Val(rhs - 1)).over(rhs as int).reduced(),
    {
        let terms = vec![self, TDim::Val(rhs as i32 - 1)];
        proof {
            lemma_views_len(terms@);
            assert(views(terms@) =~= seq![self@, Expr::Val(rhs - 1)]);
        }
        let sum = TDim::Add(terms);
        assert(sum@ == self@.plus(Expr::Val(rhs - 1)));
        TDim::Div(Box::new(sum), rhs).reduce()
    }
}

} // verus!
