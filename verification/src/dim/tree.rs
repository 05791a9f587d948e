//! The dimension tree, its mathematical view, its order and its cost.

use vstd::prelude::*;

verus! {

/// A dimension: a tree over symbols and `i32` literals, closed under sums,
/// integer multiples and division by a positive integer.
#[derive(PartialEq, Eq, PartialOrd, Ord, Hash, Debug)]
pub enum TDim {
    Sym(char),
    Val(i32),
    Add(Vec<TDim>),
    Mul(i32, Box<TDim>),
    Div(Box<TDim>, u32),
}

/// The mathematical tree that a `TDim` stands for.
pub enum Expr {
    Sym(char),
    Val(int),
    Add(Seq<Expr>),
    Mul(int, Box<Expr>),
    Div(Box<Expr>, int),
}

/// The trees of a sequence of dimensions, in order.
pub open spec fn views(ts: Seq<TDim>) -> Seq<Expr>
    decreases ts, 0nat,
{
    if ts.len() == 0 {
        Seq::empty()
    } else {
        views(ts.drop_last()).push(ts.last().tree())
    }
}

impl TDim {
    /// The tree of this dimension.
    pub open spec fn tree(&self) -> Expr
        decreases self, 1nat,
    {
        match self {
            TDim::Sym(c) => Expr::Sym(*c),
            TDim::Val(v) => Expr::Val(*v as int),
            TDim::Add(ts) => Expr::Add(views(ts@)),
            TDim::Mul(p, a) => Expr::Mul(*p as int, Box::new(a.tree())),
            TDim::Div(a, q) => Expr::Div(Box::new(a.tree()), *q as int),
        }
    }
}

impl View for TDim {
    type V = Expr;

    open spec fn view(&self) -> Expr {
        self.tree()
    }
}

impl Clone for TDim {
    fn clone(&self) -> (r: Self)
        ensures
            r@ == self@,
    {
        self.duplicate()
    }
}

/// Taking one more element of `ts` adds its tree at the end.
pub proof fn lemma_views_take(ts: Seq<TDim>, i: int)
    requires
        0 <= i < ts.len(),
    ensures
        views(ts.take(i + 1)) == views(ts.take(i)).push(ts[i]@),
{
    assert(ts.take(i + 1).drop_last() =~= ts.take(i));
}

/// Pushing a dimension pushes its tree.
pub proof fn lemma_views_push(ts: Seq<TDim>, t: TDim)
    ensures
        views(ts.push(t)) == views(ts).push(t@),
{
    assert(ts.push(t).drop_last() =~= ts);
}

pub proof fn lemma_views_len(ts: Seq<TDim>)
    ensures
        views(ts).len() == ts.len(),
        forall|i: int| 0 <= i < ts.len() ==> #[trigger] views(ts)[i] == ts[i]@,
    decreases ts.len(),
{
    if ts.len() > 0 {
        lemma_views_len(ts.drop_last());
    }
}

impl Expr {
    /// The cost of a tree: 1 for a leaf, twice the terms' costs for a sum,
    /// twice the operand's for a multiple, three times for a quotient.
    pub open spec fn cost(self) -> int
        decreases self, 1nat,
    {
        match self {
            Expr::Sym(_) => 1,
            Expr::Val(_) => 1,
            Expr::Add(ts) => 2 * cost_sum(ts),
            Expr::Mul(_, a) => 2 * a.cost(),
            Expr::Div(a, _) => 3 * a.cost(),
        }
    }
}

/// The costs of `ts`, added up.
pub open spec fn cost_sum(ts: Seq<Expr>) -> int
    decreases ts, 0nat,
{
    if ts.len() == 0 {
        0
    } else {
        cost_sum(ts.drop_last()) + ts.last().cost()
    }
}

/// `-1`, `0` or `1` as `a` comes before, is, or comes after `b`: by variant
/// first (symbol, literal, sum, multiple, quotient), then by the fields in
/// their order, sums term by term with the shorter of two prefixes first.
pub open spec fn compare_spec(a: Expr, b: Expr) -> int
    decreases a, 0nat,
{
    match (a, b) {
        (Expr::Sym(x), Expr::Sym(y)) => sign(x as int - y as int),
        (Expr::Sym(_), _) => -1,
        (Expr::Val(_), Expr::Sym(_)) => 1,
        (Expr::Val(x), Expr::Val(y)) => sign(x - y),
        (Expr::Val(_), _) => -1,
        (Expr::Add(_), Expr::Sym(_)) => 1,
        (Expr::Add(_), Expr::Val(_)) => 1,
        (Expr::Add(x), Expr::Add(y)) => compare_from(x, y, 0),
        (Expr::Add(_), _) => -1,
        (Expr::Mul(p, x), Expr::Mul(q, y)) => if p != q {
            sign(p - q)
        } else {
            compare_spec(*x, *y)
        },
        (Expr::Mul(_, _), Expr::Div(_, _)) => -1,
        (Expr::Mul(_, _), _) => 1,
        (Expr::Div(x, p), Expr::Div(y, q)) => {
            let c = compare_spec(*x, *y);
            if c != 0 {
                c
            } else {
                sign(p - q)
            }
        },
        (Expr::Div(_, _), _) => 1,
    }
}

/// `compare_spec` on the sums `x` and `y`, from term `i` on.
pub open spec fn compare_from(x: Seq<Expr>, y: Seq<Expr>, i: int) -> int
    decreases x, x.len() - i,
{
    if i < 0 {
        0
    } else if i >= x.len() {
        if i >= y.len() {
            0
        } else {
            -1
        }
    } else if i >= y.len() {
        1
    } else {
        let c = compare_spec(x[i], y[i]);
        if c != 0 {
            c
        } else {
            compare_from(x, y, i + 1)
        }
    }
}

/// The sign of `x`.
pub open spec fn sign(x: int) -> int {
    if x < 0 {
        -1
    } else if x == 0 {
        0
    } else {
        1
    }
}

/// No tree has a negative cost.
pub proof fn lemma_cost_nonnegative(e: Expr)
    ensures
        e.cost() >= 0,
    decreases e, 1nat,
{
    match e {
        Expr::Add(ts) => lemma_cost_sum_nonnegative(ts),
        Expr::Mul(_, a) => lemma_cost_nonnegative(*a),
        Expr::Div(a, _) => lemma_cost_nonnegative(*a),
        _ => {},
    }
}

pub proof fn lemma_cost_sum_nonnegative(ts: Seq<Expr>)
    ensures
        cost_sum(ts) >= 0,
    decreases ts, 0nat,
{
    if ts.len() > 0 {
        lemma_cost_sum_nonnegative(ts.drop_last());
        lemma_cost_nonnegative(ts.last());
    }
}

/// `x`, or the largest `usize` where `x` is larger.
pub open spec fn capped(x: int) -> int {
    if x > usize::MAX {
        usize::MAX as int
    } else {
        x
    }
}

impl TDim {
    /// A copy of this dimension.
    pub fn duplicate(&self) -> (r: TDim)
        ensures
            r@ == self@,
        decreases self,
    {
        match self {
            TDim::Sym(c) => TDim::Sym(*c),
            TDim::Val(v) => TDim::Val(*v),
            TDim::Add(terms) => {
                let mut out: Vec<TDim> = Vec::new();
                let mut i: usize = 0;
                while i < terms.len()
                    invariant
                        0 <= i <= terms.len(),
                        forall|j: int| 0 <= j < terms.len() ==> decreases_to!(self => #[trigger] terms[j]),
                        views(out@) == views(terms@.take(i as int)),
                    decreases terms.len() - i,
                {
                    let t = terms[i].duplicate();
                    proof {
                        lemma_views_take(terms@, i as int);
                        lemma_views_push(out@, t);
                    }
                    out.push(t);
                    i += 1;
                }
                assert(terms@.take(i as int) =~= terms@);
                TDim::Add(out)
            },
            TDim::Mul(p, a) => TDim::Mul(*p, Box::new(a.duplicate())),
            TDim::Div(a, q) => TDim::Div(Box::new(a.duplicate()), *q),
        }
    }

    /// Whether the two dimensions are the same tree.
    pub fn same(&self, other: &TDim) -> (r: bool)
        ensures
            r == (self@ == other@),
        decreases self,
    {
        match (self, other) {
            (TDim::Sym(x), TDim::Sym(y)) => *x == *y,
            (TDim::Val(x), TDim::Val(y)) => *x == *y,
            (TDim::Add(xs), TDim::Add(ys)) => {
                proof {
                    lemma_views_len(xs@);
                    lemma_views_len(ys@);
                }
                if xs.len() != ys.len() {
                    return false;
                }
                let mut i: usize = 0;
                while i < xs.len()
                    invariant
                        0 <= i <= xs.len(),
                        xs.len() == ys.len(),
                        forall|j: int| 0 <= j < xs.len() ==> decreases_to!(self => #[trigger] xs[j]),
                        self@ == Expr::Add(views(xs@)),
                        other@ == Expr::Add(views(ys@)),
                        views(xs@).len() == xs.len(),
                        views(ys@).len() == ys.len(),
                        forall|j: int| 0 <= j < xs.len() ==> #[trigger] views(xs@)[j] == xs[j]@,
                        forall|j: int| 0 <= j < ys.len() ==> #[trigger] views(ys@)[j] == ys[j]@,
                        forall|j: int| 0 <= j < i ==> xs[j]@ == ys[j]@,
                    decreases xs.len() - i,
                {
                    if !xs[i].same(&ys[i]) {
                        assert(views(xs@)[i as int] != views(ys@)[i as int]);
                        return false;
                    }
                    i += 1;
                }
                assert(views(xs@) =~= views(ys@));
                true
            },
            (TDim::Mul(p, x), TDim::Mul(q, y)) => *p == *q && x.same(y),
            (TDim::Div(x, p), TDim::Div(y, q)) => *p == *q && x.same(y),
            _ => false,
        }
    }

    /// `-1`, `0` or `1` as this dimension comes before, is, or comes after
    /// `other` in the order of trees.
    pub fn compare(&self, other: &TDim) -> (r: i8)
        ensures
            r as int == compare_spec(self@, other@),
        decreases self,
    {
        match (self, other) {
            (TDim::Sym(x), TDim::Sym(y)) => sign_of(*x as i64 - *y as i64),
            (TDim::Sym(_), _) => -1,
            (TDim::Val(_), TDim::Sym(_)) => 1,
            (TDim::Val(x), TDim::Val(y)) => sign_of(*x as i64 - *y as i64),
            (TDim::Val(_), _) => -1,
            (TDim::Add(_), TDim::Sym(_)) => 1,
            (TDim::Add(_), TDim::Val(_)) => 1,
            (TDim::Add(xs), TDim::Add(ys)) => {
                proof {
                    lemma_views_len(xs@);
                    lemma_views_len(ys@);
                }
                let mut i: usize = 0;
                while i < xs.len() && i < ys.len()
                    invariant
                        0 <= i <= xs.len(),
                        i <= ys.len(),
                        forall|j: int| 0 <= j < xs.len() ==> decreases_to!(self => #[trigger] xs[j]),
                        self@ == Expr::Add(views(xs@)),
                        other@ == Expr::Add(views(ys@)),
                        views(xs@).len() == xs.len(),
                        views(ys@).len() == ys.len(),
                        forall|j: int| 0 <= j < xs.len() ==> #[trigger] views(xs@)[j] == xs[j]@,
                        forall|j: int| 0 <= j < ys.len() ==> #[trigger] views(ys@)[j] == ys[j]@,
                        compare_from(views(xs@), views(ys@), 0) == compare_from(
                            views(xs@),
                            views(ys@),
                            i as int,
                        ),
                    decreases xs.len() - i,
                {
                    let c = xs[i].compare(&ys[i]);
                    if c != 0 {
                        return c;
                    }
                    i += 1;
                }
                if i < xs.len() {
                    1
                } else if i < ys.len() {
                    -1
                } else {
                    0
                }
            },
            (TDim::Add(_), _) => -1,
            (TDim::Mul(p, x), TDim::Mul(q, y)) => {
                if *p != *q {
                    sign_of(*p as i64 - *q as i64)
                } else {
                    x.compare(y)
                }
            },
            (TDim::Mul(_, _), TDim::Div(_, _)) => -1,
            (TDim::Mul(_, _), _) => 1,
            (TDim::Div(x, p), TDim::Div(y, q)) => {
                let c = x.compare(y);
                if c != 0 {
                    c
                } else {
                    sign_of(*p as i64 - *q as i64)
                }
            },
            (TDim::Div(_, _), _) => 1,
        }
    }

    /// The cost of this dimension, or the largest `usize` where the cost is
    /// larger.
    pub fn cost(&self) -> (r: usize)
        ensures
            r as int == capped(self@.cost()),
        decreases self,
    {
        proof {
            lemma_cost_nonnegative(self@);
        }
        match self {
            TDim::Sym(_) => 1,
            TDim::Val(_) => 1,
            TDim::Add(terms) => {
                let mut sum: usize = 0;
                let mut i: usize = 0;
                while i < terms.len()
                    invariant
                        0 <= i <= terms.len(),
                        forall|j: int| 0 <= j < terms.len() ==> decreases_to!(self => #[trigger] terms[j]),
                        sum as int == capped(cost_sum(views(terms@.take(i as int)))),
                    decreases terms.len() - i,
                {
                    let c = terms[i].cost();
                    proof {
                        lemma_views_take(terms@, i as int);
                        lemma_cost_nonnegative(terms[i as int]@);
                        lemma_cost_sum_nonnegative(views(terms@.take(i as int)));
                        assert(views(terms@.take(i + 1)).drop_last() =~= views(
                            terms@.take(i as int),
                        ));
                    }
                    sum = sum.saturating_add(c);
                    i += 1;
                }
                assert(terms@.take(i as int) =~= terms@);
                twice(sum)
            },
            TDim::Mul(_, a) => {
                proof {
                    lemma_cost_nonnegative(a@);
                }
                twice(a.cost())
            },
            TDim::Div(a, _) => {
                proof {
                    lemma_cost_nonnegative(a@);
                }
                let c = a.cost();
                twice(c).saturating_add(c)
            },
        }
    }
}

/// The sign of `x` as a number.
fn sign_of(x: i64) -> (r: i8)
    ensures
        r as int == sign(x as int),
{
    if x < 0 {
        -1
    } else if x == 0 {
        0
    } else {
        1
    }
}

/// Twice `x`, or the largest `usize`.
fn twice(x: usize) -> (r: usize)
    ensures
        r as int == capped(2 * x),
{
    x.saturating_add(x)
}

} // verus!
