//! The integer that a dimension stands for, once its symbols are bound.

use vstd::prelude::*;
use crate::dim::tree::{TDim, Expr, views, lemma_views_len};
use crate::dim::simplify::{fits_i32, floor_div};

verus! {

/// Why a dimension has no integer value.
#[derive(Debug, Clone, Copy, PartialEq, Eq, Structural)]
pub enum DimError {
    /// This symbol is not bound.
    Unresolved(char),
    /// A sum or a product on the way leaves the `i32` range.
    Overflow,
    /// A divisor is zero.
    ZeroDivisor,
}

impl Expr {
    /// The value of the tree where `env` binds the symbols: sums and
    /// products within `i32`, quotients rounded down. The operands are
    /// taken in order and the first failure is the result.
    pub open spec fn eval(self, env: Map<char, int>) -> Result<int, DimError>
        decreases self, 1nat,
    {
        match self {
            Expr::Sym(c) => if env.contains_key(c) {
                Ok(env[c])
            } else {
                Err(DimError::Unresolved(c))
            },
            Expr::Val(v) => Ok(v),
            Expr::Add(ts) => eval_sum(ts, env, ts.len() as int),
            Expr::Mul(p, a) => match a.eval(env) {
                Ok(x) => if fits_i32(p * x) {
                    Ok(p * x)
                } else {
                    Err(DimError::Overflow)
                },
                Err(e) => Err(e),
            },
            Expr::Div(a, q) => match a.eval(env) {
                Ok(x) => if q <= 0 {
                    Err(DimError::ZeroDivisor)
                } else {
                    Ok(x / q)
                },
                Err(e) => Err(e),
            },
        }
    }
}

/// The sum of the values of the first `n` of `ts`.
pub open spec fn eval_sum(ts: Seq<Expr>, env: Map<char, int>, n: int) -> Result<int, DimError>
    decreases ts, n,
{
    if n <= 0 || n > ts.len() {
        Ok(0)
    } else {
        match eval_sum(ts, env, n - 1) {
            Ok(acc) => match ts[n - 1].eval(env) {
                Ok(x) => if fits_i32(acc + x) {
                    Ok(acc + x)
                } else {
                    Err(DimError::Overflow)
                },
                Err(e) => Err(e),
            },
            Err(e) => Err(e),
        }
    }
}

/// What the first binding of `c` among `values` from `i` on gives it.
pub open spec fn lookup(values: Seq<(char, i32)>, c: char, i: int) -> Option<i32>
    decreases values.len() - i,
{
    if i < 0 || i >= values.len() {
        None
    } else if values[i].0 == c {
        Some(values[i].1)
    } else {
        lookup(values, c, i + 1)
    }
}

/// The bindings that `values` lists, the first one of a symbol counting.
pub open spec fn bindings(values: Seq<(char, i32)>) -> Map<char, int> {
    Map::new(
        |c: char| lookup(values, c, 0).is_some(),
        |c: char| lookup(values, c, 0).unwrap() as int,
    )
}

/// Whether the result `r` of a computation is the value `v` of the model.
pub open spec fn agrees(r: Result<i32, DimError>, v: Result<int, DimError>) -> bool {
    match r {
        Ok(x) => v == Ok::<int, DimError>(x as int),
        Err(e) => v == Err::<int, DimError>(e),
    }
}

fn find(values: &Vec<(char, i32)>, c: char) -> (r: Option<i32>)
    ensures
        r == lookup(values@, c, 0),
{
    let mut i: usize = 0;
    while i < values.len()
        invariant
            0 <= i <= values.len(),
            lookup(values@, c, 0) == lookup(values@, c, i as int),
        decreases values.len() - i,
    {
        if values[i].0 == c {
            return Some(values[i].1);
        }
        i += 1;
    }
    None
}

impl TDim {
    /// The value of this dimension where `values` binds the symbols, the
    /// first binding of a symbol counting.
    pub fn eval_with(&self, values: &Vec<(char, i32)>) -> (r: Result<i32, DimError>)
        ensures
            agrees(r, self@.eval(bindings(values@))),
        decreases self,
    {
        match self {
            TDim::Sym(c) => match find(values, *c) {
                Some(v) => Ok(v),
                None => Err(DimError::Unresolved(*c)),
            },
            TDim::Val(v) => Ok(*v),
            TDim::Add(ts) => {
                proof {
                    lemma_views_len(ts@);
                }
                let mut acc: i32 = 0;
                let mut i: usize = 0;
                while i < ts.len()
                    invariant
                        0 <= i <= ts.len(),
                        forall|j: int| 0 <= j < ts.len() ==> decreases_to!(self => #[trigger] ts[j]),
                        self@ == Expr::Add(views(ts@)),
                        views(ts@).len() == ts.len(),
                        forall|j: int| 0 <= j < ts.len() ==> #[trigger] views(ts@)[j] == ts[j]@,
                        eval_sum(views(ts@), bindings(values@), i as int) == Ok::<int, DimError>(
                            acc as int,
                        ),
                    decreases ts.len() - i,
                {
                    match ts[i].eval_with(values) {
                        Ok(x) => match acc.checked_add(x) {
                            Some(n) => {
                                acc = n;
                            },
                            None => {
                                proof {
                                    lemma_eval_sum_fails(
                                        views(ts@),
                                        bindings(values@),
                                        i as int + 1,
                                        ts.len() as int,
                                    );
                                }
                                return Err(DimError::Overflow);
                            },
                        },
                        Err(e) => {
                            proof {
                                lemma_eval_sum_fails(
                                    views(ts@),
                                    bindings(values@),
                                    i as int + 1,
                                    ts.len() as int,
                                );
                            }
                            return Err(e);
                        },
                    }
                    i += 1;
                }
                Ok(acc)
            },
            TDim::Mul(p, a) => match a.eval_with(values) {
                Ok(x) => match p.checked_mul(x) {
                    Some(n) => Ok(n),
                    None => Err(DimError::Overflow),
                },
                Err(e) => Err(e),
            },
            TDim::Div(a, q) => match a.eval_with(values) {
                Ok(x) => if *q == 0 {
                    Err(DimError::ZeroDivisor)
                } else {
                    Ok(floor_div(x, *q))
                },
                Err(e) => Err(e),
            },
        }
    }

    /// The value of this dimension, which is there where the dimension
    /// holds no symbol.
    pub fn to_integer(&self) -> (r: Result<i32, DimError>)
        ensures
            agrees(r, self@.eval(Map::empty())),
    {
        let none: Vec<(char, i32)> = Vec::new();
        assert(bindings(none@) =~= Map::<char, int>::empty());
        self.eval_with(&none)
    }

    /// The value of this dimension for a stream of length `s`.
    pub fn eval(&self, s: i32) -> (r: Option<i32>)
        ensures
            match r {
                Some(v) => self@.eval(map!['S' => s as int]) == Ok::<int, DimError>(v as int),
                None => self@.eval(map!['S' => s as int]).is_err(),
            },
    {
        let stream: Vec<(char, i32)> = vec![('S', s)];
        proof {
            assert(stream@.len() == 1 && stream@[0] == ('S', s));
            assert forall|c: char| #[trigger]
                lookup(stream@, c, 0) == (if c == 'S' {
                    Some(s)
                } else {
                    None
                }) by {
                assert(lookup(stream@, c, 1).is_none());
            }
            assert(bindings(stream@) =~= map!['S' => s as int]);
        }
        match self.eval_with(&stream) {
            Ok(v) => Some(v),
            Err(_) => None,
        }
    }

    /// The value of this dimension where it has one.
    pub fn as_const(&self) -> (r: Option<i32>)
        ensures
            match r {
                Some(v) => self@.eval(Map::empty()) == Ok::<int, DimError>(v as int),
                None => self@.eval(Map::empty()).is_err(),
            },
    {
        match self.to_integer() {
            Ok(v) => Some(v),
            Err(_) => None,
        }
    }

    /// Whether this dimension has no value of its own: it depends on the
    /// stream.
    pub fn is_stream(&self) -> (r: bool)
        ensures
            r == self@.eval(Map::empty()).is_err(),
    {
        self.to_integer().is_err()
    }

    /// Whether the value of this dimension is one.
    pub fn is_one(&self) -> (r: bool)
        ensures
            r == (self@.eval(Map::empty()) == Ok::<int, DimError>(1)),
    {
        match self.as_const() {
            Some(v) => v == 1,
            None => false,
        }
    }
}

/// A sum that fails on its first `n` terms fails the same way on more.
pub proof fn lemma_eval_sum_fails(ts: Seq<Expr>, env: Map<char, int>, n: int, m: int)
    requires
        0 <= n <= m <= ts.len(),
        eval_sum(ts, env, n).is_err(),
    ensures
        eval_sum(ts, env, m) == eval_sum(ts, env, n),
    decreases m - n,
{
    if n < m {
        lemma_eval_sum_fails(ts, env, n, m - 1);
    }
}

} // verus!
