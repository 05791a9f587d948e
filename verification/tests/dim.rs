use tract::dim::TDim;
use tract::dim::TDim::{Add, Div, Mul, Sym, Val};

fn s() -> TDim {
    TDim::Sym('S')
}

fn plus(a: TDim, b: i32) -> TDim {
    a.plus(TDim::from(b))
}

fn minus(a: TDim, b: i32) -> TDim {
    a.minus(TDim::from(b))
}

fn neg(a: &TDim) -> TDim {
    mul(-1, a)
}

fn add(a: &TDim, b: &TDim) -> TDim {
    Add(vec![a.clone(), b.clone()])
}

fn mul(a: i32, b: &TDim) -> TDim {
    Mul(a, Box::new(b.clone()))
}

fn div(a: &TDim, b: u32) -> TDim {
    Div(Box::new(a.clone()), b)
}

#[test]
fn reduce_add() {
    assert_eq!(add(&Sym('S'), &neg(&Sym('S'))).reduce(), Val(0))
}

#[test]
fn reduce_neg_mul() {
    assert_eq!(neg(&mul(2, &Sym('S'))).reduce(), mul(-2, &Sym('S')))
}

#[test]
fn reduce_cplx_ex_2() {
    assert_eq!(
        add(
            &add(&Val(-4), &mul(-2, &div(&Sym('S'), 4))),
            &mul(-2, &mul(-1, &div(&Sym('S'), 4)))
        )
        .reduce(),
        Val(-4)
    )
}

#[test]
fn reduce_cplx_ex_3() {
    assert_eq!(div(&Mul(1, Box::new(Mul(4, Box::new(Sym('S'))))), 4).reduce(), Sym('S'))
}

#[test]
fn reduce_mul_mul_1() {
    assert_eq!(mul(3, &mul(2, &Sym('S'))).reduce(), mul(6, &Sym('S')))
}

#[test]
fn reduce_mul_mul_2() {
    assert_eq!(mul(-2, &mul(-1, &Sym('S'))).reduce(), mul(2, &Sym('S')))
}

#[test]
fn reduce_mul_div_1() {
    assert_eq!(mul(2, &div(&mul(-1, &Sym('S')), 3)).reduce(), mul(-2, &div(&Sym('S'), 3)))
}

#[test]
fn const_and_add() {
    let e: TDim = 2i32.into();
    assert_eq!(e.eval_with(&vec![]).unwrap(), 2);
    let e: TDim = plus(TDim::from(2), 3);
    assert_eq!(e.eval_with(&vec![]).unwrap(), 5);
    let e: TDim = minus(TDim::from(2), 3);
    assert_eq!(e.eval_with(&vec![]).unwrap(), -1);
    let e: TDim = TDim::from(2).negated();
    assert_eq!(e.eval_with(&vec![]).unwrap(), -2);
}

#[test]
fn substitution() {
    let e = TDim::Sym('x');
    assert_eq!(e.eval_with(&vec![('x', 2)]).unwrap(), 2);
    let e = plus(TDim::Sym('x'), 3);
    assert_eq!(e.eval_with(&vec![('x', 2)]).unwrap(), 5);
}

#[test]
fn reduce_adds() {
    let e: TDim = plus(TDim::from(2), 1);
    assert_eq!(e, TDim::from(3));
    let e: TDim = plus(TDim::from(3), 2);
    assert_eq!(e, TDim::from(5));
    let e: TDim = plus(TDim::from(3), 0);
    assert_eq!(e, TDim::from(3));
    let e: TDim = plus(plus(TDim::from(3), 2), 1);
    assert_eq!(e, TDim::from(6));
}

#[test]
fn reduce_divs() {
    let e: TDim = TDim::from(2).over(1);
    assert_eq!(e, TDim::from(2));
    let e: TDim = TDim::from(3).over(2);
    assert_eq!(e, TDim::from(1));
    let e: TDim = TDim::from(3).modulo(2);
    assert_eq!(e, TDim::from(1));
    let e: TDim = TDim::from(5).over(2);
    assert_eq!(e, TDim::from(2));
    let e: TDim = TDim::from(5).modulo(2);
    assert_eq!(e, TDim::from(1));
}

#[test]
fn reduce_div_bug_0() {
    let e1: TDim = minus(plus(s(), 23).over(2), 1);
    let e2: TDim = plus(s(), 21).over(2);
    assert_eq!(e1, e2);
}

#[test]
fn reduce_div_bug_1() {
    let e1: TDim = plus(s(), -1).over(2);
    let e2: TDim = minus(plus(s(), 1).over(2), 1);
    assert_eq!(e1, e2);
}

#[test]
fn reduce_div_bug_2() {
    let e1: TDim = plus(plus(s(), 1).over(2), 1).over(2);
    let e2: TDim = plus(s(), 3).over(4);
    assert_eq!(e1, e2);
}

#[test]
fn reduce_div_bug_3() {
    let e1: TDim = s().over(2).times(-4);
    let e2: TDim = s().over(2).times(-4).over(1);
    assert_eq!(e1, e2);
}

#[test]
fn reduce_mul_div() {
    let e: TDim = s().times(2).over(2);
    assert_eq!(e, TDim::Sym('S'));
}

#[test]
fn reduce_div_mul() {
    let e: TDim = s().over(2).times(2);
    assert_ne!(e, TDim::Sym('S'));
}

#[test]
fn reduce_add_div() {
    let e: TDim = plus(s().over(2), 1);
    assert_eq!(e, plus(s(), 2).over(2));
}

#[test]
fn reduce_neg_mul_() {
    let e: TDim = TDim::from(1).minus(s().times(2));
    assert_eq!(e, TDim::from(1).plus(s().times(-2)));
}

#[test]
fn reduce_add_rem_1() {
    assert_eq!(plus(s(), 4).modulo(2), s().modulo(2));
}

#[test]
fn reduce_add_rem_2() {
    assert_eq!(minus(s(), 4).modulo(2), s().modulo(2));
}

#[test]
fn reduce_rem_div() {
    let e: TDim = s().modulo(2).over(2);
    assert_eq!(e, TDim::from(0));
}

#[test]
fn conv2d_ex_1() {
    let e = plus(minus(TDim::from(1), 1), 1).div_ceil(1);
    assert_eq!(e, TDim::from(1));
}

#[test]
fn conv2d_ex_2() {
    let e = plus(minus(s(), 3), 1).div_ceil(1);
    assert_eq!(e, plus(s(), -2));
}
