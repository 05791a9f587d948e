use tract::dim::{DimError, DimParseError, TDim};

fn s() -> TDim {
    TDim::Sym('S')
}

#[test]
fn simplify_flattens_and_collects() {
    let e = TDim::Add(vec![
        TDim::Add(vec![s(), TDim::Val(2)]),
        TDim::Mul(3, Box::new(s())),
        TDim::Val(0),
        TDim::Val(-2),
    ]);
    assert_eq!(e.simplify(), TDim::Mul(4, Box::new(s())));
}

#[test]
fn simplify_multiples() {
    assert_eq!(TDim::Mul(0, Box::new(s())).simplify(), TDim::Val(0));
    assert_eq!(TDim::Mul(1, Box::new(s())).simplify(), s());
    assert_eq!(TDim::Mul(3, Box::new(TDim::Val(5))).simplify(), TDim::Val(15));
}

#[test]
fn simplify_quotients() {
    assert_eq!(TDim::Div(Box::new(s()), 1).simplify(), s());
    assert_eq!(
        TDim::Div(Box::new(TDim::Div(Box::new(s()), 2)), 3).simplify(),
        TDim::Div(Box::new(s()), 6)
    );
    assert_eq!(TDim::Div(Box::new(TDim::Mul(4, Box::new(s()))), 2).simplify(), TDim::Mul(2, Box::new(s())));
    assert_eq!(TDim::Div(Box::new(TDim::Mul(2, Box::new(s()))), 4).simplify(), TDim::Div(Box::new(s()), 2));
    assert_eq!(
        TDim::Div(Box::new(TDim::Mul(4, Box::new(s()))), 6).simplify(),
        TDim::Div(Box::new(TDim::Mul(2, Box::new(s()))), 3)
    );
    assert_eq!(TDim::Div(Box::new(TDim::Val(7)), 2).simplify(), TDim::Val(3));
    assert_eq!(TDim::Div(Box::new(TDim::Val(-7)), 2).simplify(), TDim::Val(-4));
}

#[test]
fn simplify_keeps_what_would_overflow() {
    let big = TDim::Mul(i32::MAX, Box::new(TDim::Mul(2, Box::new(s()))));
    assert_eq!(big.clone().simplify(), big);
    let sum = TDim::Add(vec![TDim::Val(i32::MAX), TDim::Val(1)]);
    assert_eq!(sum.simplify(), TDim::Add(vec![TDim::Val(1), TDim::Val(i32::MAX)]));
}

#[test]
fn cost_of_forms() {
    assert_eq!(s().cost(), 1);
    assert_eq!(TDim::Val(3).cost(), 1);
    assert_eq!(TDim::Add(vec![s(), TDim::Val(1)]).cost(), 4);
    assert_eq!(TDim::Mul(2, Box::new(s())).cost(), 2);
    assert_eq!(TDim::Div(Box::new(TDim::Add(vec![s(), TDim::Val(1)])), 2).cost(), 12);
}

#[test]
fn wiggle_lifts_and_carries() {
    let e = TDim::Add(vec![TDim::Val(1), TDim::Div(Box::new(s()), 2)]);
    assert_eq!(
        e.wiggle(),
        vec![
            TDim::Div(Box::new(TDim::Add(vec![TDim::Mul(2, Box::new(TDim::Val(1))), s()])), 2),
            TDim::Add(vec![TDim::Val(1), TDim::Div(Box::new(s()), 2)]),
        ]
    );
    let q = TDim::Div(Box::new(TDim::Add(vec![TDim::Val(4), s()])), 2);
    assert_eq!(
        q.wiggle(),
        vec![
            TDim::Add(vec![TDim::Val(2), TDim::Div(Box::new(TDim::Add(vec![s()])), 2)]),
            TDim::Div(Box::new(TDim::Add(vec![TDim::Val(4), s()])), 2),
        ]
    );
    assert_eq!(s().wiggle(), vec![s()]);
}

#[test]
fn wiggle_takes_every_combination() {
    let half = TDim::Div(Box::new(TDim::Add(vec![TDim::Val(2), s()])), 2);
    let e = TDim::Add(vec![half.clone(), half]);
    assert_eq!(e.wiggle().len(), 7);
}

#[test]
fn gcd_and_div() {
    assert_eq!(TDim::Val(-6).gcd(), 6);
    assert_eq!(s().gcd(), 1);
    assert_eq!(TDim::Mul(4, Box::new(s())).gcd(), 4);
    assert_eq!(TDim::Add(vec![TDim::Val(6), TDim::Mul(4, Box::new(s()))]).gcd(), 2);
    assert_eq!(TDim::Div(Box::new(TDim::Mul(4, Box::new(s()))), 2).gcd(), 2);
    assert_eq!(TDim::Div(Box::new(TDim::Mul(4, Box::new(s()))), 3).gcd(), 1);
    assert_eq!(TDim::Val(6).div(2), TDim::Val(3));
    assert_eq!(TDim::Mul(4, Box::new(s())).div(4), s());
    assert_eq!(TDim::Mul(4, Box::new(s())).div(2), TDim::Mul(2, Box::new(s())));
    assert_eq!(TDim::Div(Box::new(s()), 2).div(3), TDim::Div(Box::new(s()), 6));
    assert_eq!(s().div(1), s());
}

#[test]
fn eval_binds_the_stream() {
    let e = TDim::Div(Box::new(TDim::Add(vec![s(), TDim::Val(3)])), 2);
    assert_eq!(e.eval(5), Some(4));
    assert_eq!(e.eval(-6), Some(-2));
    assert_eq!(e.to_integer(), Err(DimError::Unresolved('S')));
    assert_eq!(e.as_const(), None);
    assert!(e.is_stream());
    assert!(!TDim::Val(3).is_stream());
    assert!(TDim::Val(1).is_one());
    assert!(!TDim::Val(2).is_one());
    assert!(!s().is_one());
    assert_eq!(TDim::Val(7).as_const(), Some(7));
    assert_eq!(TDim::s(), s());
    assert_eq!(TDim::stream(), s());
}

#[test]
fn eval_fails_as_it_says() {
    assert_eq!(TDim::Sym('x').eval_with(&vec![('y', 1)]), Err(DimError::Unresolved('x')));
    assert_eq!(TDim::Sym('x').eval_with(&vec![('x', 1), ('x', 2)]), Ok(1));
    assert_eq!(TDim::Mul(2, Box::new(TDim::Val(i32::MAX))).to_integer(), Err(DimError::Overflow));
    assert_eq!(
        TDim::Add(vec![TDim::Val(i32::MAX), TDim::Val(1)]).to_integer(),
        Err(DimError::Overflow)
    );
    assert_eq!(TDim::Div(Box::new(TDim::Val(1)), 0).to_integer(), Err(DimError::ZeroDivisor));
    assert_eq!(TDim::Div(Box::new(TDim::Val(-1)), 2).to_integer(), Ok(-1));
}

#[test]
fn order_of_trees() {
    assert_eq!(s().compare(&TDim::Val(0)), -1);
    assert_eq!(TDim::Val(0).compare(&s()), 1);
    assert_eq!(TDim::Val(2).compare(&TDim::Val(2)), 0);
    assert_eq!(TDim::Add(vec![s()]).compare(&TDim::Add(vec![s(), s()])), -1);
    assert_eq!(TDim::Mul(2, Box::new(s())).compare(&TDim::Div(Box::new(s()), 2)), -1);
    assert_eq!(TDim::Mul(2, Box::new(s())).compare(&TDim::Mul(3, Box::new(s()))), -1);
    assert!(TDim::Mul(2, Box::new(s())) < TDim::Div(Box::new(s()), 2));
    assert!(s() < TDim::Val(0));
    assert!(s().same(&TDim::Sym('S')));
    assert!(!s().same(&TDim::Sym('T')));
}

#[test]
fn canonical_forms_of_equal_dimensions() {
    let a = s().plus(TDim::from(-1)).plus(TDim::from(1)).div_ceil(1);
    assert_eq!(a, s());
    let b = s().over(2).times(-4);
    assert_eq!(b.clone().over(1), b);
    assert_eq!(s().minus(s()), TDim::zero());
    assert!(TDim::zero().is_zero());
}

#[test]
fn reduce_is_the_same_twice() {
    let forms = vec![
        s().plus(TDim::from(23)).over(2).minus(TDim::from(1)),
        s().over(2).plus(TDim::from(1)),
        s().times(3).over(6),
        s().modulo(2),
    ];
    for f in forms {
        assert_eq!(f.clone().reduce(), f);
    }
}

#[test]
fn dimensions_as_they_are_written() {
    assert_eq!("S".parse::<TDim>(), Ok(s()));
    assert_eq!("3S".parse::<TDim>(), Ok(TDim::Mul(3, Box::new(s()))));
    assert_eq!("1S".parse::<TDim>(), Ok(s()));
    assert_eq!("0S".parse::<TDim>(), Ok(TDim::Val(0)));
    assert_eq!("12xS".parse::<TDim>(), Ok(TDim::Mul(12, Box::new(s()))));
    assert_eq!("42".parse::<TDim>(), Ok(TDim::Val(42)));
    assert_eq!("-42".parse::<TDim>(), Ok(TDim::Val(-42)));
    assert_eq!("+7".parse::<TDim>(), Ok(TDim::Val(7)));
    assert_eq!("-2147483648".parse::<TDim>(), Ok(TDim::Val(i32::MIN)));
    assert_eq!("2147483648".parse::<TDim>(), Err(DimParseError::TooLarge));
    assert_eq!("2147483648S".parse::<TDim>(), Err(DimParseError::TooLarge));
    assert_eq!("".parse::<TDim>(), Err(DimParseError::NoDigits));
    assert_eq!("-".parse::<TDim>(), Err(DimParseError::NoDigits));
    assert_eq!("-3S".parse::<TDim>(), Err(DimParseError::NoDigits));
    assert_eq!("xS".parse::<TDim>(), Err(DimParseError::NoDigits));
    assert_eq!("4x".parse::<TDim>(), Err(DimParseError::BadCharacter(1)));
    assert_eq!("x".parse::<TDim>(), Err(DimParseError::BadCharacter(0)));
    assert_eq!(TDim::parse("5S"), Ok(s().times(5)));
}
