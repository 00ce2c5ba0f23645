use dice_race::expr::Expr;
use dice_race::rat::Rat;

fn linear(x: Rat, a: Rat) -> Expr {
    Expr::self_consistent(x)
        .add(Expr::constant(a))
        .expect("affine addition stays in range")
}

fn rat(n: i64, d: i64) -> Rat {
    Rat::new(n, d)
}

#[test]
fn eval_linear() {
    let v = Expr::constant(rat(3456, 1000)).eval(&rat(-3, 1)).unwrap();
    assert_eq!(v.eq_val(rat(3456, 1000)), Some(true));
    let v = Expr::self_consistent(rat(1, 1)).eval(&rat(3, 1)).unwrap();
    assert_eq!(v.eq_val(rat(3, 1)), Some(true));
    let v = linear(rat(15, 10), rat(1, 1)).eval(&rat(10, 1)).unwrap();
    assert_eq!(v.eq_val(rat(16, 1)), Some(true));
    let v = linear(rat(-5, 10), rat(2, 1)).eval(&rat(3, 1)).unwrap();
    assert_eq!(v.eq_val(rat(5, 10)), Some(true));
}

#[test]
fn eval_min() {
    let m = linear(rat(2, 1), rat(-1, 1)).min(linear(rat(-5, 10), rat(4, 1)));
    assert_eq!(m.eval(&rat(0, 1)).unwrap().eq_val(rat(-1, 1)), Some(true));
    assert_eq!(m.eval(&rat(1, 1)).unwrap().eq_val(rat(1, 1)), Some(true));
    assert_eq!(m.eval(&rat(2, 1)).unwrap().eq_val(rat(3, 1)), Some(true));
    assert_eq!(m.eval(&rat(3, 1)).unwrap().eq_val(rat(25, 10)), Some(true));
}

#[test]
fn bisect() {
    let f = linear(rat(5, 10), rat(5, 10)).min(linear(rat(0, 1), rat(2, 1)));
    let g = linear(rat(4, 10), rat(1, 1)).min(linear(rat(0, 1), rat(3, 1)));
    let h = linear(rat(6, 10), rat(2, 1)).min(linear(rat(0, 1), rat(15, 10)));
    let e = f.add(g).unwrap().add(h).unwrap().div(rat(3, 1)).unwrap();
    let x = e.bisect().unwrap();
    let residual = e.eval(&x).unwrap().sub(x).unwrap().abs();
    assert_eq!(residual.lt(rat(1, 1_000_000)), Some(true));
}

#[test]
fn add_is_pointwise_sum() {
    let e1 = linear(rat(1, 3), rat(7, 2)).min(Expr::constant(rat(9, 4)));
    let e2 = linear(rat(-2, 7), rat(1, 5));
    let x = rat(13, 6);
    let lhs = e1.add(e2).unwrap().eval(&x).unwrap();
    let e1 = linear(rat(1, 3), rat(7, 2)).min(Expr::constant(rat(9, 4)));
    let e2 = linear(rat(-2, 7), rat(1, 5));
    let rhs = e1.eval(&x).unwrap().add(e2.eval(&x).unwrap()).unwrap();
    assert_eq!(lhs.eq_val(rhs), Some(true));
}

#[test]
fn scale_and_divide_are_pointwise() {
    let x = rat(3, 2);
    let s = rat(7, 4);
    let e = linear(rat(1, 2), rat(1, 3)).min(Expr::constant(rat(2, 1)));
    let scaled = e.mul(s).unwrap().eval(&x).unwrap();
    let e = linear(rat(1, 2), rat(1, 3)).min(Expr::constant(rat(2, 1)));
    let direct = s.mul(e.eval(&x).unwrap()).unwrap();
    assert_eq!(scaled.eq_val(direct), Some(true));

    let e = linear(rat(1, 2), rat(1, 3)).min(Expr::constant(rat(2, 1)));
    let divided = e.div(s).unwrap().eval(&x).unwrap();
    let e = linear(rat(1, 2), rat(1, 3)).min(Expr::constant(rat(2, 1)));
    let direct = e.eval(&x).unwrap().div(s).unwrap();
    assert_eq!(divided.eq_val(direct), Some(true));
}

#[test]
fn bisect_constant_equation_returns_the_constant() {
    // eval(x) = 2 crosses y = x exactly at 2; bisection closes on it.
    let e = Expr::constant(rat(2, 1));
    let x = e.bisect().unwrap();
    let residual = x.sub(rat(2, 1)).unwrap().abs();
    assert_eq!(residual.lt(rat(1, 1_000_000)), Some(true));
}

#[test]
fn bisect_without_positive_crossing_is_none() {
    // eval(x) = 0 stays below the line for every positive x, so the
    // downward bracket never closes and bisection signals failure.
    let e = Expr::constant(Rat::from_int(0));
    assert!(e.bisect().is_none());
}

#[test]
fn rat_arithmetic_exact() {
    assert_eq!(rat(1, 3).add(rat(1, 6)).unwrap().eq_val(rat(1, 2)), Some(true));
    assert_eq!(rat(2, 3).mul(rat(3, 4)).unwrap().eq_val(rat(1, 2)), Some(true));
    assert_eq!(rat(1, 2).sub(rat(3, 4)).unwrap().eq_val(rat(-1, 4)), Some(true));
    assert_eq!(rat(5, 6).div(rat(5, 3)).unwrap().eq_val(rat(1, 2)), Some(true));
    assert_eq!(rat(-7, 2).abs().eq_val(rat(7, 2)), Some(true));
    assert_eq!(rat(1, 3).le(rat(1, 2)), Some(true));
    assert_eq!(rat(1, 2).lt(rat(1, 3)), Some(false));
    assert_eq!(Rat::from_int(-4).neg().eq_val(rat(4, 1)), Some(true));
}

#[test]
fn rat_overflow_yields_none() {
    let big = Rat::new(i64::MAX, 1);
    let big2 = big.mul(big).expect("the square of i64::MAX still fits in i128");
    assert!(big2.mul(big).is_none());
    assert!(big2.mul(big2).is_none());
}
