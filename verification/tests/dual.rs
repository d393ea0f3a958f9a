use symalg::dual::Dual;
use symalg::rational::Rational;

#[test]
fn new_holds_value_and_derivative() {
    let r = Dual::new(3, 4);
    assert_eq!((r.x, r.d), (3, 4));
}

#[test]
fn value_and_variable_take_their_derivative() {
    let c = Dual::value(5.0, 0.0);
    assert_eq!((c.x, c.d), (5.0, 0.0));
    let v = Dual::variable(5.0, 1.0);
    assert_eq!((v.x, v.d), (5.0, 1.0));
}

#[test]
fn sum_and_difference_rules() {
    let r = Dual::new(3, 1) + Dual::new(4, 2);
    assert_eq!((r.x, r.d), (7, 3));
    let s = Dual::new(3, 1) - Dual::new(4, 2);
    assert_eq!((s.x, s.d), (-1, -1));
}

#[test]
fn product_rule() {
    let r = Dual::new(3, 1) * Dual::new(4, 2);
    assert_eq!((r.x, r.d), (12, 10));
}

#[test]
fn quotient_rule() {
    let r = Dual::new(6.0, 1.0) / Dual::new(2.0, 3.0);
    assert_eq!((r.x, r.d), (3.0, -4.0));
}

#[test]
fn negation() {
    let r = -Dual::new(3, -1);
    assert_eq!((r.x, r.d), (-3, 1));
}

#[test]
fn derivative_of_a_quotient_of_sums() {
    // (x + 1) / 2 at x = 3 is 2, with derivative 1/2.
    let x = Dual::variable(3.0, 1.0);
    let r = (x + Dual::value(1.0, 0.0)) / Dual::value(2.0, 0.0);
    assert_eq!((r.x, r.d), (2.0, 0.5));
    assert_eq!(format!("{:?}", r), "Dual { x: 2.0, d: 0.5 }");
}

#[test]
fn dual_numbers_over_rationals() {
    // x * x + x at x = 1/2 is 3/4, with derivative 2.
    let x = || Dual::variable(Rational::new(1, 2), Rational::one());
    let r = x() * x() + x();
    assert_eq!((r.x, r.d), (Rational::new(3, 4), Rational::from_integer(2)));
}
