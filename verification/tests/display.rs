use symalg::expr::Expression;
use symalg::rational::Rational;

fn term(c: i32, name: &str) -> Expression {
    Expression::Var(Rational::from_integer(c), name.to_string())
}

#[test]
fn display_rules() {
    assert_eq!(term(1, "x").to_string(), "x");
    assert_eq!(term(-1, "x").to_string(), "-x");
    assert_eq!(term(2, "x").to_string(), "2x");
    assert_eq!(Expression::Val(Rational::from_integer(0)).to_string(), "0");
}

#[test]
fn display_of_fractions_and_negatives() {
    assert_eq!(Expression::Val(Rational::new(3, 4)).to_string(), "3/4");
    assert_eq!(Expression::Val(Rational::from_integer(-5)).to_string(), "-5");
    assert_eq!(Expression::Var(Rational::new(-3, 4), "x".to_string()).to_string(), "-3/4x");
    assert_eq!(term(0, "x").to_string(), "0x");
    assert_eq!(term(-2, "long_name").to_string(), "-2long_name");
}

#[test]
fn display_of_operators_has_no_parentheses() {
    let e = (term(1, "x") + term(2, "y")) * term(-1, "z");
    assert_eq!(e.to_string(), "x+2y*-z");
    let f = Expression::Val(Rational::from_integer(1)) / (term(1, "x") + term(1, "y"));
    assert_eq!(f.to_string(), "1*1/x+y");
    let g = term(1, "x") - term(1, "y");
    assert_eq!(g.to_string(), "x+y*-1");
}
