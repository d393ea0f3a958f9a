use symalg::expr::Expression;
use symalg::rational::Rational;
use symalg::simplify::name_less;

fn constant(n: i32) -> Expression {
    Expression::Val(Rational::from_integer(n))
}

fn fraction(n: i32, d: i32) -> Expression {
    Expression::Val(Rational::new(n, d))
}

fn term(c: i32, name: &str) -> Expression {
    Expression::Var(Rational::from_integer(c), name.to_string())
}

fn sum(a: Expression, b: Expression) -> Expression {
    Expression::Add(Box::new(a), Box::new(b))
}

fn product(a: Expression, b: Expression) -> Expression {
    Expression::Mul(Box::new(a), Box::new(b))
}

fn inverse(a: Expression) -> Expression {
    Expression::Inv(Box::new(a))
}

#[test]
fn operators_only_build_trees() {
    assert_eq!(term(1, "x") + constant(2), sum(term(1, "x"), constant(2)));
    assert_eq!(term(1, "x") * constant(2), product(term(1, "x"), constant(2)));
    assert_eq!(
        term(1, "x") - constant(2),
        sum(term(1, "x"), product(constant(2), constant(-1)))
    );
    assert_eq!(
        term(1, "x") / constant(2),
        product(term(1, "x"), inverse(constant(2)))
    );
    assert_eq!(constant(1) + constant(1), sum(constant(1), constant(1)));
}

#[test]
fn builders_make_leaves() {
    assert_eq!(Expression::new_var("x"), term(1, "x"));
    assert_eq!(Expression::value(Rational::new(1, 2)), fraction(1, 2));
    assert_eq!(Expression::zero(), constant(0));
    assert_eq!(term(1, "x").inv(), inverse(term(1, "x")));
    let e = term(3, "x") * term(2, "y");
    assert_eq!(e.clone(), e);
}

#[test]
fn additive_cancellation() {
    let e = term(1, "x") + term(-1, "x");
    assert_eq!(e.simplify(), constant(0));
    assert!(e.is_zero());
}

#[test]
fn coefficient_folding() {
    let e = term(1, "x") + term(1, "x");
    assert_eq!(e.simplify(), term(2, "x"));
}

#[test]
fn constants_fold() {
    assert_eq!((constant(2) + constant(3)).simplify(), constant(5));
    assert_eq!((constant(2) * constant(3)).simplify(), constant(6));
    assert_eq!((fraction(1, 2) + fraction(1, 3)).simplify(), fraction(5, 6));
    assert_eq!((fraction(2, 3) * fraction(3, 4)).simplify(), fraction(1, 2));
}

#[test]
fn constant_times_variable_folds_either_way() {
    assert_eq!((constant(3) * term(2, "x")).simplify(), term(6, "x"));
    assert_eq!((term(2, "x") * constant(3)).simplify(), term(6, "x"));
    assert_eq!((term(2, "x") * constant(0)).simplify(), constant(0));
}

#[test]
fn inverse_of_a_constant_is_its_reciprocal() {
    assert_eq!(inverse(fraction(2, 3)).simplify(), fraction(3, 2));
    assert_eq!(inverse(constant(-4)).simplify(), fraction(-1, 4));
    assert_eq!(inverse(constant(1) + constant(1)).simplify(), fraction(1, 2));
}

#[test]
fn inverse_of_a_variable_stays() {
    assert_eq!(inverse(term(1, "x")).simplify(), inverse(term(1, "x")));
    assert_eq!(
        (constant(2) * inverse(term(1, "x"))).simplify(),
        product(constant(2), inverse(term(1, "x")))
    );
}

#[test]
fn constants_distribute() {
    let (p, q, r) = (Rational::new(1, 2), Rational::new(1, 3), Rational::new(3, 5));
    let e = (Expression::Val(p) + Expression::Val(q)) * Expression::Val(r);
    assert_eq!(e.simplify(), Expression::Val((p + q) * r));
    assert_eq!(e.simplify(), fraction(1, 2));
}

#[test]
fn sum_with_a_variable_distributes() {
    let (q, r) = (Rational::new(2, 3), Rational::new(3, 4));
    let e = (term(1, "x") + Expression::Val(q)) * Expression::Val(r);
    let expected = sum(Expression::Var(r, "x".to_string()), Expression::Val(q * r));
    assert_eq!(e.simplify(), expected);
    assert_eq!(e.simplify(), expected.simplify());
    assert_eq!(e.simplify().to_string(), "3/4x+1/2");
}

#[test]
fn distribution_by_zero_leaves_zero() {
    let e = (term(1, "x") + constant(5)) * constant(0);
    assert_eq!(e.simplify(), constant(0));
    assert!(e.is_zero());
}

#[test]
fn sum_on_the_right_distributes_too() {
    let e = constant(2) * (term(1, "x") + constant(3));
    assert_eq!(e.simplify(), sum(term(2, "x"), constant(6)));
    let f = term(1, "y") * (term(1, "x") + constant(3));
    assert_eq!(
        f.simplify(),
        sum(product(term(1, "x"), term(1, "y")), term(3, "y"))
    );
}

#[test]
fn product_of_sums_multiplies_out() {
    // The left sum is multiplied out first, each of its terms with the
    // right sum; there the term of the right sum becomes the left factor.
    let e = (term(1, "x") + constant(1)) * (term(1, "y") + constant(2));
    let expected = sum(
        sum(sum(product(term(1, "y"), term(1, "x")), term(2, "x")), term(1, "y")),
        constant(2),
    );
    assert_eq!(e.simplify(), expected);
}

#[test]
fn names_come_out_in_ascending_order() {
    let e = term(1, "c") + term(2, "a") + constant(7) + term(3, "b") + term(4, "ab");
    assert_eq!(e.simplify().to_string(), "2a+4ab+3b+c+7");
    let f = term(1, "b") + term(1, "B") + term(1, "a1") + term(1, "a");
    assert_eq!(f.simplify().to_string(), "B+a+a1+b");
}

#[test]
fn nested_sums_are_flattened() {
    let e = sum(
        sum(term(1, "x"), constant(1)),
        sum(constant(2), sum(term(2, "x"), term(1, "y"))),
    );
    assert_eq!(e.simplify(), sum(sum(term(3, "x"), term(1, "y")), constant(3)));
}

#[test]
fn irreducible_terms_stay_in_front_in_their_order() {
    let xy = product(term(1, "x"), term(1, "y"));
    let inv = inverse(term(1, "z"));
    let e = constant(1) + xy.clone() + term(1, "a") + inv.clone() + constant(2);
    assert_eq!(e.simplify(), sum(sum(sum(xy, inv), term(1, "a")), constant(3)));
}

#[test]
fn equal_irreducible_terms_are_not_combined() {
    let xy = product(term(1, "x"), term(1, "y"));
    let e = xy.clone() - xy.clone();
    assert!(!e.is_zero());
    assert_eq!(
        e.simplify(),
        sum(xy.clone(), product(product(term(1, "x"), term(1, "y")), constant(-1)))
    );
}

#[test]
fn zero_test_is_conservative() {
    assert!(!(term(1, "x") * term(1, "y")).is_zero());
    assert!(!term(1, "x").is_zero());
    assert!(!inverse(term(1, "x")).is_zero());
    assert!(!constant(3).is_zero());
    assert!(constant(0).is_zero());
    assert!((constant(2) - constant(2)).is_zero());
    assert!(term(0, "x").is_zero());
}

#[test]
fn simplify_is_idempotent() {
    let cases = vec![
        constant(0),
        term(1, "x") + term(-1, "x"),
        (term(1, "x") + constant(1)) * (term(1, "y") + constant(2)),
        term(1, "c") + term(2, "a") + constant(7) + term(3, "b"),
        inverse(term(1, "x") + constant(1)) * term(2, "y") + fraction(1, 2),
        (term(1, "x") * term(1, "y") + constant(1)) * (constant(3) / term(1, "z")),
        inverse(inverse(constant(5))) - term(1, "q") / constant(3),
    ];
    for e in cases {
        let once = e.simplify();
        assert_eq!(once.simplify(), once);
        assert_eq!(once.rewrite(), once);
    }
}

#[test]
fn rewrite_folds_but_does_not_collect() {
    let e = term(1, "x") + term(1, "x") + (constant(1) + constant(2));
    assert_eq!(e.rewrite(), sum(sum(term(1, "x"), term(1, "x")), constant(3)));
    assert_eq!(e.rewrite().collect(), sum(term(2, "x"), constant(3)));
}

#[test]
fn name_order_is_lexicographic() {
    assert!(name_less("a", "b"));
    assert!(!name_less("b", "a"));
    assert!(!name_less("a", "a"));
    assert!(name_less("", "a"));
    assert!(!name_less("a", ""));
    assert!(!name_less("", ""));
    assert!(name_less("a", "ab"));
    assert!(name_less("ab", "b"));
    assert!(name_less("Z", "a"));
    assert!(name_less("z", "é"));
}

#[test]
fn try_simplify_is_none_where_a_coefficient_leaves_32_bits() {
    let e = constant(i32::MAX) + constant(1);
    assert_eq!(e.try_simplify(), None);
    assert_eq!(e.try_is_zero(), None);
    assert_eq!(e.try_rewrite(), None);
    let f = term(65536, "x") * constant(65536);
    assert_eq!(f.try_simplify(), None);
    let g = term(i32::MAX, "x") + term(1, "x");
    assert_eq!(g.try_rewrite(), Some(g.clone()));
    assert_eq!(g.try_simplify(), None);
    let h = constant(i32::MAX) + term(1, "x") + constant(1);
    assert_eq!(h.try_rewrite(), Some(h.clone()));
    assert_eq!(h.clone().try_collect(), None);
}

#[test]
fn try_simplify_is_none_for_the_inverse_of_zero() {
    assert_eq!(inverse(constant(0)).try_simplify(), None);
    assert_eq!(inverse(constant(1) - constant(1)).try_simplify(), None);
    assert_eq!((term(1, "x") / (constant(2) * constant(0))).try_simplify(), None);
    // A sum that only collection shows to be zero is inverted as it stands.
    let e = inverse(term(1, "x") - term(1, "x"));
    assert_eq!(
        e.try_simplify(),
        Some(inverse(sum(term(1, "x"), term(-1, "x"))))
    );
}

#[test]
fn try_simplify_agrees_with_simplify() {
    let e = (term(1, "x") + constant(1)) * (term(1, "y") + constant(2));
    assert_eq!(e.try_simplify(), Some(e.simplify()));
    assert_eq!(e.try_is_zero(), Some(false));
    assert_eq!((term(2, "x") - term(2, "x")).try_is_zero(), Some(true));
}

#[test]
fn well_formed_expressions_have_well_formed_coefficients() {
    let good = (term(1, "x") + fraction(1, 2)) * inverse(term(3, "y"));
    assert!(good.is_well_formed());
    let bad = Expression::Val(Rational { numer: 2, denom: 4 });
    assert!(!bad.is_well_formed());
    assert!(!(term(1, "x") + inverse(bad)).is_well_formed());
}
