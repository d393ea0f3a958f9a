//! The value of an expression under an assignment of numbers to names.
//!
//! Simplification keeps the value. So the zero test is sound: what it takes
//! for zero is zero under every assignment. On expressions whose canonical
//! form keeps no product and no inverse it is complete as well.
//!
//! Values are real numbers. Products and quotients of reals are kept
//! behind the two functions [`times`] and [`over`], whose laws are proved
//! once, each on its own.

use crate::canonical::{
    all_terms, coefficient_of, is_canonical, lemma_constant_total_wf, lemma_flatten_terms,
    lemma_name_lt_irreflexive, lemma_rank, lemma_rewrite_is_rewritten,
    lemma_simplify_is_canonical, lemma_variable_totals_ascending, name_of, precedes, totals_wf,
};
use crate::expr::ExprView;
use crate::gcd::{
    abs, gcd, lemma_abs_quotient, lemma_divides_iff_multiple, lemma_gcd_symmetric,
    lemma_multiple_divides, lemma_quotients_coprime,
};
use crate::rational::{
    Rational, fits, lemma_lowest_terms, lowest_terms, product, reciprocal, reduced, sum,
};
use crate::simplify::{
    Total, accumulate, constant_term, constant_total, monomials, others, rank, sum_of,
    variable_totals,
};
use vstd::prelude::*;

verus! {

/// The product of two real numbers.
#[verifier::opaque]
pub open spec fn times(a: real, b: real) -> real {
    a * b
}

/// The quotient of two real numbers.
#[verifier::opaque]
pub open spec fn over(a: real, b: real) -> real {
    a / b
}

/// The number that a rational stands for.
pub open spec fn value(r: Rational) -> real {
    over(r.numer as real, r.denom as real)
}

/// Multiplication is associative.
pub proof fn lemma_times_associative(a: real, b: real, c: real)
    ensures
        times(times(a, b), c) == times(a, times(b, c)),
{
    reveal(times);
    assert((a * b) * c == a * (b * c)) by (nonlinear_arith);
}

/// Multiplication is commutative.
pub proof fn lemma_times_commutative(a: real, b: real)
    ensures
        times(a, b) == times(b, a),
{
    reveal(times);
    assert(a * b == b * a) by (nonlinear_arith);
}

/// Multiplication distributes over addition.
pub proof fn lemma_times_distributive(a: real, b: real, c: real)
    ensures
        times(a + b, c) == times(a, c) + times(b, c),
{
    reveal(times);
    assert((a + b) * c == a * c + b * c) by (nonlinear_arith);
}

/// In a product of two products, the inner factors can change places.
pub proof fn lemma_times_interchange(a: real, b: real, c: real, d: real)
    ensures
        times(times(a, b), times(c, d)) == times(times(a, c), times(b, d)),
{
    reveal(times);
    assert((a * b) * (c * d) == (a * c) * (b * d)) by (nonlinear_arith);
}

/// Zero and one in a product.
pub proof fn lemma_times_units(a: real)
    ensures
        times(0real, a) == 0real,
        times(a, 0real) == 0real,
        times(1real, a) == a,
        times(a, 1real) == a,
{
    reveal(times);
}

/// A factor other than zero can be cancelled.
pub proof fn lemma_times_cancel(a: real, b: real, c: real)
    requires
        c != 0real,
        times(a, c) == times(b, c),
    ensures
        a == b,
{
    reveal(times);
    assert(a == b) by (nonlinear_arith)
        requires
            c != 0real,
            a * c == b * c,
    ;
}

/// A quotient times its divisor is the dividend, and nothing else is.
pub proof fn lemma_over_times(v: real, a: real, b: real)
    requires
        b != 0real,
    ensures
        v == over(a, b) <==> times(v, b) == a,
{
    assert(times(over(a, b), b) == a) by {
        reveal(times);
        reveal(over);
        assert((a / b) * b == a) by (nonlinear_arith)
            requires
                b != 0real,
        ;
    }
    if times(v, b) == a {
        lemma_times_cancel(v, over(a, b), b);
    }
}

/// The real number of a product of integers is the product of their reals.
pub proof fn lemma_real_product(a: int, b: int)
    ensures
        (a * b) as real == times(a as real, b as real),
{
    reveal(times);
    assert((a * b) as real == (a as real) * (b as real)) by (nonlinear_arith);
}

/// The real number `n / d`.
pub open spec fn quotient(n: int, d: int) -> real {
    over(n as real, d as real)
}

/// A quotient of integers times its denominator is its numerator, and
/// nothing else is.
pub proof fn lemma_quotient(v: real, n: int, d: int)
    requires
        d != 0,
    ensures
        v == quotient(n, d) <==> times(v, d as real) == n as real,
{
    lemma_over_times(v, n as real, d as real);
}

/// Two fractions that agree crosswise are the same number.
pub proof fn lemma_quotients_equal(a: int, b: int, c: int, d: int)
    requires
        b != 0,
        d != 0,
        a * d == c * b,
    ensures
        quotient(a, b) == quotient(c, d),
{
    let v = quotient(a, b);
    let (ar, br, cr, dr) = (a as real, b as real, c as real, d as real);
    lemma_quotient(v, a, b);
    lemma_real_product(a, d);
    lemma_real_product(c, b);
    lemma_times_associative(v, dr, br);
    lemma_times_commutative(dr, br);
    lemma_times_associative(v, br, dr);
    lemma_times_cancel(times(v, dr), cr, br);
    lemma_quotient(v, c, d);
}

/// Reducing a fraction to lowest terms does not change its number.
pub proof fn lemma_value_reduced(n: int, d: int)
    requires
        d > 0,
        fits(n),
        fits(d),
    ensures
        value(reduced(n, d)) == quotient(n, d),
{
    let g = gcd(abs(n), abs(d)) as int;
    lemma_lowest_terms(n, d);
    lemma_quotients_coprime(abs(n), abs(d));
    lemma_abs_quotient(n, g);
    lemma_abs_quotient(d, g);
    let (p, q) = lowest_terms(n, d);
    assert(p * d == n * q) by (nonlinear_arith)
        requires
            n == g * p,
            d == g * q,
    ;
    lemma_quotients_equal(p, q, n, d);
}

/// The number of a sum is the sum of the numbers.
pub proof fn lemma_value_sum(a: Rational, b: Rational)
    requires
        sum(a, b) is Some,
    ensures
        value(sum(a, b).unwrap()) == value(a) + value(b),
{
    let (an, ad, bn, bd) = (a.numer as int, a.denom as int, b.numer as int, b.denom as int);
    let g = gcd(ad as nat, bd as nat) as int;
    let l = ad / g * bd;
    let ka = l / ad;
    let kb = l / bd;
    lemma_quotients_coprime(ad as nat, bd as nat);
    lemma_divides_iff_multiple(ad, g);
    lemma_divides_iff_multiple(bd, g);
    assert(l == ad * (bd / g) && l == bd * (ad / g) && l > 0) by (nonlinear_arith)
        requires
            l == (ad / g) * bd,
            ad == g * (ad / g),
            bd == g * (bd / g),
            ad > 0,
            bd > 0,
            g > 0,
    ;
    lemma_multiple_divides(bd / g, ad);
    lemma_multiple_divides(ad / g, bd);
    lemma_value_reduced(an * ka + bn * kb, l);
    let va = value(a);
    let vb = value(b);
    let (adr, bdr, kar, kbr, lr) = (ad as real, bd as real, ka as real, kb as real, l as real);
    lemma_quotient(va, an, ad);
    lemma_quotient(vb, bn, bd);
    lemma_real_product(ad, ka);
    lemma_real_product(bd, kb);
    lemma_real_product(an, ka);
    lemma_real_product(bn, kb);
    lemma_times_associative(va, adr, kar);
    lemma_times_associative(vb, bdr, kbr);
    lemma_times_distributive(va, vb, lr);
    lemma_quotient(va + vb, an * ka + bn * kb, l);
}

/// The number of a product is the product of the numbers.
pub proof fn lemma_value_product(a: Rational, b: Rational)
    requires
        product(a, b) is Some,
    ensures
        value(product(a, b).unwrap()) == times(value(a), value(b)),
{
    let (an, ad, bn, bd) = (a.numer as int, a.denom as int, b.numer as int, b.denom as int);
    let g1 = gcd(abs(an), bd as nat) as int;
    let g2 = gcd(ad as nat, abs(bn)) as int;
    lemma_quotients_coprime(abs(an), bd as nat);
    lemma_gcd_symmetric(ad as nat, abs(bn));
    lemma_quotients_coprime(abs(bn), ad as nat);
    lemma_abs_quotient(an, g1);
    lemma_abs_quotient(bn, g2);
    lemma_divides_iff_multiple(bd, g1);
    lemma_divides_iff_multiple(ad, g2);
    let (a1, b1, a2, b2) = (an / g1, bn / g2, ad / g2, bd / g1);
    let x = a1 * b1;
    let y = a2 * b2;
    let k = g1 * g2;
    assert(y > 0) by (nonlinear_arith)
        requires
            y == a2 * b2,
            a2 > 0,
            b2 > 0,
    ;
    assert(ad * bd > 0) by (nonlinear_arith)
        requires
            ad > 0,
            bd > 0,
    ;
    assert(ad * bd == k * y) by (nonlinear_arith)
        requires
            ad == g2 * a2,
            bd == g1 * b2,
            y == a2 * b2,
            k == g1 * g2,
    ;
    assert(an * bn == k * x) by (nonlinear_arith)
        requires
            an == g1 * a1,
            bn == g2 * b1,
            x == a1 * b1,
            k == g1 * g2,
    ;
    assert(x * (k * y) == (k * x) * y) by (nonlinear_arith);
    lemma_value_reduced(x, y);
    lemma_quotients_equal(x, y, an * bn, ad * bd);
    let va = value(a);
    let vb = value(b);
    lemma_quotient(va, an, ad);
    lemma_quotient(vb, bn, bd);
    lemma_real_product(an, bn);
    lemma_real_product(ad, bd);
    lemma_times_interchange(va, vb, ad as real, bd as real);
    lemma_quotient(times(va, vb), an * bn, ad * bd);
}

/// The number of a reciprocal is the reciprocal of the number, and the
/// number of a rational that has a reciprocal is not zero.
pub proof fn lemma_value_reciprocal(a: Rational)
    requires
        reciprocal(a) is Some,
    ensures
        value(a) != 0real,
        value(reciprocal(a).unwrap()) == over(1real, value(a)),
{
    let (n, d) = (a.numer as int, a.denom as int);
    let (nr, dr) = (n as real, d as real);
    let v = value(a);
    let w = value(reciprocal(a).unwrap());
    lemma_quotient(v, n, d);
    if n < 0 {
        assert((-d) * n == d * (-n)) by (nonlinear_arith);
        lemma_quotients_equal(-d, -n, d, n);
    }
    lemma_quotient(w, d, n);
    lemma_times_associative(w, v, dr);
    lemma_times_units(dr);
    lemma_times_cancel(times(w, v), 1real, dr);
    lemma_over_times(w, 1real, v);
}

/// A rational with numerator zero stands for the number zero.
pub proof fn lemma_value_zero(c: Rational)
    requires
        c.denom != 0,
        c.numer == 0,
    ensures
        value(c) == 0real,
{
    lemma_times_units(c.denom as real);
    lemma_over_times(0real, 0real, c.denom as real);
}

impl ExprView {
    /// The value of the expression where each name stands for the number
    /// that `env` gives it.
    pub open spec fn eval(self, env: spec_fn(Seq<char>) -> real) -> real
        decreases self,
    {
        match self {
            ExprView::Val(c) => value(c),
            ExprView::Var(c, name) => times(value(c), env(name)),
            ExprView::Add(a, b) => a.eval(env) + b.eval(env),
            ExprView::Mul(a, b) => times(a.eval(env), b.eval(env)),
            ExprView::Inv(a) => over(1real, a.eval(env)),
        }
    }
}

/// The sum of the values of the terms.
pub open spec fn total(terms: Seq<ExprView>, env: spec_fn(Seq<char>) -> real) -> real
    decreases terms.len(),
{
    if terms.len() == 0 {
        0real
    } else {
        total(terms.drop_last(), env) + terms.last().eval(env)
    }
}

/// The value of one entry of the table: its total times what its name
/// stands for.
pub open spec fn entry_value(t: Total, env: spec_fn(Seq<char>) -> real) -> real {
    times(value(t.coefficient), env(t.name))
}

/// The sum of the values of the entries of the table.
pub open spec fn table_total(totals: Seq<Total>, env: spec_fn(Seq<char>) -> real) -> real
    decreases totals.len(),
{
    if totals.len() == 0 {
        0real
    } else {
        table_total(totals.drop_last(), env) + entry_value(totals.last(), env)
    }
}

/// Folding a sum keeps the value.
pub proof fn lemma_fold_sum_value(u: ExprView, v: ExprView, env: spec_fn(Seq<char>) -> real)
    requires
        u.fold_sum(v) is Some,
    ensures
        u.fold_sum(v).unwrap().eval(env) == u.eval(env) + v.eval(env),
{
    match (u, v) {
        (ExprView::Val(x), ExprView::Val(y)) => {
            lemma_value_sum(x, y);
        },
        _ => {},
    }
}

/// Folding a product keeps the value.
pub proof fn lemma_fold_product_value(u: ExprView, v: ExprView, env: spec_fn(Seq<char>) -> real)
    requires
        u.fold_product(v) is Some,
    ensures
        u.fold_product(v).unwrap().eval(env) == times(u.eval(env), v.eval(env)),
    decreases u.size() + v.size(),
{
    match (u, v) {
        (ExprView::Val(x), ExprView::Val(y)) => {
            lemma_value_product(x, y);
        },
        (ExprView::Val(x), ExprView::Var(y, name)) => {
            lemma_value_product(x, y);
            lemma_times_associative(value(x), value(y), env(name));
        },
        (ExprView::Var(y, name), ExprView::Val(x)) => {
            lemma_value_product(x, y);
            lemma_times_associative(value(x), value(y), env(name));
            lemma_times_commutative(times(value(y), env(name)), value(x));
        },
        (ExprView::Add(a, b), _) => {
            lemma_fold_product_value(*a, v, env);
            lemma_fold_product_value(*b, v, env);
            lemma_fold_sum_value(a.fold_product(v).unwrap(), b.fold_product(v).unwrap(), env);
            lemma_times_distributive(a.eval(env), b.eval(env), v.eval(env));
        },
        (_, ExprView::Add(a, b)) => {
            lemma_fold_product_value(*a, u, env);
            lemma_fold_product_value(*b, u, env);
            lemma_fold_sum_value(a.fold_product(u).unwrap(), b.fold_product(u).unwrap(), env);
            lemma_times_distributive(a.eval(env), b.eval(env), u.eval(env));
            lemma_times_commutative(a.eval(env) + b.eval(env), u.eval(env));
        },
        _ => {},
    }
}

/// Folding an inverse keeps the value.
pub proof fn lemma_fold_inverse_value(u: ExprView, env: spec_fn(Seq<char>) -> real)
    requires
        u.fold_inverse() is Some,
    ensures
        u.fold_inverse().unwrap().eval(env) == over(1real, u.eval(env)),
{
    match u {
        ExprView::Val(x) => {
            lemma_value_reciprocal(x);
        },
        _ => {},
    }
}

/// The first pass keeps the value.
pub proof fn lemma_rewrite_value(e: ExprView, env: spec_fn(Seq<char>) -> real)
    requires
        e.rewrite() is Some,
    ensures
        e.rewrite().unwrap().eval(env) == e.eval(env),
    decreases e,
{
    match e {
        ExprView::Val(_) => {},
        ExprView::Var(_, _) => {},
        ExprView::Add(a, b) => {
            lemma_rewrite_value(*a, env);
            lemma_rewrite_value(*b, env);
            lemma_fold_sum_value(a.rewrite().unwrap(), b.rewrite().unwrap(), env);
        },
        ExprView::Mul(a, b) => {
            lemma_rewrite_value(*a, env);
            lemma_rewrite_value(*b, env);
            lemma_fold_product_value(a.rewrite().unwrap(), b.rewrite().unwrap(), env);
        },
        ExprView::Inv(a) => {
            lemma_rewrite_value(*a, env);
            lemma_fold_inverse_value(a.rewrite().unwrap(), env);
        },
    }
}

/// The total of two sequences joined is the sum of their totals.
pub proof fn lemma_total_concat(a: Seq<ExprView>, b: Seq<ExprView>, env: spec_fn(Seq<char>) -> real)
    ensures
        total(a + b, env) == total(a, env) + total(b, env),
    decreases b.len(),
{
    if b.len() == 0 {
        assert(a + b =~= a);
    } else {
        lemma_total_concat(a, b.drop_last(), env);
        assert((a + b).drop_last() =~= a + b.drop_last());
    }
}

/// The terms of an expression add up to its value.
pub proof fn lemma_flatten_value(e: ExprView, env: spec_fn(Seq<char>) -> real)
    ensures
        total(e.flatten(), env) == e.eval(env),
    decreases e,
{
    match e {
        ExprView::Add(a, b) => {
            lemma_flatten_value(*a, env);
            lemma_flatten_value(*b, env);
            lemma_total_concat(a.flatten(), b.flatten(), env);
        },
        _ => {
            assert(seq![e].drop_last() =~= Seq::<ExprView>::empty());
            reveal_with_fuel(total, 2);
        },
    }
}

/// The value of terms joined by `Add` is their total.
pub proof fn lemma_sum_of_value(list: Seq<ExprView>, env: spec_fn(Seq<char>) -> real)
    ensures
        sum_of(list).eval(env) == total(list, env),
    decreases list.len(),
{
    if list.len() == 0 {
        lemma_value_zero(Rational::zero_spec());
    } else if list.len() == 1 {
        assert(list.drop_last() =~= Seq::<ExprView>::empty());
        reveal_with_fuel(total, 2);
    } else {
        lemma_sum_of_value(list.drop_last(), env);
    }
}

/// Replacing an entry of the table changes its total by the difference of
/// the two entries' values.
pub proof fn lemma_table_total_update(
    t: Seq<Total>,
    i: int,
    x: Total,
    env: spec_fn(Seq<char>) -> real,
)
    requires
        0 <= i < t.len(),
    ensures
        table_total(t.update(i, x), env) == table_total(t, env) - entry_value(t[i], env)
            + entry_value(x, env),
    decreases t.len(),
{
    if i == t.len() - 1 {
        assert(t.update(i, x).drop_last() =~= t.drop_last());
    } else {
        lemma_table_total_update(t.drop_last(), i, x, env);
        assert(t.update(i, x).drop_last() =~= t.drop_last().update(i, x));
    }
}

/// Inserting an entry into the table adds its value to the total.
pub proof fn lemma_table_total_insert(
    t: Seq<Total>,
    i: int,
    x: Total,
    env: spec_fn(Seq<char>) -> real,
)
    requires
        0 <= i <= t.len(),
    ensures
        table_total(t.insert(i, x), env) == table_total(t, env) + entry_value(x, env),
    decreases t.len(),
{
    if i == t.len() {
        assert(t.insert(i, x).drop_last() =~= t);
    } else {
        lemma_table_total_insert(t.drop_last(), i, x, env);
        assert(t.insert(i, x).drop_last() =~= t.drop_last().insert(i, x));
    }
}

/// Accumulating a coefficient under a name adds the coefficient's number
/// times what the name stands for to the table's total.
pub proof fn lemma_accumulate_value(
    totals: Seq<Total>,
    name: Seq<char>,
    c: Rational,
    env: spec_fn(Seq<char>) -> real,
)
    requires
        accumulate(totals, name, c) is Some,
    ensures
        table_total(accumulate(totals, name, c).unwrap(), env) == table_total(totals, env) + times(
            value(c),
            env(name),
        ),
{
    let i = rank(totals, name) as int;
    lemma_rank(totals, name);
    if i < totals.len() && totals[i].name == name {
        let old = totals[i].coefficient;
        let s = sum(old, c).unwrap();
        lemma_value_sum(old, c);
        lemma_times_distributive(value(old), value(c), env(name));
        lemma_table_total_update(totals, i, Total { name, coefficient: s }, env);
    } else {
        let s = sum(Rational::zero_spec(), c).unwrap();
        lemma_value_sum(Rational::zero_spec(), c);
        lemma_value_zero(Rational::zero_spec());
        lemma_table_total_insert(totals, i, Total { name, coefficient: s }, env);
    }
}

/// The terms add up to what was collected from them: the kept terms, the
/// table of totals and the constant.
pub proof fn lemma_collected_value(terms: Seq<ExprView>, env: spec_fn(Seq<char>) -> real)
    requires
        constant_total(terms) is Some,
        variable_totals(terms) is Some,
    ensures
        total(terms, env) == total(others(terms), env) + table_total(
            variable_totals(terms).unwrap(),
            env,
        ) + value(constant_total(terms).unwrap()),
    decreases terms.len(),
{
    if terms.len() == 0 {
        lemma_value_zero(Rational::zero_spec());
    } else {
        let front = terms.drop_last();
        lemma_collected_value(front, env);
        match terms.last() {
            ExprView::Val(x) => {
                lemma_value_sum(constant_total(front).unwrap(), x);
            },
            ExprView::Var(x, name) => {
                lemma_accumulate_value(variable_totals(front).unwrap(), name, x, env);
            },
            t => {
                assert(others(front).push(t).drop_last() =~= others(front));
            },
        }
    }
}

/// The variable terms made from the table add up to the table's total.
pub proof fn lemma_monomials_value(totals: Seq<Total>, env: spec_fn(Seq<char>) -> real)
    requires
        totals_wf(totals),
    ensures
        total(monomials(totals), env) == table_total(totals, env),
    decreases totals.len(),
{
    if totals.len() > 0 {
        let front = totals.drop_last();
        let last = totals.last();
        assert(totals_wf(front)) by {
            assert forall|k: int| 0 <= k < front.len() implies (#[trigger] front[k]).coefficient.wf() by {
                assert(front[k] == totals[k]);
            }
        }
        lemma_monomials_value(front, env);
        assert(last.coefficient.wf());
        if last.coefficient.numer == 0 {
            lemma_value_zero(last.coefficient);
            lemma_times_units(env(last.name));
        } else {
            let term = ExprView::Var(last.coefficient, last.name);
            assert(monomials(front).push(term).drop_last() =~= monomials(front));
        }
    }
}

/// Collecting the terms of a well-formed rewritten tree keeps the value.
pub proof fn lemma_collect_value(r: ExprView, env: spec_fn(Seq<char>) -> real)
    requires
        r.wf(),
        r.is_rewritten(),
        r.collect() is Some,
    ensures
        r.collect().unwrap().eval(env) == r.eval(env),
{
    let terms = r.flatten();
    let c = constant_total(terms).unwrap();
    let totals = variable_totals(terms).unwrap();
    let front = others(terms);
    let ms = monomials(totals);
    let ct = constant_term(c);
    lemma_flatten_terms(r);
    lemma_constant_total_wf(terms);
    lemma_variable_totals_ascending(terms);
    lemma_flatten_value(r, env);
    lemma_collected_value(terms, env);
    lemma_monomials_value(totals, env);
    lemma_sum_of_value(front + ms + ct, env);
    lemma_total_concat(front + ms, ct, env);
    lemma_total_concat(front, ms, env);
    if c.numer == 0 {
        lemma_value_zero(c);
    } else {
        assert(ct.drop_last() =~= Seq::<ExprView>::empty());
        reveal_with_fuel(total, 2);
    }
}

/// Simplification keeps the value: under every assignment of numbers to
/// names, the canonical form has the value of the expression it came from.
pub proof fn lemma_simplify_value(e: ExprView, env: spec_fn(Seq<char>) -> real)
    requires
        e.wf(),
        e.simplify() is Some,
    ensures
        e.simplify().unwrap().eval(env) == e.eval(env),
{
    lemma_rewrite_is_rewritten(e);
    lemma_rewrite_value(e, env);
    lemma_collect_value(e.rewrite().unwrap(), env);
}

/// The zero test is sound: an expression that it takes for zero has the
/// value zero under every assignment of numbers to names.
pub proof fn lemma_zero_test_sound(e: ExprView, env: spec_fn(Seq<char>) -> real)
    requires
        e.wf(),
        e.is_zero() == Some(true),
    ensures
        e.eval(env) == 0real,
{
    lemma_simplify_value(e, env);
    match e.simplify().unwrap() {
        ExprView::Val(c) => {
            crate::canonical::lemma_simplify_idempotent(e);
            lemma_value_zero(c);
        },
        _ => {},
    }
}

/// A rational that stands for the number zero has numerator zero.
pub proof fn lemma_value_is_zero(c: Rational)
    requires
        c.denom != 0,
        value(c) == 0real,
    ensures
        c.numer == 0,
{
    lemma_times_units(c.denom as real);
    lemma_quotient(0real, c.numer as int, c.denom as int);
}

/// Whether every term of the sequence is a constant or a variable.
pub open spec fn all_linear(terms: Seq<ExprView>) -> bool {
    forall|i: int| 0 <= i < terms.len() ==> (#[trigger] terms[i]) is Val || terms[i] is Var
}

/// The assignment that gives the number one to `name` and zero to every
/// other name.
pub open spec fn only(name: Seq<char>) -> spec_fn(Seq<char>) -> real {
    |other: Seq<char>|
        if other == name {
            1real
        } else {
            0real
        }
}

/// Variable terms whose names all differ from `name` add up to zero where
/// only `name` is given a number other than zero.
pub proof fn lemma_total_of_other_names(terms: Seq<ExprView>, name: Seq<char>)
    requires
        forall|i: int| 0 <= i < terms.len() ==> (#[trigger] terms[i]) is Var && name_of(terms[i]) != name,
    ensures
        total(terms, only(name)) == 0real,
    decreases terms.len(),
{
    if terms.len() > 0 {
        let front = terms.drop_last();
        assert forall|i: int| 0 <= i < front.len() implies (#[trigger] front[i]) is Var && name_of(
            front[i],
        ) != name by {
            assert(front[i] == terms[i]);
        }
        lemma_total_of_other_names(front, name);
        assert(terms.last() is Var);
        lemma_times_units(value(coefficient_of(terms.last())));
    }
}

/// Variable terms add up to zero where every name is given the number zero.
pub proof fn lemma_total_of_variables_at_zero(terms: Seq<ExprView>)
    requires
        forall|i: int| 0 <= i < terms.len() ==> (#[trigger] terms[i]) is Var,
    ensures
        total(terms, |name: Seq<char>| 0real) == 0real,
    decreases terms.len(),
{
    if terms.len() > 0 {
        let front = terms.drop_last();
        assert forall|i: int| 0 <= i < front.len() implies (#[trigger] front[i]) is Var by {
            assert(front[i] == terms[i]);
        }
        lemma_total_of_variables_at_zero(front);
        assert(terms.last() is Var);
        lemma_times_units(value(coefficient_of(terms.last())));
    }
}

/// The zero test is complete on linear expressions: an expression whose
/// canonical form keeps no product and no inverse, and whose value is zero
/// under every assignment of numbers to names, passes the zero test.
pub proof fn lemma_zero_test_complete(e: ExprView)
    requires
        e.wf(),
        e.simplify() is Some,
        all_linear(e.simplify().unwrap().flatten()),
        forall|env: spec_fn(Seq<char>) -> real| #[trigger] e.eval(env) == 0real,
    ensures
        e.is_zero() == Some(true),
{
    let s = e.simplify().unwrap();
    let terms = s.flatten();
    lemma_simplify_is_canonical(e);
    if s != ExprView::zero() {
        let n = terms.len() as int;
        let front = terms.drop_last();
        lemma_sum_of_value(terms, |name: Seq<char>| 0real);
        lemma_simplify_value(e, |name: Seq<char>| 0real);
        assert(n > 0) by {
            if n == 0 {
                assert(s == ExprView::zero());
            }
        }
        let last = terms.last();
        assert(last.wf() && (last is Val || last is Var));
        assert forall|i: int| 0 <= i < front.len() implies (#[trigger] front[i]) is Var by {
            assert(front[i] == terms[i]);
            assert(precedes(terms[i], terms[n - 1]));
            if i + 1 < n - 1 {
                assert(precedes(terms[i], terms[i + 1]));
            }
        }
        match last {
            ExprView::Val(c) => {
                lemma_total_of_variables_at_zero(front);
                lemma_value_is_zero(c);
            },
            _ => {
                let name = name_of(last);
                let c = coefficient_of(last);
                assert forall|i: int| 0 <= i < front.len() implies (#[trigger] front[i]) is Var
                    && name_of(front[i]) != name by {
                    assert(front[i] == terms[i]);
                    assert(precedes(terms[i], terms[n - 1]));
                    lemma_name_lt_irreflexive(name);
                }
                lemma_total_of_other_names(front, name);
                lemma_sum_of_value(terms, only(name));
                lemma_simplify_value(e, only(name));
                lemma_times_units(value(c));
                lemma_value_is_zero(c);
            },
        }
    }
}

} // verus!
