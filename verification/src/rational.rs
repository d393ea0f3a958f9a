//! Exact rational coefficients backed by 32-bit integers.
//!
//! A [`Rational`] is a fraction in lowest terms with a positive denominator.
//! The arithmetic itself is done by `num::rational::Ratio<i32>`; this module
//! states what that arithmetic returns and on which operands it stays within
//! 32 bits.

use crate::gcd::{
    abs, gcd, gcd_of, lemma_abs_quotient, lemma_divides_iff_multiple, lemma_gcd_one,
    lemma_gcd_self, lemma_gcd_symmetric, lemma_multiple_divides, lemma_quotients_coprime,
    magnitude,
};
use num::rational::Ratio;
use vstd::prelude::*;
use vstd::std_specs::ops::{AddSpecImpl, MulSpecImpl};

verus! {

/// Whether an integer is representable as an `i32`.
pub open spec fn fits(n: int) -> bool {
    i32::MIN <= n <= i32::MAX
}

/// The fraction `n / d` in lowest terms with a positive denominator, for `d != 0`.
pub open spec fn lowest_terms(n: int, d: int) -> (int, int) {
    let g = gcd(abs(n), abs(d)) as int;
    if d > 0 {
        (n / g, d / g)
    } else {
        ((-n) / g, (-d) / g)
    }
}

/// An exact fraction `numer / denom` over 32-bit integers.
///
/// Every operation of this module expects and returns well-formed values
/// (see [`Rational::wf`]): the denominator is positive and the fraction is in
/// lowest terms, so that equal numbers are equal field by field.
#[derive(Clone, Copy, Debug, PartialEq, Eq, Structural)]
pub struct Rational {
    pub numer: i32,
    pub denom: i32,
}

/// The rational with the given integer fields, which must each fit in an `i32`.
pub open spec fn rational(n: int, d: int) -> Rational {
    Rational { numer: n as i32, denom: d as i32 }
}

/// `n / d` in lowest terms, as a [`Rational`].
pub open spec fn reduced(n: int, d: int) -> Rational {
    rational(lowest_terms(n, d).0, lowest_terms(n, d).1)
}

/// The rational number `n / d`: defined when `d` is not zero and the fraction
/// in lowest terms, with a positive denominator, fits in 32 bits.
pub open spec fn ratio(n: int, d: int) -> Option<Rational> {
    if d != 0 && fits(lowest_terms(n, d).0) && fits(lowest_terms(n, d).1) {
        Some(reduced(n, d))
    } else {
        None
    }
}

/// The sum of two rationals, where it can be computed within 32 bits.
///
/// The operands are brought to their least common denominator `l`; the sum is
/// defined when `l`, both scaled numerators and their sum fit in an `i32`.
pub open spec fn sum(a: Rational, b: Rational) -> Option<Rational> {
    let (an, ad, bn, bd) = (a.numer as int, a.denom as int, b.numer as int, b.denom as int);
    let g = gcd(ad as nat, bd as nat) as int;
    let l = ad / g * bd;
    let x = an * (l / ad);
    let y = bn * (l / bd);
    if a.wf() && b.wf() && fits(l) && fits(x) && fits(y) && fits(x + y) {
        Some(reduced(x + y, l))
    } else {
        None
    }
}

/// The product of two rationals, where it can be computed within 32 bits.
///
/// Common factors are cancelled crosswise before multiplying; the product is
/// defined when the resulting numerator and denominator fit in an `i32`.
pub open spec fn product(a: Rational, b: Rational) -> Option<Rational> {
    let (an, ad, bn, bd) = (a.numer as int, a.denom as int, b.numer as int, b.denom as int);
    let g1 = gcd(abs(an), bd as nat) as int;
    let g2 = gcd(ad as nat, abs(bn)) as int;
    let x = (an / g1) * (bn / g2);
    let y = (ad / g2) * (bd / g1);
    if a.wf() && b.wf() && fits(x) && fits(y) {
        Some(reduced(x, y))
    } else {
        None
    }
}

/// The reciprocal of a rational: defined unless the rational is zero or its
/// numerator is `i32::MIN`, which has no positive counterpart.
pub open spec fn reciprocal(a: Rational) -> Option<Rational> {
    if a.wf() && a.numer != 0 && a.numer != i32::MIN {
        if a.numer > 0 {
            Some(rational(a.denom as int, a.numer as int))
        } else {
            Some(rational(-(a.denom as int), -(a.numer as int)))
        }
    } else {
        None
    }
}

impl Rational {
    /// Well-formedness: positive denominator, lowest terms.
    pub open spec fn wf(self) -> bool {
        self.denom > 0 && gcd(abs(self.numer as int), self.denom as nat) == 1
    }

    /// The rational 0.
    pub open spec fn zero_spec() -> Rational {
        Rational { numer: 0, denom: 1 }
    }

    /// The rational 1.
    pub open spec fn one_spec() -> Rational {
        Rational { numer: 1, denom: 1 }
    }

    /// The rational that stands for the integer `n`.
    pub open spec fn integer(n: i32) -> Rational {
        Rational { numer: n, denom: 1 }
    }
}

/// An exact quotient keeps the sign, and its absolute value is the quotient
/// A fraction in lowest terms has a positive denominator, coprime parts, and
/// parts no larger than those of the fraction it came from.
pub proof fn lemma_lowest_terms(n: int, d: int)
    requires
        d != 0,
    ensures
        lowest_terms(n, d).1 > 0,
        abs(lowest_terms(n, d).0) <= abs(n),
        lowest_terms(n, d).1 <= abs(d),
        d > 0 && n >= 0 ==> lowest_terms(n, d).0 >= 0,
        d > 0 && n <= 0 ==> lowest_terms(n, d).0 <= 0,
        gcd(abs(lowest_terms(n, d).0), lowest_terms(n, d).1 as nat) == 1,
{
    let g = gcd(abs(n), abs(d)) as int;
    lemma_quotients_coprime(abs(n), abs(d));
    if d > 0 {
        lemma_abs_quotient(n, g);
        lemma_abs_quotient(d, g);
    } else {
        lemma_abs_quotient(-n, g);
        lemma_abs_quotient(-d, g);
    }
}

/// Reducing a fraction whose parts fit in 32 bits, with a positive
/// denominator, gives a well-formed rational.
pub proof fn lemma_reduced_wf(n: int, d: int)
    requires
        d > 0,
        fits(n),
        fits(d),
    ensures
        reduced(n, d).wf(),
        ratio(n, d) == Some(reduced(n, d)),
{
    lemma_lowest_terms(n, d);
}

/// Whatever [`ratio`] yields is well-formed.
pub proof fn lemma_ratio_wf(n: int, d: int)
    requires
        ratio(n, d) is Some,
    ensures
        ratio(n, d).unwrap().wf(),
{
    lemma_lowest_terms(n, d);
}

/// A well-formed rational is its own lowest terms.
pub proof fn lemma_reduced_fixed(a: Rational)
    requires
        a.wf(),
    ensures
        reduced(a.numer as int, a.denom as int) == a,
{
    lemma_multiple_divides(a.numer as int, 1);
    lemma_multiple_divides(a.denom as int, 1);
}

/// Sums are well-formed.
pub proof fn lemma_sum_wf(a: Rational, b: Rational)
    requires
        sum(a, b) is Some,
    ensures
        sum(a, b).unwrap().wf(),
{
    let (an, ad, bn, bd) = (a.numer as int, a.denom as int, b.numer as int, b.denom as int);
    let g = gcd(ad as nat, bd as nat) as int;
    let l = ad / g * bd;
    lemma_quotients_coprime(ad as nat, bd as nat);
    lemma_divides_iff_multiple(ad, g);
    assert(l > 0) by (nonlinear_arith)
        requires
            l == (ad / g) * bd,
            ad == g * (ad / g),
            ad > 0,
            g > 0,
            bd > 0,
    ;
    lemma_reduced_wf(an * (l / ad) + bn * (l / bd), l);
}

/// Products are well-formed.
pub proof fn lemma_product_wf(a: Rational, b: Rational)
    requires
        product(a, b) is Some,
    ensures
        product(a, b).unwrap().wf(),
{
    let (an, ad, bn, bd) = (a.numer as int, a.denom as int, b.numer as int, b.denom as int);
    let g1 = gcd(abs(an), bd as nat) as int;
    let g2 = gcd(ad as nat, abs(bn)) as int;
    lemma_quotients_coprime(abs(an), bd as nat);
    lemma_gcd_symmetric(ad as nat, abs(bn));
    lemma_quotients_coprime(abs(bn), ad as nat);
    let y = (ad / g2) * (bd / g1);
    assert(y > 0) by (nonlinear_arith)
        requires
            y == (ad / g2) * (bd / g1),
            ad / g2 > 0,
            bd / g1 > 0,
    ;
    lemma_reduced_wf((an / g1) * (bn / g2), y);
}

/// Reciprocals are well-formed.
pub proof fn lemma_reciprocal_wf(a: Rational)
    requires
        reciprocal(a) is Some,
    ensures
        reciprocal(a).unwrap().wf(),
{
    lemma_gcd_symmetric(abs(a.numer as int), a.denom as nat);
}

/// The rationals 0, 1 and -1 are well-formed.
pub proof fn lemma_units_wf()
    ensures
        Rational::zero_spec().wf(),
        Rational::one_spec().wf(),
        Rational::integer(-1i32).wf(),
{
    lemma_gcd_one(0);
    lemma_gcd_one(1);
}

/// Zero is a left identity of [`sum`], on every well-formed rational.
pub proof fn lemma_sum_zero_left(a: Rational)
    requires
        a.wf(),
    ensures
        Rational::zero_spec().wf(),
        sum(Rational::zero_spec(), a) == Some(a),
{
    let ad = a.denom as int;
    lemma_gcd_one(ad as nat);
    lemma_gcd_one(0);
    let l = 1int / 1int * ad;
    assert(l == ad);
    lemma_multiple_divides(ad, 1);
    lemma_multiple_divides(1, ad);
    assert(l / ad == 1);
    assert(l / 1 == ad);
    assert(0 * (l / 1) == 0);
    assert(a.numer * (l / ad) == a.numer);
    lemma_reduced_fixed(a);
}

/// One is a right identity of [`product`], on every well-formed rational.
pub proof fn lemma_product_one_right(a: Rational)
    requires
        a.wf(),
    ensures
        product(a, Rational::one_spec()) == Some(a),
{
    let (an, ad) = (a.numer as int, a.denom as int);
    lemma_units_wf();
    lemma_gcd_one(abs(an));
    lemma_gcd_one(ad as nat);
    lemma_multiple_divides(an, 1);
    lemma_multiple_divides(ad, 1);
    lemma_multiple_divides(1, 1);
    assert((an / 1) * (1int / 1) == an) by (nonlinear_arith)
        requires
            an / 1 == an,
            1int / 1 == 1,
    ;
    assert((ad / 1) * (1int / 1) == ad) by (nonlinear_arith)
        requires
            ad / 1 == ad,
            1int / 1 == 1,
    ;
    lemma_reduced_fixed(a);
}

/// One is a left identity of [`product`], on every well-formed rational.
pub proof fn lemma_product_one_left(a: Rational)
    requires
        a.wf(),
    ensures
        product(Rational::one_spec(), a) == Some(a),
{
    let (an, ad) = (a.numer as int, a.denom as int);
    lemma_units_wf();
    lemma_gcd_one(abs(an));
    lemma_gcd_one(ad as nat);
    lemma_multiple_divides(an, 1);
    lemma_multiple_divides(ad, 1);
    lemma_multiple_divides(1, 1);
    assert((1int / 1) * (an / 1) == an) by (nonlinear_arith)
        requires
            an / 1 == an,
            1int / 1 == 1,
    ;
    assert((1int / 1) * (ad / 1) == ad) by (nonlinear_arith)
        requires
            ad / 1 == ad,
            1int / 1 == 1,
    ;
    lemma_reduced_fixed(a);
}

/// A rational times its reciprocal is one.
pub proof fn lemma_product_reciprocal(a: Rational)
    requires
        reciprocal(a) is Some,
    ensures
        product(reciprocal(a).unwrap(), a) == Some(Rational::one_spec()),
{
    let (n, d) = (a.numer as int, a.denom as int);
    let r = reciprocal(a).unwrap();
    lemma_reciprocal_wf(a);
    lemma_units_wf();
    lemma_gcd_self(d as nat);
    lemma_gcd_self(abs(n));
    lemma_multiple_divides(1, d);
    lemma_multiple_divides(1, abs(n) as int);
    lemma_multiple_divides(-1, d);
    lemma_multiple_divides(-1, abs(n) as int);
    if n > 0 {
        assert((d / d) * (n / n) == 1) by (nonlinear_arith)
            requires
                d / d == 1,
                n / n == 1,
        ;
        assert((n / n) * (d / d) == 1) by (nonlinear_arith)
            requires
                d / d == 1,
                n / n == 1,
        ;
    } else {
        assert(d * -1 == -d && (-n) * -1 == n) by (nonlinear_arith);
        assert(((-d) / d) * (n / (-n)) == 1) by (nonlinear_arith)
            requires
                (-d) / d == -1,
                n / (-n) == -1,
        ;
        assert(((-n) / (-n)) * (d / d) == 1) by (nonlinear_arith)
            requires
                d / d == 1,
                (-n) / (-n) == 1,
        ;
    }
    lemma_reduced_fixed(Rational::one_spec());
}

/// The negation of a rational whose numerator is not `i32::MIN`.
pub open spec fn negation(a: Rational) -> Rational {
    rational(-(a.numer as int), a.denom as int)
}

/// A rational times -1 is its negation.
pub proof fn lemma_product_minus_one(a: Rational)
    requires
        a.wf(),
        a.numer != i32::MIN,
    ensures
        negation(a).wf(),
        product(a, Rational::integer(-1i32)) == Some(negation(a)),
{
    let (an, ad) = (a.numer as int, a.denom as int);
    lemma_units_wf();
    lemma_gcd_one(abs(an));
    lemma_gcd_one(ad as nat);
    lemma_multiple_divides(an, 1);
    lemma_multiple_divides(ad, 1);
    lemma_multiple_divides(1, 1);
    lemma_multiple_divides(-1, 1);
    assert((an / 1) * ((-1int) / 1) == -an) by (nonlinear_arith)
        requires
            an / 1 == an,
            (-1int) / 1 == -1,
    ;
    assert((ad / 1) * (1int / 1) == ad) by (nonlinear_arith)
        requires
            ad / 1 == ad,
            1int / 1 == 1,
    ;
    assert(abs(-an) == abs(an));
    lemma_reduced_fixed(negation(a));
}

/// A rational and its negation add up to zero.
pub proof fn lemma_sum_negation(a: Rational)
    requires
        a.wf(),
        a.numer != i32::MIN,
    ensures
        sum(a, negation(a)) == Some(Rational::zero_spec()),
{
    let (an, ad) = (a.numer as int, a.denom as int);
    lemma_product_minus_one(a);
    lemma_gcd_self(ad as nat);
    lemma_multiple_divides(1, ad);
    lemma_multiple_divides(0, ad);
    let l = ad / ad * ad;
    assert(l == ad) by (nonlinear_arith)
        requires
            l == (ad / ad) * ad,
            ad / ad == 1,
    ;
    assert(an * (l / ad) == an && (-an) * (l / ad) == -an) by (nonlinear_arith)
        requires
            l / ad == 1,
    ;
}

/// A sufficient condition for [`ratio`] to be defined: a non-zero
/// denominator, and neither part equal to `i32::MIN`.
pub proof fn lemma_ratio_defined(n: int, d: int)
    requires
        d != 0,
        i32::MIN < n <= i32::MAX,
        i32::MIN < d <= i32::MAX,
    ensures
        ratio(n, d) is Some,
{
    lemma_lowest_terms(n, d);
}

/// The decimal digit `d`, for `0 <= d < 10`.
pub open spec fn digit(d: int) -> char {
    (48 + d) as char
}

/// The decimal digits of a natural number, without leading zeros.
pub open spec fn digits(n: nat) -> Seq<char>
    decreases n,
{
    if n < 10 {
        seq![digit(n as int)]
    } else {
        digits(n / 10).push(digit(n as int % 10))
    }
}

/// The decimal rendering of an integer, with a leading `-` when negative.
pub open spec fn decimal(n: int) -> Seq<char> {
    if n < 0 {
        seq!['-'] + digits((-n) as nat)
    } else {
        digits(n as nat)
    }
}

impl Rational {
    /// The text of a rational: its numerator alone when the denominator is
    /// 1, else numerator, `/`, denominator.
    pub open spec fn text(self) -> Seq<char> {
        if self.denom == 1 {
            decimal(self.numer as int)
        } else {
            decimal(self.numer as int) + seq!['/'] + decimal(self.denom as int)
        }
    }
}

/// Calls `Ratio::new`, which reduces `n / d` to lowest terms with a positive
/// denominator. Assumed: the result is that fraction. The call panics on a
/// zero denominator and overflows where the reduced fraction needs the
/// negation of `i32::MIN`; both are excluded.
#[verifier::external_body]
fn ratio_new(n: i32, d: i32) -> (r: Rational)
    requires
        ratio(n as int, d as int) is Some,
    ensures
        Some(r) == ratio(n as int, d as int),
{
    let q = Ratio::new(n, d);
    Rational { numer: *q.numer(), denom: *q.denom() }
}

/// Calls `+` of `Ratio<i32>`. Assumed: on operands whose least common
/// denominator, scaled numerators and numerator sum fit in an `i32`, the
/// result is the sum in lowest terms.
#[verifier::external_body]
fn ratio_add(a: Rational, b: Rational) -> (r: Rational)
    requires
        sum(a, b) is Some,
    ensures
        Some(r) == sum(a, b),
{
    let q = Ratio::new_raw(a.numer, a.denom) + Ratio::new_raw(b.numer, b.denom);
    Rational { numer: *q.numer(), denom: *q.denom() }
}

/// Calls `*` of `Ratio<i32>`. Assumed: on operands whose cross-cancelled
/// numerator and denominator products fit in an `i32`, the result is the
/// product in lowest terms.
#[verifier::external_body]
fn ratio_mul(a: Rational, b: Rational) -> (r: Rational)
    requires
        product(a, b) is Some,
    ensures
        Some(r) == product(a, b),
{
    let q = Ratio::new_raw(a.numer, a.denom) * Ratio::new_raw(b.numer, b.denom);
    Rational { numer: *q.numer(), denom: *q.denom() }
}

/// Calls `Ratio::recip`. Assumed: numerator and denominator change places,
/// both negated when the numerator was negative. The call panics on zero and
/// overflows on a numerator of `i32::MIN`; both are excluded.
#[verifier::external_body]
fn ratio_recip(a: Rational) -> (r: Rational)
    requires
        reciprocal(a) is Some,
    ensures
        Some(r) == reciprocal(a),
{
    let q = Ratio::new_raw(a.numer, a.denom).recip();
    Rational { numer: *q.numer(), denom: *q.denom() }
}

/// Calls `to_string` of `Ratio<i32>`, that is its `Display`. Assumed: the
/// text is the numerator in decimal, followed by `/` and the denominator in
/// decimal unless the denominator is 1.
#[verifier::external_body]
fn ratio_to_string(a: Rational) -> (s: String)
    requires
        a.wf(),
    ensures
        s@ == a.text(),
{
    Ratio::new_raw(a.numer, a.denom).to_string()
}

impl Rational {
    /// The rational `numer / denom`, in lowest terms.
    ///
    /// The denominator must not be zero, and the reduced fraction must fit
    /// in 32 bits (see [`lemma_ratio_defined`] for a simple sufficient
    /// condition).
    pub fn new(numer: i32, denom: i32) -> (r: Rational)
        requires
            ratio(numer as int, denom as int) is Some,
        ensures
            r.wf(),
            Some(r) == ratio(numer as int, denom as int),
    {
        proof {
            lemma_ratio_wf(numer as int, denom as int);
        }
        ratio_new(numer, denom)
    }

    /// The rational that stands for the integer `n`.
    pub fn from_integer(n: i32) -> (r: Rational)
        ensures
            r.wf(),
            r == Rational::integer(n),
    {
        proof {
            lemma_gcd_one(abs(n as int));
        }
        Rational { numer: n, denom: 1 }
    }

    /// The rational 0.
    pub fn zero() -> (r: Rational)
        ensures
            r.wf(),
            r == Rational::zero_spec(),
    {
        Rational::from_integer(0)
    }

    /// The rational 1.
    pub fn one() -> (r: Rational)
        ensures
            r.wf(),
            r == Rational::one_spec(),
    {
        Rational::from_integer(1)
    }

    /// The numerator.
    pub fn numer(&self) -> (n: i32)
        ensures
            n == self.numer,
    {
        self.numer
    }

    /// The denominator.
    pub fn denom(&self) -> (d: i32)
        ensures
            d == self.denom,
    {
        self.denom
    }

    /// Whether this is the rational 0.
    pub fn is_zero(&self) -> (b: bool)
        ensures
            b == (self.numer == 0),
            self.wf() ==> b == (*self == Rational::zero_spec()),
    {
        proof {
            if self.wf() && self.numer == 0 {
                assert(gcd(0, self.denom as nat) == self.denom) by {
                    reveal_with_fuel(gcd, 2);
                    lemma_multiple_divides(0, self.denom as int);
                }
            }
        }
        self.numer == 0
    }

    /// Whether this is the rational 1.
    pub fn is_one(&self) -> (b: bool)
        requires
            self.wf(),
        ensures
            b == (*self == Rational::one_spec()),
    {
        proof {
            if self.numer == self.denom {
                assert(gcd(self.denom as nat, self.denom as nat) == self.denom) by {
                    reveal_with_fuel(gcd, 2);
                    lemma_multiple_divides(1, self.denom as int);
                }
            }
        }
        self.numer == self.denom
    }

    /// Whether this is the rational -1.
    pub fn is_minus_one(&self) -> (b: bool)
        ensures
            b == (*self == Rational::integer(-1i32)),
    {
        self.numer == -1 && self.denom == 1
    }

    /// The sum of two rationals, where [`sum`] is defined.
    pub fn plus(self, other: Rational) -> (r: Rational)
        requires
            sum(self, other) is Some,
        ensures
            r.wf(),
            Some(r) == sum(self, other),
    {
        proof {
            lemma_sum_wf(self, other);
        }
        ratio_add(self, other)
    }

    /// The product of two rationals, where [`product`] is defined.
    pub fn times(self, other: Rational) -> (r: Rational)
        requires
            product(self, other) is Some,
        ensures
            r.wf(),
            Some(r) == product(self, other),
    {
        proof {
            lemma_product_wf(self, other);
        }
        ratio_mul(self, other)
    }

    /// The reciprocal, where [`reciprocal`] is defined.
    pub fn recip(&self) -> (r: Rational)
        requires
            reciprocal(*self) is Some,
        ensures
            r.wf(),
            Some(r) == reciprocal(*self),
    {
        proof {
            lemma_reciprocal_wf(*self);
        }
        ratio_recip(*self)
    }

    /// The text of the rational, such as `3/4`, `-2` or `0`.
    pub fn to_string(&self) -> (s: String)
        requires
            self.wf(),
        ensures
            s@ == self.text(),
    {
        ratio_to_string(*self)
    }
}

impl Rational {
    /// Whether the rational is well-formed: whether its denominator is
    /// positive and it is in lowest terms.
    pub fn is_well_formed(&self) -> (b: bool)
        ensures
            b == self.wf(),
    {
        self.denom > 0 && gcd_of(magnitude(self.numer), self.denom as u32) == 1
    }

    /// Whether the sum of two rationals can be computed within 32 bits.
    pub fn sum_defined(self, other: Rational) -> (b: bool)
        requires
            self.wf(),
            other.wf(),
        ensures
            b == sum(self, other) is Some,
    {
        let g = gcd_of(self.denom as u32, other.denom as u32) as i64;
        let (an, ad) = (self.numer as i64, self.denom as i64);
        let (bn, bd) = (other.numer as i64, other.denom as i64);
        proof {
            lemma_quotients_coprime(ad as nat, bd as nat);
            lemma_divides_iff_multiple(ad as int, g as int);
            lemma_divides_iff_multiple(bd as int, g as int);
            assert(0 < ad / g <= ad && (ad / g) * bd <= ad * bd && ad * bd
                <= 0x4000_0000_0000_0000) by (nonlinear_arith)
                requires
                    ad == g * (ad / g),
                    0 < g,
                    0 < ad <= 0x7fff_ffff,
                    0 < bd <= 0x7fff_ffff,
            ;
        }
        let l = (ad / g) * bd;
        if l > 0x7fff_ffff {
            return false;
        }
        proof {
            assert(l > 0) by (nonlinear_arith)
                requires
                    l == (ad / g) * bd,
                    ad / g > 0,
                    bd > 0,
            ;
            assert(0 < l / ad <= l && 0 < l / bd <= l) by {
                assert(l == ad * (bd / g) && l == bd * (ad / g) && bd / g > 0) by (nonlinear_arith)
                    requires
                        l == (ad / g) * bd,
                        ad == g * (ad / g),
                        bd == g * (bd / g),
                        ad > 0,
                        bd > 0,
                        g > 0,
                ;
                lemma_multiple_divides((bd / g) as int, ad as int);
                lemma_multiple_divides((ad / g) as int, bd as int);
                assert(bd / g <= l && ad / g <= l) by (nonlinear_arith)
                    requires
                        l == ad * (bd / g),
                        l == bd * (ad / g),
                        ad >= 1,
                        bd >= 1,
                        bd / g > 0,
                        ad / g > 0,
                ;
            }
            assert(-0x4000_0000_0000_0000 <= an * (l / ad) <= 0x4000_0000_0000_0000) by (
                nonlinear_arith)
                requires
                    -0x8000_0000 <= an <= 0x7fff_ffff,
                    0 < l / ad <= 0x7fff_ffff,
            ;
            assert(-0x4000_0000_0000_0000 <= bn * (l / bd) <= 0x4000_0000_0000_0000) by (
                nonlinear_arith)
                requires
                    -0x8000_0000 <= bn <= 0x7fff_ffff,
                    0 < l / bd <= 0x7fff_ffff,
            ;
        }
        let x = an * (l / ad);
        let y = bn * (l / bd);
        -0x8000_0000 <= x && x <= 0x7fff_ffff && -0x8000_0000 <= y && y <= 0x7fff_ffff
            && -0x8000_0000 <= x + y && x + y <= 0x7fff_ffff
    }

    /// Whether the product of two rationals can be computed within 32 bits.
    pub fn product_defined(self, other: Rational) -> (b: bool)
        requires
            self.wf(),
            other.wf(),
        ensures
            b == product(self, other) is Some,
    {
        let g1 = gcd_of(magnitude(self.numer), other.denom as u32) as i64;
        let g2 = gcd_of(self.denom as u32, magnitude(other.numer)) as i64;
        let (an, ad) = (self.numer as i64, self.denom as i64);
        let (bn, bd) = (other.numer as i64, other.denom as i64);
        proof {
            lemma_quotients_coprime(abs(an as int), bd as nat);
            lemma_gcd_symmetric(ad as nat, abs(bn as int));
            lemma_quotients_coprime(abs(bn as int), ad as nat);
            lemma_abs_quotient(an as int, g1 as int);
            lemma_abs_quotient(bn as int, g2 as int);
            lemma_abs_quotient(-(an as int), g1 as int);
            lemma_abs_quotient(-(bn as int), g2 as int);
            lemma_abs_quotient(ad as int, g2 as int);
            lemma_abs_quotient(bd as int, g1 as int);
            let (a1, b1) = (an as int / g1 as int, bn as int / g2 as int);
            let (a2, b2) = (ad as int / g2 as int, bd as int / g1 as int);
            assert(-0x4000_0000_0000_0000 <= a1 * b1 <= 0x4000_0000_0000_0000) by (nonlinear_arith)
                requires
                    -0x8000_0000 <= a1 <= 0x8000_0000,
                    -0x8000_0000 <= b1 <= 0x8000_0000,
            ;
            assert(0 <= a2 * b2 <= 0x4000_0000_0000_0000) by (nonlinear_arith)
                requires
                    0 <= a2 <= 0x8000_0000,
                    0 <= b2 <= 0x8000_0000,
            ;
        }
        let x = (an / g1) * (bn / g2);
        let y = (ad / g2) * (bd / g1);
        -0x8000_0000 <= x && x <= 0x7fff_ffff && y <= 0x7fff_ffff
    }

    /// The product of two rationals, or `None` where it cannot be computed
    /// within 32 bits.
    pub fn checked_times(self, other: Rational) -> (r: Option<Rational>)
        requires
            self.wf(),
            other.wf(),
        ensures
            r == product(self, other),
            r matches Some(p) ==> p.wf(),
    {
        if self.product_defined(other) {
            Some(self.times(other))
        } else {
            None
        }
    }

    /// The reciprocal, or `None` for zero and for a rational whose
    /// numerator is `i32::MIN`.
    pub fn checked_recip(&self) -> (r: Option<Rational>)
        requires
            self.wf(),
        ensures
            r == reciprocal(*self),
            r matches Some(p) ==> p.wf(),
    {
        if self.numer != 0 && self.numer != i32::MIN {
            Some(self.recip())
        } else {
            None
        }
    }

    /// The sum of two rationals, or `None` where it cannot be computed
    /// within 32 bits.
    pub fn checked_plus(self, other: Rational) -> (r: Option<Rational>)
        requires
            self.wf(),
            other.wf(),
        ensures
            r == sum(self, other),
            r matches Some(s) ==> s.wf(),
    {
        if self.sum_defined(other) {
            Some(self.plus(other))
        } else {
            None
        }
    }
}

impl core::ops::Add for Rational {
    type Output = Rational;

    /// `self + other`, where [`sum`] is defined.
    fn add(self, other: Rational) -> (r: Rational)
        ensures
            r.wf(),
    {
        self.plus(other)
    }
}

impl AddSpecImpl for Rational {
    open spec fn obeys_add_spec() -> bool {
        true
    }

    open spec fn add_req(self, other: Rational) -> bool {
        sum(self, other) is Some
    }

    open spec fn add_spec(self, other: Rational) -> Rational {
        sum(self, other).unwrap()
    }
}

impl core::ops::Mul for Rational {
    type Output = Rational;

    /// `self * other`, where [`product`] is defined.
    fn mul(self, other: Rational) -> (r: Rational)
        ensures
            r.wf(),
    {
        self.times(other)
    }
}

impl MulSpecImpl for Rational {
    open spec fn obeys_mul_spec() -> bool {
        true
    }

    open spec fn mul_req(self, other: Rational) -> bool {
        product(self, other) is Some
    }

    open spec fn mul_spec(self, other: Rational) -> Rational {
        product(self, other).unwrap()
    }
}

} // verus!
