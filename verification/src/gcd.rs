//! Greatest common divisors: the definition, its laws, and Euclid's
//! algorithm.

use vstd::arithmetic::div_mod::{lemma_fundamental_div_mod, lemma_fundamental_div_mod_converse};
use vstd::prelude::*;

verus! {

/// Absolute value of an integer.
pub open spec fn abs(n: int) -> nat {
    if n < 0 {
        (-n) as nat
    } else {
        n as nat
    }
}

/// Greatest common divisor of two naturals (Euclid); `gcd(0, 0) == 0`.
pub open spec fn gcd(a: nat, b: nat) -> nat
    decreases b,
{
    if b == 0 {
        a
    } else {
        gcd(b, a % b)
    }
}

/// `d` divides `n` exactly when `n` is `d` times the quotient.
pub proof fn lemma_divides_iff_multiple(n: int, d: int)
    requires
        d > 0,
    ensures
        n % d == 0 <==> n == d * (n / d),
{
    lemma_fundamental_div_mod(n, d);
}

/// Any multiple of `d` has remainder zero and the expected quotient.
pub proof fn lemma_multiple_divides(k: int, d: int)
    requires
        d > 0,
    ensures
        (d * k) % d == 0,
        (d * k) / d == k,
{
    assert(d * k == k * d + 0) by (nonlinear_arith);
    lemma_fundamental_div_mod_converse(d * k, d, k, 0);
}

/// The gcd is positive unless both arguments are zero.
pub proof fn lemma_gcd_positive(a: nat, b: nat)
    requires
        a > 0 || b > 0,
    ensures
        gcd(a, b) > 0,
    decreases b,
{
    if b != 0 {
        lemma_gcd_positive(b, a % b);
    }
}

/// The gcd divides both arguments.
pub proof fn lemma_gcd_divides(a: nat, b: nat)
    requires
        a > 0 || b > 0,
    ensures
        gcd(a, b) > 0,
        a % gcd(a, b) == 0,
        b % gcd(a, b) == 0,
    decreases b,
{
    lemma_gcd_positive(a, b);
    let g = gcd(a, b) as int;
    if b == 0 {
        lemma_multiple_divides(1, g);
        lemma_multiple_divides(0, g);
    } else {
        let r = a % b;
        let q = a as int / b as int;
        lemma_gcd_divides(b, r);
        lemma_fundamental_div_mod(a as int, b as int);
        lemma_divides_iff_multiple(b as int, g);
        lemma_divides_iff_multiple(r as int, g);
        let kb = b as int / g;
        let kr = r as int / g;
        assert(a == g * (kb * q + kr)) by (nonlinear_arith)
            requires
                a == b * q + r,
                b == g * kb,
                r == g * kr,
        ;
        lemma_multiple_divides(kb * q + kr, g);
    }
}

/// Every common divisor of two naturals divides their gcd.
pub proof fn lemma_gcd_greatest(a: nat, b: nat, c: nat)
    requires
        c > 0,
        a % c == 0,
        b % c == 0,
    ensures
        gcd(a, b) % c == 0,
    decreases b,
{
    if b != 0 {
        let r = a % b;
        let q = a as int / b as int;
        lemma_fundamental_div_mod(a as int, b as int);
        lemma_divides_iff_multiple(a as int, c as int);
        lemma_divides_iff_multiple(b as int, c as int);
        let ka = a as int / c as int;
        let kb = b as int / c as int;
        assert(r == c * (ka - kb * q)) by (nonlinear_arith)
            requires
                a == b * q + r,
                a == c * ka,
                b == c * kb,
        ;
        lemma_multiple_divides(ka - kb * q, c as int);
        lemma_gcd_greatest(b, r, c);
    }
}

/// The gcd does not depend on the order of its arguments.
pub proof fn lemma_gcd_symmetric(a: nat, b: nat)
    ensures
        gcd(a, b) == gcd(b, a),
{
    if a == 0 || b == 0 {
        reveal_with_fuel(gcd, 2);
    } else if a < b {
        assert(a % b == a) by {
            lemma_fundamental_div_mod_converse(a as int, b as int, 0, a as int);
        }
    } else if b < a {
        assert(b % a == b) by {
            lemma_fundamental_div_mod_converse(b as int, a as int, 0, b as int);
        }
    }
}

/// `gcd(n, 1) == 1` for every `n`.
pub proof fn lemma_gcd_one(n: nat)
    ensures
        gcd(n, 1) == 1,
        gcd(1, n) == 1,
{
    reveal_with_fuel(gcd, 3);
    assert(n % 1 == 0) by {
        lemma_multiple_divides(n as int, 1);
    }
    lemma_gcd_symmetric(n, 1);
}

/// Dividing both arguments by their gcd leaves coprime numbers.
pub proof fn lemma_quotients_coprime(n: nat, d: nat)
    requires
        d > 0,
    ensures
        gcd(n, d) > 0,
        n as int % gcd(n, d) as int == 0,
        d as int % gcd(n, d) as int == 0,
        d as int / gcd(n, d) as int > 0,
        n as int / gcd(n, d) as int >= 0,
        gcd((n as int / gcd(n, d) as int) as nat, (d as int / gcd(n, d) as int) as nat) == 1,
{
    lemma_gcd_divides(n, d);
    let g = gcd(n, d) as int;
    let n1 = n as int / g;
    let d1 = d as int / g;
    lemma_divides_iff_multiple(n as int, g);
    lemma_divides_iff_multiple(d as int, g);
    assert(d1 > 0 && n1 >= 0) by (nonlinear_arith)
        requires
            d == g * d1,
            n == g * n1,
            d > 0,
            n >= 0,
            g > 0,
    ;
    lemma_gcd_divides(n1 as nat, d1 as nat);
    let h = gcd(n1 as nat, d1 as nat) as int;
    lemma_divides_iff_multiple(n1, h);
    lemma_divides_iff_multiple(d1, h);
    let kn = n1 / h;
    let kd = d1 / h;
    assert(g * h > 0 && n == (g * h) * kn && d == (g * h) * kd) by (nonlinear_arith)
        requires
            n == g * n1,
            d == g * d1,
            n1 == h * kn,
            d1 == h * kd,
            g > 0,
            h > 0,
    ;
    lemma_multiple_divides(kn, g * h);
    lemma_multiple_divides(kd, g * h);
    lemma_gcd_greatest(n, d, (g * h) as nat);
    lemma_divides_iff_multiple(g, g * h);
    let k = g / (g * h);
    assert(h == 1) by (nonlinear_arith)
        requires
            g == (g * h) * k,
            g > 0,
            h > 0,
    ;
}

/// of the absolute value.
pub proof fn lemma_abs_quotient(n: int, g: int)
    requires
        g > 0,
        abs(n) as int % g == 0,
    ensures
        n == g * (n / g),
        abs(n / g) == abs(n) as int / g,
        abs(n / g) <= abs(n),
        n >= 0 ==> n / g >= 0,
        n <= 0 ==> n / g <= 0,
{
    let k = abs(n) as int / g;
    lemma_divides_iff_multiple(abs(n) as int, g);
    if n < 0 {
        assert(n == g * (-k)) by (nonlinear_arith)
            requires
                -n == g * k,
        ;
        lemma_multiple_divides(-k, g);
    }
    assert(k >= 0 && k <= abs(n)) by (nonlinear_arith)
        requires
            abs(n) == g * k,
            g > 0,
    ;
}

/// The gcd of a positive number with itself, and with zero, is the number.
pub proof fn lemma_gcd_self(k: nat)
    requires
        k > 0,
    ensures
        gcd(k, k) == k,
        gcd(0, k) == k,
        gcd(k, 0) == k,
{
    reveal_with_fuel(gcd, 3);
    lemma_multiple_divides(1, k as int);
    lemma_multiple_divides(0, k as int);
}

/// The greatest common divisor, computed by Euclid's algorithm.
pub fn gcd_of(a: u32, b: u32) -> (g: u32)
    ensures
        g == gcd(a as nat, b as nat),
{
    let mut x = a;
    let mut y = b;
    while y != 0
        invariant
            gcd(x as nat, y as nat) == gcd(a as nat, b as nat),
        decreases y,
    {
        let r = x % y;
        x = y;
        y = r;
    }
    x
}

/// The absolute value of a 32-bit integer.
pub fn magnitude(n: i32) -> (m: u32)
    ensures
        m == abs(n as int),
{
    if n >= 0 {
        n as u32
    } else {
        (-(n as i64)) as u32
    }
}

} // verus!
