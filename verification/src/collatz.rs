//! Prime factorization, and the rules of the reverse Collatz graph.
//!
//! The graph grows from 1 against the direction of the Collatz map: a node
//! `n` leads to `2 n`, and to `(n - 1) / 3` where that is an odd number
//! other than 1 with `3 * ((n - 1) / 3) + 1 == n`. Each node is labelled
//! with its prime factorization.

use crate::gcd::{lemma_divides_iff_multiple, lemma_multiple_divides};
use crate::rational::digits;
use vstd::prelude::*;

verus! {

/// `b` to the power `e`.
pub open spec fn power(b: nat, e: nat) -> nat
    decreases e,
{
    if e == 0 {
        1
    } else {
        b * power(b, (e - 1) as nat)
    }
}

/// Whether `p` is a prime number.
pub open spec fn is_prime(p: nat) -> bool {
    p >= 2 && forall|d: nat| 2 <= d < p ==> #[trigger] (p % d) != 0
}

/// The number that a list of (base, exponent) pairs stands for: the
/// product of the powers.
pub open spec fn product_of(factors: Seq<(u64, u64)>) -> nat
    decreases factors.len(),
{
    if factors.len() == 0 {
        1
    } else {
        power(factors[0].0 as nat, factors[0].1 as nat) * product_of(factors.skip(1))
    }
}

/// Whether the list is a prime factorization: the bases are primes in
/// strictly ascending order, and no exponent is zero.
pub open spec fn is_factorization(factors: Seq<(u64, u64)>) -> bool {
    &&& forall|i: int|
        0 <= i < factors.len() ==> is_prime((#[trigger] factors[i]).0 as nat) && factors[i].1 >= 1
    &&& forall|i: int, j: int|
        0 <= i < j < factors.len() ==> (#[trigger] factors[i]).0 < (#[trigger] factors[j]).0
}

/// Every base of the list divides `n`.
pub open spec fn bases_divide(factors: Seq<(u64, u64)>, n: nat) -> bool {
    forall|i: int| 0 <= i < factors.len() ==> n % ((#[trigger] factors[i]).0 as nat) == 0
}

/// A power of a number that is at least 2 exceeds its exponent.
pub proof fn lemma_power_exceeds_exponent(b: nat, e: nat)
    requires
        b >= 2,
    ensures
        power(b, e) > e,
    decreases e,
{
    if e > 0 {
        lemma_power_exceeds_exponent(b, (e - 1) as nat);
        assert(b * power(b, (e - 1) as nat) > e) by (nonlinear_arith)
            requires
                b >= 2,
                e >= 1,
                power(b, (e - 1) as nat) > e - 1,
        ;
    }
}

/// A prime factorization without its first pair is a prime factorization.
pub proof fn lemma_factorization_tail(factors: Seq<(u64, u64)>)
    requires
        is_factorization(factors),
        factors.len() > 0,
    ensures
        is_factorization(factors.skip(1)),
{
    let rest = factors.skip(1);
    assert forall|i: int| 0 <= i < rest.len() implies is_prime((#[trigger] rest[i]).0 as nat)
        && rest[i].1 >= 1 by {
        assert(rest[i] == factors[i + 1]);
    }
    assert forall|i: int, j: int| 0 <= i < j < rest.len() implies (#[trigger] rest[i]).0 < (
    #[trigger] rest[j]).0 by {
        assert(rest[i] == factors[i + 1] && rest[j] == factors[j + 1]);
    }
}

/// The product of a factorization is positive.
pub proof fn lemma_product_positive(factors: Seq<(u64, u64)>)
    requires
        is_factorization(factors),
    ensures
        product_of(factors) >= 1,
    decreases factors.len(),
{
    if factors.len() > 0 {
        let rest = factors.skip(1);
        lemma_factorization_tail(factors);
        lemma_product_positive(rest);
        assert(is_prime(factors[0].0 as nat));
        lemma_power_exceeds_exponent(factors[0].0 as nat, factors[0].1 as nat);
        assert(power(factors[0].0 as nat, factors[0].1 as nat) * product_of(rest) >= 1)
            by (nonlinear_arith)
            requires
                power(factors[0].0 as nat, factors[0].1 as nat) >= 1,
                product_of(rest) >= 1,
        ;
    }
}

/// Divisibility is transitive.
pub proof fn lemma_divides_transitive(d: int, m: int, n: int)
    requires
        d > 0,
        m > 0,
        m % d == 0,
        n % m == 0,
    ensures
        n % d == 0,
{
    lemma_divides_iff_multiple(m, d);
    lemma_divides_iff_multiple(n, m);
    let j = m / d;
    let k = n / m;
    assert(n == d * (j * k)) by (nonlinear_arith)
        requires
            n == m * k,
            m == d * j,
    ;
    lemma_multiple_divides(j * k, d);
}

/// A number at least 2 with no divisor from 2 up to its integer square
/// root is prime.
pub proof fn lemma_prime_by_root(n: nat, s: nat)
    requires
        n >= 2,
        s * s <= n < (s + 1) * (s + 1),
        forall|d: nat| 2 <= d <= s ==> #[trigger] (n % d) != 0,
    ensures
        is_prime(n),
{
    assert forall|d: nat| 2 <= d < n implies #[trigger] (n % d) != 0 by {
        if d > s && n % d == 0 {
            lemma_divides_iff_multiple(n as int, d as int);
            let q = n as int / d as int;
            assert(2 <= q <= s) by (nonlinear_arith)
                requires
                    n == d * q,
                    2 <= d < n,
                    d >= s + 1,
                    n < (s + 1) * (s + 1),
            ;
            assert(n == q * d) by (nonlinear_arith)
                requires
                    n == d * q,
            ;
            lemma_multiple_divides(d as int, q);
            assert(n % (q as nat) == 0);
        }
    }
}

/// Calls `num::integer::sqrt`. Assumed: the result is the integer square
/// root, the largest number whose square does not exceed `n`.
#[verifier::external_body]
fn integer_sqrt(n: u64) -> (r: u64)
    ensures
        r * r <= n < (r + 1) * (r + 1),
{
    num::integer::sqrt(n)
}

/// The prime factorization of `n`, as (prime, exponent) pairs in ascending
/// order of primes. For `n` below 2 it is the single pair `(n, 1)`.
pub fn factorize(n: u64) -> (out: Vec<(u64, u64)>)
    ensures
        out.len() >= 1,
        product_of(out@) == n,
        n < 2 ==> out@ == seq![(n, 1u64)],
        n >= 2 ==> is_factorization(out@) && bases_divide(out@, n as nat),
    decreases n,
{
    let s = integer_sqrt(n);
    assert(s < 0x1_0000_0000) by (nonlinear_arith)
        requires
            s * s <= n,
            n <= u64::MAX,
    ;
    let mut m: u64 = 2;
    while m <= s
        invariant
            2 <= m,
            m <= s + 1 || m == 2,
            s * s <= n < (s + 1) * (s + 1),
            s < 0x1_0000_0000,
            forall|d: nat| 2 <= d < m ==> #[trigger] (n as nat % d) != 0,
        decreases s + 1 - m,
    {
        if n % m == 0 {
            let rest = n / m;
            proof {
                lemma_divides_iff_multiple(n as int, m as int);
                assert(2 <= rest < n) by (nonlinear_arith)
                    requires
                        n == m * rest,
                        2 <= m <= s,
                        s * s <= n,
                ;
            }
            let mut out = factorize(rest);
            let ghost tail = out@;
            let (base, exponent) = out[0];
            proof {
                lemma_factorization_tail(tail);
                lemma_product_positive(tail.skip(1));
                assert(is_prime(base as nat));
                lemma_power_exceeds_exponent(base as nat, exponent as nat);
                assert(exponent < rest) by (nonlinear_arith)
                    requires
                        power(base as nat, exponent as nat) * product_of(tail.skip(1)) == rest,
                        power(base as nat, exponent as nat) > exponent,
                        product_of(tail.skip(1)) >= 1,
                ;
                assert forall|i: int| 0 <= i < tail.len() implies (#[trigger] tail[i]).0 >= m
                    && (n as nat) % (tail[i].0 as nat) == 0 by {
                    lemma_multiple_divides(m as int, rest as int);
                    assert(n == rest * m) by (nonlinear_arith)
                        requires
                            n == m * rest,
                    ;
                    lemma_divides_transitive(tail[i].0 as int, rest as int, n as int);
                    assert(is_prime(tail[i].0 as nat));
                }
                assert(is_prime(m as nat)) by {
                    assert forall|d: nat| 2 <= d < m implies #[trigger] (m as nat % d) != 0 by {
                        if m as nat % d == 0 {
                            lemma_divides_transitive(d as int, m as int, n as int);
                        }
                    }
                }
            }
            if base == m {
                out.set(0, (base, exponent + 1));
                proof {
                    assert(out@.skip(1) =~= tail.skip(1));
                    assert(power(m as nat, (exponent + 1) as nat) * product_of(tail.skip(1)) == n)
                        by (nonlinear_arith)
                        requires
                            power(m as nat, (exponent + 1) as nat) == m * power(
                                m as nat,
                                exponent as nat,
                            ),
                            power(m as nat, exponent as nat) * product_of(tail.skip(1)) == rest,
                            n == m * rest,
                    ;
                    assert forall|i: int| 0 <= i < out.len() implies is_prime(
                        (#[trigger] out[i]).0 as nat,
                    ) && out[i].1 >= 1 && (n as nat) % (out[i].0 as nat) == 0 by {
                        assert(out[i].0 == tail[i].0);
                        assert(i > 0 ==> out[i] == tail[i]);
                    }
                    assert forall|i: int, j: int| 0 <= i < j < out.len() implies (#[trigger] out[i]).0
                        < (#[trigger] out[j]).0 by {
                        assert(out[i].0 == tail[i].0 && out[j].0 == tail[j].0);
                    }
                }
            } else {
                out.insert(0, (m, 1));
                proof {
                    assert(out@.skip(1) =~= tail);
                    reveal_with_fuel(power, 2);
                    assert(power(m as nat, 1) * product_of(tail) == n) by (nonlinear_arith)
                        requires
                            power(m as nat, 1) == m,
                            product_of(tail) == rest,
                            n == m * rest,
                    ;
                    assert forall|i: int| 0 <= i < out.len() implies is_prime(
                        (#[trigger] out[i]).0 as nat,
                    ) && out[i].1 >= 1 && (n as nat) % (out[i].0 as nat) == 0 by {
                        if i > 0 {
                            assert(out[i] == tail[i - 1]);
                        }
                    }
                    assert forall|i: int, j: int| 0 <= i < j < out.len() implies (#[trigger] out[i]).0
                        < (#[trigger] out[j]).0 by {
                        assert(out[j] == tail[j - 1]);
                        if i > 0 {
                            assert(out[i] == tail[i - 1]);
                        }
                    }
                }
            }
            return out;
        }
        m += 1;
    }
    let mut out: Vec<(u64, u64)> = Vec::new();
    out.push((n, 1));
    proof {
        assert(out@ =~= seq![(n, 1u64)]);
        assert(out@.skip(1) =~= Seq::<(u64, u64)>::empty());
        reveal_with_fuel(power, 2);
        reveal_with_fuel(product_of, 2);
        assert(power(n as nat, 1) == n) by (nonlinear_arith)
            requires
                power(n as nat, 1) == n * 1,
        ;
        if n >= 2 {
            lemma_prime_by_root(n as nat, s as nat);
            lemma_multiple_divides(1, n as int);
        }
    }
    out
}

/// The nodes that the node `n` leads to, in the order in which their
/// edges are drawn.
///
/// A node above `limit`, or divisible by 3, leads nowhere. Any other node
/// leads to `2 n`; before that it leads to `(n - 1) / 3` if `n` is one more
/// than a multiple of 3 and `(n - 1) / 3` is odd and not 1.
pub open spec fn successors_of(n: u64, limit: u64) -> Seq<u64> {
    let c = ((n - 1) / 3) as u64;
    if n > limit || n % 3 == 0 {
        Seq::empty()
    } else if c != 0 && c != 1 && n % 3 == 1 && c % 2 == 1 {
        seq![c, (2 * n) as u64]
    } else {
        seq![(2 * n) as u64]
    }
}

/// The colour of a node, by its remainder modulo 3.
pub open spec fn colour_of(n: u64) -> Seq<char> {
    if n % 3 == 0 {
        "red"@
    } else if n % 3 == 1 {
        "green"@
    } else {
        "blue"@
    }
}

/// The line that draws the edge from `a` to `b`.
pub open spec fn edge_text(a: u64, b: u64) -> Seq<char> {
    "\t"@ + digits(a as nat) + " -> "@ + digits(b as nat) + "\n"@
}

/// The label of a node: each prime followed by its exponent, raised.
pub open spec fn label_text(factors: Seq<(u64, u64)>) -> Seq<char>
    decreases factors.len(),
{
    if factors.len() == 0 {
        Seq::empty()
    } else {
        label_text(factors.drop_last()) + digits(factors.last().0 as nat)
            + "<SUP><FONT POINT-SIZE=\"12\">"@ + digits(factors.last().1 as nat)
            + "</FONT></SUP>"@
    }
}

/// The line that draws the node `n` with the given factorization as label.
pub open spec fn node_text(n: u64, factors: Seq<(u64, u64)>) -> Seq<char> {
    "\t"@ + digits(n as nat) + " [color=\""@ + colour_of(n) + "\", label=<"@ + label_text(factors)
        + ">]\n"@
}

/// Calls `to_string` of `u64`. Assumed: the text is the number in decimal,
/// without sign or leading zeros.
#[verifier::external_body]
fn number_text(n: u64) -> (s: String)
    ensures
        s@ == digits(n as nat),
{
    n.to_string()
}

/// The nodes that the node `n` leads to (see [`successors_of`]).
pub fn successors(n: u64, limit: u64) -> (out: Vec<u64>)
    requires
        n >= 1,
        limit <= u64::MAX / 2,
    ensures
        out@ == successors_of(n, limit),
{
    let mut out: Vec<u64> = Vec::new();
    if n <= limit && n % 3 != 0 {
        let b = n * 2;
        let c = (n - 1) / 3;
        if c != 0 && c != 1 && n % 3 == 1 && c % 2 == 1 {
            out.push(c);
        }
        out.push(b);
    }
    assert(out@ =~= successors_of(n, limit));
    out
}

/// The colour of a node: red, green or blue by its remainder modulo 3.
pub fn colour(n: u64) -> (c: &'static str)
    ensures
        c@ == colour_of(n),
{
    if n % 3 == 0 {
        "red"
    } else if n % 3 == 1 {
        "green"
    } else {
        "blue"
    }
}

/// The line that draws the edge from `a` to `b` in the graph description.
pub fn edge_line(a: u64, b: u64) -> (s: String)
    ensures
        s@ == edge_text(a, b),
{
    let mut s = String::from_str("\t");
    s.append(number_text(a).as_str());
    s.append(" -> ");
    s.append(number_text(b).as_str());
    s.append("\n");
    s
}

/// The line that draws the node `n`, coloured by its remainder modulo 3
/// and labelled with the given factorization.
pub fn node_line(n: u64, factors: &Vec<(u64, u64)>) -> (s: String)
    ensures
        s@ == node_text(n, factors@),
{
    let mut label = String::new();
    let mut i: usize = 0;
    assert(factors@.take(0) =~= Seq::<(u64, u64)>::empty());
    while i < factors.len()
        invariant
            i <= factors.len(),
            label@ == label_text(factors@.take(i as int)),
        decreases factors.len() - i,
    {
        assert(factors@.take(i + 1).drop_last() =~= factors@.take(i as int));
        label.append(number_text(factors[i].0).as_str());
        label.append("<SUP><FONT POINT-SIZE=\"12\">");
        label.append(number_text(factors[i].1).as_str());
        label.append("</FONT></SUP>");
        i += 1;
    }
    assert(factors@.take(i as int) =~= factors@);
    let mut s = String::from_str("\t");
    s.append(number_text(n).as_str());
    s.append(" [color=\"");
    s.append(colour(n));
    s.append("\", label=<");
    s.append(label.as_str());
    s.append(">]\n");
    s
}

} // verus!
