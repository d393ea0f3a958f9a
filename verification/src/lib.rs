//! A small symbolic-algebra engine, verified.
//!
//! - [`gcd`]: greatest common divisors and their laws.
//! - [`rational`]: exact rational coefficients over 32-bit integers.
//! - [`expr`]: expression trees over coefficients and named variables, and
//!   the operators that build them.
//! - [`simplify`]: the simplifier that brings an expression to canonical
//!   form, and the zero test that rests on it.
//! - [`canonical`]: what holds of canonical forms; simplification is
//!   idempotent.
//! - [`meaning`]: the value of an expression; simplification keeps it.
//! - [`display`]: the text of an expression.
//! - [`matrix`]: Gauss-Jordan style row reduction over matrices of
//!   expressions.
//! - [`dual`]: dual numbers for forward-mode differentiation.
//! - [`collatz`]: prime factorization and the rules of the reverse Collatz
//!   graph.

pub mod canonical;
pub mod collatz;
pub mod display;
pub mod dual;
pub mod expr;
pub mod gcd;
pub mod matrix;
pub mod meaning;
pub mod rational;
pub mod simplify;
