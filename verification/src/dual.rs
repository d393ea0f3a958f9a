//! Dual numbers for forward-mode differentiation.
//!
//! A dual number carries a value and the derivative of that value with
//! respect to one chosen variable. Arithmetic on dual numbers applies the
//! rules of differentiation to the derivative part. The component type is
//! any type with the arithmetic operators; what an operation returns is
//! stated through the contracts of the component's own operators.

use core::ops::{Add, Div, Mul, Neg, Sub};
use vstd::prelude::*;
use vstd::std_specs::ops::{
    AddSpec, AddSpecImpl, DivSpec, DivSpecImpl, MulSpec, MulSpecImpl, NegSpec, NegSpecImpl,
    SubSpec, SubSpecImpl,
};

verus! {

/// A dual number: the value `x` and its derivative `d`.
#[derive(Debug)]
pub struct Dual<T> {
    pub x: T,
    pub d: T,
}

impl<T> Dual<T> {
    /// The dual number with value `x` and derivative `d`.
    pub fn new(x: T, d: T) -> (r: Dual<T>)
        ensures
            r == (Dual { x, d }),
    {
        Dual { x, d }
    }

    /// A constant: its derivative is `zero`, the zero of the component type.
    pub fn value(x: T, zero: T) -> (r: Dual<T>)
        ensures
            r == (Dual { x, d: zero }),
    {
        Dual::new(x, zero)
    }

    /// The variable of differentiation: its derivative is `one`, the one of
    /// the component type.
    pub fn variable(x: T, one: T) -> (r: Dual<T>)
        ensures
            r == (Dual { x, d: one }),
    {
        Dual::new(x, one)
    }
}

impl<T: Add<Output = T>> Add for Dual<T> {
    type Output = Dual<T>;

    /// Sum rule: values and derivatives add.
    fn add(self, other: Dual<T>) -> (r: Dual<T>) {
        Dual::new(self.x.add(other.x), self.d.add(other.d))
    }
}

impl<T: Add<Output = T>> AddSpecImpl for Dual<T> {
    open spec fn obeys_add_spec() -> bool {
        T::obeys_add_spec()
    }

    open spec fn add_req(self, other: Dual<T>) -> bool {
        self.x.add_req(other.x) && self.d.add_req(other.d)
    }

    open spec fn add_spec(self, other: Dual<T>) -> Dual<T> {
        Dual { x: self.x.add_spec(other.x), d: self.d.add_spec(other.d) }
    }
}

impl<T: Sub<Output = T>> Sub for Dual<T> {
    type Output = Dual<T>;

    /// Difference rule: values and derivatives subtract.
    fn sub(self, other: Dual<T>) -> (r: Dual<T>) {
        Dual::new(self.x.sub(other.x), self.d.sub(other.d))
    }
}

impl<T: Sub<Output = T>> SubSpecImpl for Dual<T> {
    open spec fn obeys_sub_spec() -> bool {
        T::obeys_sub_spec()
    }

    open spec fn sub_req(self, other: Dual<T>) -> bool {
        self.x.sub_req(other.x) && self.d.sub_req(other.d)
    }

    open spec fn sub_spec(self, other: Dual<T>) -> Dual<T> {
        Dual { x: self.x.sub_spec(other.x), d: self.d.sub_spec(other.d) }
    }
}

impl<T: Mul<Output = T> + Add<Output = T> + Copy> Mul for Dual<T> {
    type Output = Dual<T>;

    /// Product rule: `(x * y)' = x' * y + x * y'`.
    fn mul(self, other: Dual<T>) -> (r: Dual<T>) {
        Dual::new(self.x.mul(other.x), self.d.mul(other.x).add(self.x.mul(other.d)))
    }
}

impl<T: Mul<Output = T> + Add<Output = T> + Copy> MulSpecImpl for Dual<T> {
    open spec fn obeys_mul_spec() -> bool {
        T::obeys_mul_spec() && T::obeys_add_spec()
    }

    open spec fn mul_req(self, other: Dual<T>) -> bool {
        &&& T::obeys_mul_spec()
        &&& self.x.mul_req(other.x)
        &&& self.d.mul_req(other.x)
        &&& self.x.mul_req(other.d)
        &&& self.d.mul_spec(other.x).add_req(self.x.mul_spec(other.d))
    }

    open spec fn mul_spec(self, other: Dual<T>) -> Dual<T> {
        Dual {
            x: self.x.mul_spec(other.x),
            d: self.d.mul_spec(other.x).add_spec(self.x.mul_spec(other.d)),
        }
    }
}

impl<T: Div<Output = T> + Mul<Output = T> + Sub<Output = T> + Copy> Div for Dual<T> {
    type Output = Dual<T>;

    /// Quotient rule: `(x / y)' = (x' * y - x * y') / (y * y)`.
    fn div(self, other: Dual<T>) -> (r: Dual<T>) {
        Dual::new(
            self.x.div(other.x),
            self.d.mul(other.x).sub(self.x.mul(other.d)).div(other.x.mul(other.x)),
        )
    }
}

impl<T: Div<Output = T> + Mul<Output = T> + Sub<Output = T> + Copy> DivSpecImpl for Dual<T> {
    open spec fn obeys_div_spec() -> bool {
        T::obeys_div_spec() && T::obeys_mul_spec() && T::obeys_sub_spec()
    }

    open spec fn div_req(self, other: Dual<T>) -> bool {
        &&& T::obeys_mul_spec()
        &&& T::obeys_sub_spec()
        &&& self.x.div_req(other.x)
        &&& self.d.mul_req(other.x)
        &&& self.x.mul_req(other.d)
        &&& self.d.mul_spec(other.x).sub_req(self.x.mul_spec(other.d))
        &&& other.x.mul_req(other.x)
        &&& self.d.mul_spec(other.x).sub_spec(self.x.mul_spec(other.d)).div_req(
            other.x.mul_spec(other.x),
        )
    }

    open spec fn div_spec(self, other: Dual<T>) -> Dual<T> {
        Dual {
            x: self.x.div_spec(other.x),
            d: self.d.mul_spec(other.x).sub_spec(self.x.mul_spec(other.d)).div_spec(
                other.x.mul_spec(other.x),
            ),
        }
    }
}

impl<T: Neg<Output = T>> Neg for Dual<T> {
    type Output = Dual<T>;

    /// Negation: value and derivative change sign.
    fn neg(self) -> (r: Dual<T>) {
        Dual::new(self.x.neg(), self.d.neg())
    }
}

impl<T: Neg<Output = T>> NegSpecImpl for Dual<T> {
    open spec fn obeys_neg_spec() -> bool {
        T::obeys_neg_spec()
    }

    open spec fn neg_req(self) -> bool {
        self.x.neg_req() && self.d.neg_req()
    }

    open spec fn neg_spec(self) -> Dual<T> {
        Dual { x: self.x.neg_spec(), d: self.d.neg_spec() }
    }
}

} // verus!
