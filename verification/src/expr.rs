//! Algebraic expressions over rational coefficients and named variables.
//!
//! [`Expression`] is the executable tree; [`ExprView`] is its mathematical
//! model, in which a variable's name is a sequence of characters. The
//! operators `+ - * /` only build tree structure: nothing is simplified
//! until [`Expression::simplify`](crate::simplify) is asked to.

use crate::rational::Rational;
use vstd::prelude::*;
use vstd::std_specs::ops::{AddSpecImpl, DivSpecImpl, MulSpecImpl, SubSpecImpl};

verus! {

/// The model of an expression.
pub enum ExprView {
    /// A constant.
    Val(Rational),
    /// The monomial `coefficient * name`.
    Var(Rational, Seq<char>),
    /// A sum.
    Add(Box<ExprView>, Box<ExprView>),
    /// A product.
    Mul(Box<ExprView>, Box<ExprView>),
    /// A multiplicative inverse.
    Inv(Box<ExprView>),
}

impl ExprView {
    /// Every coefficient in the tree is a well-formed rational.
    pub open spec fn wf(self) -> bool
        decreases self,
    {
        match self {
            ExprView::Val(c) => c.wf(),
            ExprView::Var(c, _) => c.wf(),
            ExprView::Add(a, b) => a.wf() && b.wf(),
            ExprView::Mul(a, b) => a.wf() && b.wf(),
            ExprView::Inv(a) => a.wf(),
        }
    }

    /// The constant 0.
    pub open spec fn zero() -> ExprView {
        ExprView::Val(Rational::zero_spec())
    }

    /// The constant 1.
    pub open spec fn one() -> ExprView {
        ExprView::Val(Rational::one_spec())
    }

    /// The variable `name`, with coefficient 1.
    pub open spec fn variable(name: Seq<char>) -> ExprView {
        ExprView::Var(Rational::one_spec(), name)
    }

    /// The sum `self + other`, as a tree.
    pub open spec fn plus(self, other: ExprView) -> ExprView {
        ExprView::Add(Box::new(self), Box::new(other))
    }

    /// The product `self * other`, as a tree.
    pub open spec fn times(self, other: ExprView) -> ExprView {
        ExprView::Mul(Box::new(self), Box::new(other))
    }

    /// The inverse `1 / self`, as a tree.
    pub open spec fn inverse(self) -> ExprView {
        ExprView::Inv(Box::new(self))
    }

    /// The difference `self - other`: the sum of `self` and `other * -1`.
    pub open spec fn minus(self, other: ExprView) -> ExprView {
        self.plus(other.times(ExprView::Val(Rational::integer(-1i32))))
    }

    /// The quotient `self / other`: the product of `self` and the inverse of `other`.
    pub open spec fn over(self, other: ExprView) -> ExprView {
        self.times(other.inverse())
    }
}

/// An algebraic expression: a tree that owns its sub-expressions.
#[derive(Debug, PartialEq, Eq)]
pub enum Expression {
    /// A constant.
    Val(Rational),
    /// The monomial `coefficient * name`.
    Var(Rational, String),
    /// A sum.
    Add(Box<Expression>, Box<Expression>),
    /// A product.
    Mul(Box<Expression>, Box<Expression>),
    /// A multiplicative inverse.
    Inv(Box<Expression>),
}

impl Expression {
    /// The model of the tree: the same shape, each name as its characters.
    pub open spec fn model(&self) -> ExprView
        decreases self,
    {
        match self {
            Expression::Val(c) => ExprView::Val(*c),
            Expression::Var(c, name) => ExprView::Var(*c, name@),
            Expression::Add(a, b) => ExprView::Add(Box::new(a.model()), Box::new(b.model())),
            Expression::Mul(a, b) => ExprView::Mul(Box::new(a.model()), Box::new(b.model())),
            Expression::Inv(a) => ExprView::Inv(Box::new(a.model())),
        }
    }
}

impl View for Expression {
    type V = ExprView;

    open spec fn view(&self) -> ExprView {
        self.model()
    }
}

impl Clone for Expression {
    fn clone(&self) -> (r: Expression)
        ensures
            r == *self,
        decreases self,
    {
        match self {
            Expression::Val(c) => Expression::Val(*c),
            Expression::Var(c, name) => Expression::Var(*c, name.clone()),
            Expression::Add(a, b) => Expression::Add(
                Box::new((&**a).clone()),
                Box::new((&**b).clone()),
            ),
            Expression::Mul(a, b) => Expression::Mul(
                Box::new((&**a).clone()),
                Box::new((&**b).clone()),
            ),
            Expression::Inv(a) => Expression::Inv(Box::new((&**a).clone())),
        }
    }
}

impl Expression {
    /// Well-formedness: every coefficient is a well-formed rational.
    pub open spec fn wf(&self) -> bool {
        self@.wf()
    }

    /// Whether every coefficient of the tree is a well-formed rational.
    pub fn is_well_formed(&self) -> (b: bool)
        ensures
            b == self.wf(),
        decreases self,
    {
        match self {
            Expression::Val(c) => c.is_well_formed(),
            Expression::Var(c, _) => c.is_well_formed(),
            Expression::Add(a, b) => (&**a).is_well_formed() && (&**b).is_well_formed(),
            Expression::Mul(a, b) => (&**a).is_well_formed() && (&**b).is_well_formed(),
            Expression::Inv(a) => (&**a).is_well_formed(),
        }
    }

    /// The constant `c`.
    pub fn value(c: Rational) -> (r: Expression)
        ensures
            r == Expression::Val(c),
    {
        Expression::Val(c)
    }

    /// The variable `name`, with coefficient 1.
    pub fn new_var(name: &str) -> (r: Expression)
        ensures
            r.wf(),
            r@ == ExprView::variable(name@),
    {
        Expression::Var(Rational::one(), String::from_str(name))
    }

    /// The constant 0.
    pub fn zero() -> (r: Expression)
        ensures
            r.wf(),
            r@ == ExprView::zero(),
    {
        Expression::Val(Rational::zero())
    }

    /// The inverse `1 / self`, as a tree.
    pub fn inv(self) -> (r: Expression)
        ensures
            r == Expression::Inv(Box::new(self)),
            r@ == self@.inverse(),
            self.wf() ==> r.wf(),
    {
        Expression::Inv(Box::new(self))
    }
}

impl core::ops::Add for Expression {
    type Output = Expression;

    /// `self + other`: an `Add` node over the two operands.
    fn add(self, other: Expression) -> (r: Expression)
        ensures
            r@ == self@.plus(other@),
            self.wf() && other.wf() ==> r.wf(),
    {
        Expression::Add(Box::new(self), Box::new(other))
    }
}

impl AddSpecImpl for Expression {
    open spec fn obeys_add_spec() -> bool {
        true
    }

    open spec fn add_req(self, other: Expression) -> bool {
        true
    }

    open spec fn add_spec(self, other: Expression) -> Expression {
        Expression::Add(Box::new(self), Box::new(other))
    }
}

impl core::ops::Mul for Expression {
    type Output = Expression;

    /// `self * other`: a `Mul` node over the two operands.
    fn mul(self, other: Expression) -> (r: Expression)
        ensures
            r@ == self@.times(other@),
            self.wf() && other.wf() ==> r.wf(),
    {
        Expression::Mul(Box::new(self), Box::new(other))
    }
}

impl MulSpecImpl for Expression {
    open spec fn obeys_mul_spec() -> bool {
        true
    }

    open spec fn mul_req(self, other: Expression) -> bool {
        true
    }

    open spec fn mul_spec(self, other: Expression) -> Expression {
        Expression::Mul(Box::new(self), Box::new(other))
    }
}

impl core::ops::Sub for Expression {
    type Output = Expression;

    /// `self - other`: the sum of `self` and `other * -1`.
    fn sub(self, other: Expression) -> (r: Expression)
        ensures
            r@ == self@.minus(other@),
            self.wf() && other.wf() ==> r.wf(),
    {
        self + other * Expression::Val(Rational::from_integer(-1))
    }
}

impl SubSpecImpl for Expression {
    open spec fn obeys_sub_spec() -> bool {
        true
    }

    open spec fn sub_req(self, other: Expression) -> bool {
        true
    }

    open spec fn sub_spec(self, other: Expression) -> Expression {
        Expression::Add(
            Box::new(self),
            Box::new(
                Expression::Mul(
                    Box::new(other),
                    Box::new(Expression::Val(Rational::integer(-1i32))),
                ),
            ),
        )
    }
}

impl core::ops::Div for Expression {
    type Output = Expression;

    /// `self / other`: the product of `self` and the inverse of `other`.
    fn div(self, other: Expression) -> (r: Expression)
        ensures
            r@ == self@.over(other@),
            self.wf() && other.wf() ==> r.wf(),
    {
        self * Expression::Inv(Box::new(other))
    }
}

impl DivSpecImpl for Expression {
    open spec fn obeys_div_spec() -> bool {
        true
    }

    open spec fn div_req(self, other: Expression) -> bool {
        true
    }

    open spec fn div_spec(self, other: Expression) -> Expression {
        Expression::Mul(Box::new(self), Box::new(Expression::Inv(Box::new(other))))
    }
}

} // verus!
