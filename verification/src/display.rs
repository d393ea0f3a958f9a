//! The text of an expression.
//!
//! No parentheses are ever written, so the text determines the tree only
//! for expressions in canonical form.

use crate::expr::{ExprView, Expression};
use crate::rational::Rational;
use vstd::prelude::*;

verus! {

impl ExprView {
    /// The text of the expression.
    ///
    /// A constant is the text of its rational. A variable is its name,
    /// preceded by `-` if the coefficient is -1, and by the coefficient's
    /// text if it is neither 1 nor -1. Sums and products put `+` and `*`
    /// between the texts of their operands; an inverse puts `1/` in front.
    pub open spec fn text(self) -> Seq<char>
        decreases self,
    {
        match self {
            ExprView::Val(c) => c.text(),
            ExprView::Var(c, name) => if c == Rational::integer(-1i32) {
                seq!['-'] + name
            } else if c == Rational::one_spec() {
                name
            } else {
                c.text() + name
            },
            ExprView::Add(a, b) => a.text() + seq!['+'] + b.text(),
            ExprView::Mul(a, b) => a.text() + seq!['*'] + b.text(),
            ExprView::Inv(a) => seq!['1', '/'] + a.text(),
        }
    }
}

impl Expression {
    /// The text of the expression, such as `2x+-y+3/4`.
    pub fn to_string(&self) -> (s: String)
        requires
            self.wf(),
        ensures
            s@ == self@.text(),
        decreases self,
    {
        proof {
            reveal_strlit("-");
            reveal_strlit("+");
            reveal_strlit("*");
            reveal_strlit("1/");
        }
        match self {
            Expression::Val(c) => c.to_string(),
            Expression::Var(c, name) => {
                let mut s = if c.is_minus_one() {
                    String::from_str("-")
                } else if c.is_one() {
                    String::new()
                } else {
                    c.to_string()
                };
                s.append(name.as_str());
                assert(s@ =~= self@.text());
                s
            },
            Expression::Add(a, b) => {
                let mut s = (&**a).to_string();
                let right = (&**b).to_string();
                s.append("+");
                s.append(right.as_str());
                assert(s@ =~= self@.text());
                s
            },
            Expression::Mul(a, b) => {
                let mut s = (&**a).to_string();
                let right = (&**b).to_string();
                s.append("*");
                s.append(right.as_str());
                assert(s@ =~= self@.text());
                s
            },
            Expression::Inv(a) => {
                let mut s = String::from_str("1/");
                let operand = (&**a).to_string();
                s.append(operand.as_str());
                assert(s@ =~= self@.text());
                s
            },
        }
    }
}

} // verus!
