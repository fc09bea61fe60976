//! Computations as trees.

use vstd::prelude::*;
use crate::literal::Literal;
use crate::operator::Operator;

verus! {

/// A computation over numbers: what a postfix sequence denotes. In a node
/// of two operands the first is the one that stood deeper on the value
/// stack, which is the left one of the written expression.
#[derive(Debug, PartialEq, Eq)]
pub enum Expr {
    /// A number.
    Operand(Literal),
    /// Zero minus the operand.
    Negate(Box<Expr>),
    /// The sum of the two.
    Add(Box<Expr>, Box<Expr>),
    /// The first minus the second.
    Subtract(Box<Expr>, Box<Expr>),
    /// The product of the two.
    Multiply(Box<Expr>, Box<Expr>),
    /// The first divided by the second.
    Divide(Box<Expr>, Box<Expr>),
}

/// A computation as contracts see it: an operand stands for the text of
/// its number.
pub enum SpecExpr {
    Operand(Seq<char>),
    Negate(Box<SpecExpr>),
    Add(Box<SpecExpr>, Box<SpecExpr>),
    Subtract(Box<SpecExpr>, Box<SpecExpr>),
    Multiply(Box<SpecExpr>, Box<SpecExpr>),
    Divide(Box<SpecExpr>, Box<SpecExpr>),
}

impl SpecExpr {
    /// The node that applies a binary operator to two computations. (For
    /// the sign there is no such node: the left operand is handed back.)
    pub open spec fn binary(operator: Operator, left: SpecExpr, right: SpecExpr) -> SpecExpr {
        match operator {
            Operator::Add => SpecExpr::Add(Box::new(left), Box::new(right)),
            Operator::Subtract => SpecExpr::Subtract(Box::new(left), Box::new(right)),
            Operator::Multiply => SpecExpr::Multiply(Box::new(left), Box::new(right)),
            Operator::Divide => SpecExpr::Divide(Box::new(left), Box::new(right)),
            Operator::Negate => left,
        }
    }
}

impl Expr {
    /// The computation that the tree stands for.
    pub open spec fn model(self) -> SpecExpr
        decreases self,
    {
        match self {
            Expr::Operand(literal) => SpecExpr::Operand(literal@),
            Expr::Negate(operand) => SpecExpr::Negate(Box::new(operand.model())),
            Expr::Add(left, right) => SpecExpr::Add(
                Box::new(left.model()),
                Box::new(right.model()),
            ),
            Expr::Subtract(left, right) => SpecExpr::Subtract(
                Box::new(left.model()),
                Box::new(right.model()),
            ),
            Expr::Multiply(left, right) => SpecExpr::Multiply(
                Box::new(left.model()),
                Box::new(right.model()),
            ),
            Expr::Divide(left, right) => SpecExpr::Divide(
                Box::new(left.model()),
                Box::new(right.model()),
            ),
        }
    }
}

impl View for Expr {
    type V = SpecExpr;

    open spec fn view(&self) -> SpecExpr {
        self.model()
    }
}

impl DeepView for Expr {
    type V = SpecExpr;

    open spec fn deep_view(&self) -> SpecExpr {
        self@
    }
}

} // verus!
