//! The operators and their precedence.

use vstd::prelude::*;

verus! {

/// The operations of the calculator: four binary ones and the unary sign flip.
#[derive(Clone, Copy, Debug, PartialEq, Eq, Structural)]
pub enum Operator {
    Add,
    Subtract,
    Multiply,
    Divide,
    Negate,
}

impl Operator {
    /// How tightly the operator binds: a higher rank is applied first.
    pub open spec fn rank(self) -> nat {
        match self {
            Operator::Add => 1,
            Operator::Subtract => 1,
            Operator::Multiply => 2,
            Operator::Divide => 2,
            Operator::Negate => 5,
        }
    }

    /// The number of operands that the operator takes off the value stack.
    pub open spec fn operands(self) -> nat {
        if self == Operator::Negate {
            1
        } else {
            2
        }
    }

    /// The operator's rank in the precedence table.
    pub fn priority(self) -> (p: u8)
        ensures
            p == self.rank(),
    {
        match self {
            Operator::Add => 1,
            Operator::Subtract => 1,
            Operator::Multiply => 2,
            Operator::Divide => 2,
            Operator::Negate => 5,
        }
    }
}

} // verus!
