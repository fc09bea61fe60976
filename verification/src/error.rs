//! The errors of a calculation.

use vstd::prelude::*;

verus! {

/// The ways in which a calculation fails. Each one ends the whole
/// calculation: no partial result is produced.
#[derive(Clone, Copy, Debug, PartialEq, Eq, Structural)]
pub enum CalcError {
    /// The characters collected for a number do not form a decimal number.
    LiteralParse,
    /// An operator found fewer operands on the value stack than it takes.
    StackUnderflow,
    /// The postfix sequence left no value on the stack.
    ResultMissing,
}

} // verus!
