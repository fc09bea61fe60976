//! The entries of a postfix sequence.

use vstd::prelude::*;
use crate::literal::Literal;
use crate::operator::Operator;

verus! {

/// One entry of a postfix sequence: a number or an operator.
#[derive(Debug, PartialEq, Eq)]
pub enum Token {
    Operand(Literal),
    Operator(Operator),
}

/// A token as contracts see it: an operand stands for the text of its
/// number.
pub enum SpecToken {
    Operand(Seq<char>),
    Operator(Operator),
}

impl View for Token {
    type V = SpecToken;

    open spec fn view(&self) -> SpecToken {
        match self {
            Token::Operand(literal) => SpecToken::Operand(literal@),
            Token::Operator(operator) => SpecToken::Operator(*operator),
        }
    }
}

impl Clone for Token {
    fn clone(&self) -> (copy: Self)
        ensures
            copy@ == self@,
    {
        match self {
            Token::Operand(literal) => Token::Operand(literal.clone()),
            Token::Operator(operator) => Token::Operator(*operator),
        }
    }
}

impl DeepView for Token {
    type V = SpecToken;

    open spec fn deep_view(&self) -> SpecToken {
        self@
    }
}

/// Appending a token to a sequence appends its view to the sequence's view.
pub proof fn lemma_push_view(before: Vec<Token>, after: Vec<Token>, token: Token)
    requires
        after@ == before@.push(token),
    ensures
        after.deep_view() == before.deep_view().push(token@),
{
    assert(after.deep_view() =~= before.deep_view().push(token@));
}

} // verus!
