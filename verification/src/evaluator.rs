//! The reduction of a postfix sequence on a value stack.

use vstd::prelude::*;
use crate::error::CalcError;
use crate::expr::{Expr, SpecExpr};
use crate::operator::Operator;
use crate::token::{SpecToken, Token};

verus! {

/// The value stack after an operator has taken its operands off it and
/// left its result there. The operand that was pushed first is the left
/// one.
pub open spec fn apply(operator: Operator, values: Seq<SpecExpr>) -> Result<
    Seq<SpecExpr>,
    CalcError,
> {
    if values.len() < operator.operands() {
        Err(CalcError::StackUnderflow)
    } else if operator == Operator::Negate {
        Ok(values.drop_last().push(SpecExpr::Negate(Box::new(values.last()))))
    } else {
        Ok(
            values.take(values.len() - 2).push(
                SpecExpr::binary(operator, values[values.len() - 2], values.last()),
            ),
        )
    }
}

/// The value stack after one token: an operand is pushed, an operator
/// applied.
pub open spec fn step(values: Seq<SpecExpr>, token: SpecToken) -> Result<Seq<SpecExpr>, CalcError> {
    match token {
        SpecToken::Operand(text) => Ok(values.push(SpecExpr::Operand(text))),
        SpecToken::Operator(operator) => apply(operator, values),
    }
}

/// The value stack after a postfix sequence has been worked through from
/// its front, starting from the empty stack; the first operator that finds
/// too few operands ends it.
pub open spec fn reduce(sequence: Seq<SpecToken>) -> Result<Seq<SpecExpr>, CalcError>
    decreases sequence.len(),
{
    if sequence.len() == 0 {
        Ok(Seq::empty())
    } else {
        match reduce(sequence.drop_last()) {
            Ok(values) => step(values, sequence.last()),
            Err(error) => Err(error),
        }
    }
}

/// What a postfix sequence denotes: the value at the bottom of the stack
/// that it leaves. Values above it are not looked at.
pub open spec fn evaluate_spec(sequence: Seq<SpecToken>) -> Result<SpecExpr, CalcError> {
    match reduce(sequence) {
        Ok(values) => if values.len() == 0 {
            Err(CalcError::ResultMissing)
        } else {
            Ok(values[0])
        },
        Err(error) => Err(error),
    }
}

/// An executable result stands for a result of the model.
pub open spec fn denotes(result: Result<Expr, CalcError>, model: Result<SpecExpr, CalcError>) -> bool {
    match result {
        Ok(value) => model == Ok::<SpecExpr, CalcError>(value@),
        Err(error) => model == Err::<SpecExpr, CalcError>(error),
    }
}

/// What one of the four binary operations does to the value stack and
/// hands back: with two values there, it takes both off and hands back
/// their node; with fewer, it empties the stack and fails.
pub open spec fn takes_two(
    operator: Operator,
    before: Seq<SpecExpr>,
    after: Seq<SpecExpr>,
    result: Result<Expr, CalcError>,
) -> bool {
    if before.len() >= 2 {
        &&& after == before.take(before.len() - 2)
        &&& result matches Ok(value)
        &&& value@ == SpecExpr::binary(operator, before[before.len() - 2], before.last())
    } else {
        &&& after.len() == 0
        &&& result == Err::<Expr, CalcError>(CalcError::StackUnderflow)
    }
}

/// Takes the two topmost values and hands back their sum.
pub fn add(value_stack: &mut Vec<Expr>) -> (sum: Result<Expr, CalcError>)
    ensures
        takes_two(Operator::Add, old(value_stack).deep_view(), final(value_stack).deep_view(), sum),
{
    let one = value_stack.pop();
    let two = value_stack.pop();
    proof {
        lemma_popped(*old(value_stack), *value_stack);
    }
    match (one, two) {
        (Some(one), Some(two)) => Ok(Expr::Add(Box::new(two), Box::new(one))),
        _ => Err(CalcError::StackUnderflow),
    }
}

/// Takes the two topmost values and hands back the lower one minus the
/// upper one.
pub fn subtract(value_stack: &mut Vec<Expr>) -> (difference: Result<Expr, CalcError>)
    ensures
        takes_two(
            Operator::Subtract,
            old(value_stack).deep_view(),
            final(value_stack).deep_view(),
            difference,
        ),
{
    let one = value_stack.pop();
    let two = value_stack.pop();
    proof {
        lemma_popped(*old(value_stack), *value_stack);
    }
    match (one, two) {
        (Some(one), Some(two)) => Ok(Expr::Subtract(Box::new(two), Box::new(one))),
        _ => Err(CalcError::StackUnderflow),
    }
}

/// Takes the two topmost values and hands back their product.
pub fn multiply(value_stack: &mut Vec<Expr>) -> (product: Result<Expr, CalcError>)
    ensures
        takes_two(
            Operator::Multiply,
            old(value_stack).deep_view(),
            final(value_stack).deep_view(),
            product,
        ),
{
    let one = value_stack.pop();
    let two = value_stack.pop();
    proof {
        lemma_popped(*old(value_stack), *value_stack);
    }
    match (one, two) {
        (Some(one), Some(two)) => Ok(Expr::Multiply(Box::new(two), Box::new(one))),
        _ => Err(CalcError::StackUnderflow),
    }
}

/// Takes the two topmost values and hands back the lower one divided by
/// the upper one.
pub fn divide(value_stack: &mut Vec<Expr>) -> (quotient: Result<Expr, CalcError>)
    ensures
        takes_two(
            Operator::Divide,
            old(value_stack).deep_view(),
            final(value_stack).deep_view(),
            quotient,
        ),
{
    let one = value_stack.pop();
    let two = value_stack.pop();
    proof {
        lemma_popped(*old(value_stack), *value_stack);
    }
    match (one, two) {
        (Some(one), Some(two)) => Ok(Expr::Divide(Box::new(two), Box::new(one))),
        _ => Err(CalcError::StackUnderflow),
    }
}

/// Takes the topmost value and hands back zero minus it.
pub fn negate(value_stack: &mut Vec<Expr>) -> (negated: Result<Expr, CalcError>)
    ensures
        match negated {
            Ok(value) => {
                &&& old(value_stack).len() >= 1
                &&& value@ == SpecExpr::Negate(Box::new(old(value_stack).deep_view().last()))
                &&& final(value_stack).deep_view() == old(value_stack).deep_view().drop_last()
            },
            Err(error) => {
                &&& old(value_stack).len() == 0
                &&& final(value_stack).len() == 0
                &&& error == CalcError::StackUnderflow
            },
        },
{
    let one = value_stack.pop();
    proof {
        lemma_popped(*old(value_stack), *value_stack);
    }
    match one {
        Some(one) => Ok(Expr::Negate(Box::new(one))),
        None => Err(CalcError::StackUnderflow),
    }
}

/// A stack that is a front part of another has the matching front part of
/// its view.
proof fn lemma_popped(before: Vec<Expr>, after: Vec<Expr>)
    requires
        after@.len() <= before@.len(),
        forall|i: int| 0 <= i < after@.len() ==> after@[i] == before@[i],
    ensures
        after.deep_view() == before.deep_view().take(after@.len() as int),
{
    assert(after.deep_view() =~= before.deep_view().take(after@.len() as int));
}

/// Appending a value to a stack appends its view to the stack's view.
proof fn lemma_pushed(before: Vec<Expr>, after: Vec<Expr>, value: Expr)
    requires
        after@ == before@.push(value),
    ensures
        after.deep_view() == before.deep_view().push(value@),
{
    assert(after.deep_view() =~= before.deep_view().push(value@));
}

/// Once a front part of a sequence has failed, the sequence fails in the
/// same way.
pub proof fn lemma_reduce_fails_for_good(sequence: Seq<SpecToken>, front: int)
    requires
        0 <= front <= sequence.len(),
        reduce(sequence.take(front)) is Err,
    ensures
        reduce(sequence) == reduce(sequence.take(front)),
    decreases sequence.len(),
{
    if front == sequence.len() {
        assert(sequence.take(front) =~= sequence);
    } else {
        assert(sequence.drop_last().take(front) =~= sequence.take(front));
        lemma_reduce_fails_for_good(sequence.drop_last(), front);
    }
}

/// The postfix form of a computation: the operands of a node, the left one
/// first, and then its operator.
pub open spec fn postfix(expr: SpecExpr) -> Seq<SpecToken>
    decreases expr,
{
    match expr {
        SpecExpr::Operand(text) => seq![SpecToken::Operand(text)],
        SpecExpr::Negate(operand) => postfix(*operand).push(SpecToken::Operator(Operator::Negate)),
        SpecExpr::Add(left, right) => (postfix(*left) + postfix(*right)).push(
            SpecToken::Operator(Operator::Add),
        ),
        SpecExpr::Subtract(left, right) => (postfix(*left) + postfix(*right)).push(
            SpecToken::Operator(Operator::Subtract),
        ),
        SpecExpr::Multiply(left, right) => (postfix(*left) + postfix(*right)).push(
            SpecToken::Operator(Operator::Multiply),
        ),
        SpecExpr::Divide(left, right) => (postfix(*left) + postfix(*right)).push(
            SpecToken::Operator(Operator::Divide),
        ),
    }
}

/// One more token takes one more step: the stack after a sequence with a
/// token appended is the stack after the sequence, stepped by the token.
pub proof fn lemma_reduce_push(sequence: Seq<SpecToken>, token: SpecToken)
    ensures
        reduce(sequence.push(token)) == match reduce(sequence) {
            Ok(values) => step(values, token),
            Err(error) => Err(error),
        },
{
    assert(sequence.push(token).drop_last() =~= sequence);
}

/// Behind any sequence that leaves a stack, the postfix form of a
/// computation leaves that stack with the computation on top.
pub proof fn lemma_reduce_postfix(front: Seq<SpecToken>, expr: SpecExpr)
    requires
        reduce(front) is Ok,
    ensures
        reduce(front + postfix(expr)) == Ok::<Seq<SpecExpr>, CalcError>(
            reduce(front)->Ok_0.push(expr),
        ),
    decreases expr,
{
    let values = reduce(front)->Ok_0;
    match expr {
        SpecExpr::Operand(text) => {
            assert(front + postfix(expr) =~= front.push(SpecToken::Operand(text)));
            lemma_reduce_push(front, SpecToken::Operand(text));
        },
        SpecExpr::Negate(operand) => {
            let token = SpecToken::Operator(Operator::Negate);
            lemma_reduce_postfix(front, *operand);
            assert(front + postfix(expr) =~= (front + postfix(*operand)).push(token));
            lemma_reduce_push(front + postfix(*operand), token);
            assert(values.push(*operand).drop_last() =~= values);
        },
        SpecExpr::Add(left, right) => {
            lemma_reduce_postfix(front, *left);
            lemma_reduce_postfix(front + postfix(*left), *right);
            lemma_reduce_node(front, Operator::Add, *left, *right);
        },
        SpecExpr::Subtract(left, right) => {
            lemma_reduce_postfix(front, *left);
            lemma_reduce_postfix(front + postfix(*left), *right);
            lemma_reduce_node(front, Operator::Subtract, *left, *right);
        },
        SpecExpr::Multiply(left, right) => {
            lemma_reduce_postfix(front, *left);
            lemma_reduce_postfix(front + postfix(*left), *right);
            lemma_reduce_node(front, Operator::Multiply, *left, *right);
        },
        SpecExpr::Divide(left, right) => {
            lemma_reduce_postfix(front, *left);
            lemma_reduce_postfix(front + postfix(*left), *right);
            lemma_reduce_node(front, Operator::Divide, *left, *right);
        },
    }
}

/// The step of `lemma_reduce_postfix` for a node of two operands, from what
/// holds of the operands.
proof fn lemma_reduce_node(front: Seq<SpecToken>, operator: Operator, left: SpecExpr, right: SpecExpr)
    requires
        reduce(front) is Ok,
        operator != Operator::Negate,
        reduce(front + postfix(left)) == Ok::<Seq<SpecExpr>, CalcError>(
            reduce(front)->Ok_0.push(left),
        ),
        reduce(front + postfix(left) + postfix(right)) == Ok::<Seq<SpecExpr>, CalcError>(
            reduce(front)->Ok_0.push(left).push(right),
        ),
    ensures
        reduce((front + (postfix(left) + postfix(right))).push(SpecToken::Operator(operator)))
            == Ok::<Seq<SpecExpr>, CalcError>(
            reduce(front)->Ok_0.push(SpecExpr::binary(operator, left, right)),
        ),
        front + (postfix(left) + postfix(right)).push(SpecToken::Operator(operator)) == (front + (
            postfix(left) + postfix(right))).push(SpecToken::Operator(operator)),
{
    let values = reduce(front)->Ok_0;
    let token = SpecToken::Operator(operator);
    assert(front + (postfix(left) + postfix(right)) =~= (front + postfix(left)) + postfix(right));
    lemma_reduce_push(front + (postfix(left) + postfix(right)), token);
    let both = values.push(left).push(right);
    assert(both.take(both.len() - 2) =~= values);
    assert(front + (postfix(left) + postfix(right)).push(token) =~= (front + (postfix(left)
        + postfix(right))).push(token));
}

/// Reducing the postfix form of a computation gives the computation back.
pub proof fn lemma_evaluate_postfix(expr: SpecExpr)
    ensures
        evaluate_spec(postfix(expr)) == Ok::<SpecExpr, CalcError>(expr),
{
    lemma_reduce_postfix(Seq::empty(), expr);
    assert(Seq::<SpecToken>::empty() + postfix(expr) =~= postfix(expr));
}

/// The number of operands in a sequence.
pub open spec fn operand_count(sequence: Seq<SpecToken>) -> nat {
    sequence.filter(|token: SpecToken| token is Operand).len()
}

/// The number of operators of two operands in a sequence.
pub open spec fn binary_count(sequence: Seq<SpecToken>) -> nat {
    sequence.filter(
        |token: SpecToken| token matches SpecToken::Operator(operator) && operator.operands() == 2,
    ).len()
}

/// Every operator of two operands leaves one value fewer: the stack that a
/// sequence leaves holds as many values as the sequence has more operands
/// than such operators, and at least one unless the sequence is empty.
pub proof fn lemma_reduce_counts(sequence: Seq<SpecToken>)
    requires
        reduce(sequence) is Ok,
    ensures
        reduce(sequence)->Ok_0.len() + binary_count(sequence) == operand_count(sequence),
        sequence.len() > 0 ==> reduce(sequence)->Ok_0.len() > 0,
    decreases sequence.len(),
{
    reveal(Seq::filter);
    if sequence.len() > 0 {
        lemma_reduce_counts(sequence.drop_last());
    }
}

/// A sequence that has no more operands than operators of two operands has
/// no result: the empty one for want of a value, any other for want of an
/// operand.
pub proof fn lemma_too_few_operands(sequence: Seq<SpecToken>)
    requires
        operand_count(sequence) <= binary_count(sequence),
    ensures
        evaluate_spec(sequence) == Err::<SpecExpr, CalcError>(
            if sequence.len() == 0 {
                CalcError::ResultMissing
            } else {
                CalcError::StackUnderflow
            },
        ),
{
    if reduce(sequence) is Ok {
        lemma_reduce_counts(sequence);
    } else {
        lemma_reduce_fails_by_underflow(sequence);
    }
}

/// A reduction fails in one way only: an operator finds too few operands.
pub proof fn lemma_reduce_fails_by_underflow(sequence: Seq<SpecToken>)
    requires
        reduce(sequence) is Err,
    ensures
        reduce(sequence) == Err::<Seq<SpecExpr>, CalcError>(CalcError::StackUnderflow),
    decreases sequence.len(),
{
    if sequence.len() > 0 && reduce(sequence.drop_last()) is Err {
        lemma_reduce_fails_by_underflow(sequence.drop_last());
    }
}

/// Reduces a postfix sequence on a value stack and hands back what it
/// denotes.
pub fn evaluate(sequence: &Vec<Token>) -> (result: Result<Expr, CalcError>)
    ensures
        denotes(result, evaluate_spec(sequence.deep_view())),
{
    let mut value_stack: Vec<Expr> = Vec::new();
    let mut index: usize = 0;
    assert(sequence.deep_view().take(0) =~= Seq::empty());
    assert(value_stack.deep_view() =~= Seq::empty());
    while index < sequence.len()
        invariant
            index <= sequence.len(),
            reduce(sequence.deep_view().take(index as int)) == Ok::<Seq<SpecExpr>, CalcError>(
                value_stack.deep_view(),
            ),
        decreases sequence.len() - index,
    {
        let ghost before = value_stack;
        let ghost front = sequence.deep_view().take(index + 1);
        assert(front.drop_last() =~= sequence.deep_view().take(index as int));
        assert(front.last() == sequence[index as int]@);
        match &sequence[index] {
            Token::Operand(literal) => {
                let value = Expr::Operand(literal.clone());
                let ghost pushed = value;
                value_stack.push(value);
                proof {
                    lemma_pushed(before, value_stack, pushed);
                }
            },
            Token::Operator(operator) => {
                let result = match operator {
                    Operator::Negate => negate(&mut value_stack),
                    Operator::Add => self::add(&mut value_stack),
                    Operator::Subtract => subtract(&mut value_stack),
                    Operator::Multiply => multiply(&mut value_stack),
                    Operator::Divide => divide(&mut value_stack),
                };
                match result {
                    Ok(value) => {
                        let ghost taken = value_stack;
                        let ghost pushed = value;
                        value_stack.push(value);
                        proof {
                            lemma_pushed(taken, value_stack, pushed);
                        }
                    },
                    Err(error) => {
                        proof {
                            lemma_reduce_fails_for_good(sequence.deep_view(), index + 1);
                        }
                        return Err(error);
                    },
                }
            },
        }
        index = index + 1;
    }
    assert(sequence.deep_view().take(index as int) =~= sequence.deep_view());
    if value_stack.len() == 0 {
        Err(CalcError::ResultMissing)
    } else {
        Ok(value_stack.swap_remove(0))
    }
}

} // verus!
