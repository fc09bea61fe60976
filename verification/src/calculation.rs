//! From a line of input to the computation it denotes.

use vstd::prelude::*;
use crate::error::CalcError;
use crate::evaluator::{denotes, evaluate, evaluate_spec};
use crate::expr::{Expr, SpecExpr};
use crate::formula::{
    is_formula_text,
    lemma_falling_formula,
    lemma_formula_text,
    Formula,
};
use crate::parser::{parse, parse_spec};
use crate::whitespace::{
    is_white_space,
    lemma_gap_is_dropped,
    lemma_nothing_to_remove,
    remove_whitespace,
    without_whitespace,
};

verus! {

/// What an expression denotes: it is turned into postfix form, and the
/// postfix form is reduced.
pub open spec fn denotation(expression: Seq<char>) -> Result<SpecExpr, CalcError> {
    match parse_spec(expression) {
        Ok(postfix) => evaluate_spec(postfix),
        Err(error) => Err(error),
    }
}

/// What a line of input denotes: what is left of it without its white
/// space is the expression.
pub open spec fn calculate_spec(line: Seq<char>) -> Result<SpecExpr, CalcError> {
    denotation(without_whitespace(line))
}

/// White space is irrelevant: two lines that differ only by white space
/// put in somewhere denote the same. This holds between two digits too:
/// white space does not part one number from the next.
pub proof fn lemma_white_space_is_irrelevant(before: Seq<char>, gap: Seq<char>, after: Seq<char>)
    requires
        forall|i: int| 0 <= i < gap.len() ==> is_white_space(#[trigger] gap[i]),
    ensures
        calculate_spec(before + gap + after) == calculate_spec(before + after),
{
    lemma_gap_is_dropped(before, gap, after);
}

/// A line that is an expression in the characters of formulas denotes what
/// the expression denotes.
pub proof fn lemma_formula_text_is_kept(expression: Seq<char>)
    requires
        is_formula_text(expression),
    ensures
        without_whitespace(expression) == expression,
        calculate_spec(expression) == denotation(expression),
{
    lemma_nothing_to_remove(expression);
}

/// A line that is a formula in whose chains no operator binds more tightly
/// than the one before it denotes the formula's computation.
pub proof fn lemma_calculate_falling_formula(formula: Formula)
    requires
        formula.scannable(),
        formula.falling(),
    ensures
        calculate_spec(formula.text()) == Ok::<SpecExpr, CalcError>(formula.tree()),
{
    lemma_formula_text(formula);
    lemma_formula_text_is_kept(formula.text());
    lemma_falling_formula(formula);
}

/// The same line, the same result: two results of `calculate` for one
/// line are the same error, or stand for the same computation.
pub proof fn lemma_calculation_is_repeatable(
    line: Seq<char>,
    first: Result<Expr, CalcError>,
    second: Result<Expr, CalcError>,
)
    requires
        denotes(first, calculate_spec(line)),
        denotes(second, calculate_spec(line)),
    ensures
        match (first, second) {
            (Ok(one), Ok(other)) => one@ == other@,
            (Err(one), Err(other)) => one == other,
            _ => false,
        },
{
}

/// Works out what a line of input denotes. The result depends on the
/// characters of the line and on nothing else.
pub fn calculate(line: &str) -> (result: Result<Expr, CalcError>)
    ensures
        denotes(result, calculate_spec(line@)),
{
    let expression = remove_whitespace(line);
    match parse(expression.as_str()) {
        Ok(postfix) => evaluate(&postfix),
        Err(error) => Err(error),
    }
}

} // verus!
