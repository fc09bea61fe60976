use calculator::error::CalcError;
use calculator::evaluator::{add, divide, evaluate, multiply, negate, subtract};
use calculator::expr::Expr;
use calculator::literal::parse_value;
use calculator::operator::Operator;
use calculator::token::Token;

fn number(text: &str) -> Expr {
    let chars: Vec<char> = text.chars().collect();
    Expr::Operand(parse_value(&chars).unwrap())
}

fn operand(text: &str) -> Token {
    let chars: Vec<char> = text.chars().collect();
    Token::Operand(parse_value(&chars).unwrap())
}

fn operator(operator: Operator) -> Token {
    Token::Operator(operator)
}

#[test]
fn the_lower_value_is_the_left_operand() {
    let mut stack = vec![number("9"), number("6"), number("2")];
    assert_eq!(
        subtract(&mut stack),
        Ok(Expr::Subtract(Box::new(number("6")), Box::new(number("2"))))
    );
    assert_eq!(stack, vec![number("9")]);

    let mut stack = vec![number("6"), number("2")];
    assert_eq!(
        divide(&mut stack),
        Ok(Expr::Divide(Box::new(number("6")), Box::new(number("2"))))
    );
    assert_eq!(stack, vec![]);

    let mut stack = vec![number("6"), number("2")];
    assert_eq!(
        add(&mut stack),
        Ok(Expr::Add(Box::new(number("6")), Box::new(number("2"))))
    );
    assert_eq!(stack, vec![]);

    let mut stack = vec![number("6"), number("2")];
    assert_eq!(
        multiply(&mut stack),
        Ok(Expr::Multiply(Box::new(number("6")), Box::new(number("2"))))
    );
    assert_eq!(stack, vec![]);
}

#[test]
fn a_sign_takes_one_value() {
    let mut stack = vec![number("6"), number("2")];
    assert_eq!(negate(&mut stack), Ok(Expr::Negate(Box::new(number("2")))));
    assert_eq!(stack, vec![number("6")]);
}

#[test]
fn too_few_values_underflow() {
    let mut stack = vec![number("6")];
    assert_eq!(add(&mut stack), Err(CalcError::StackUnderflow));
    assert_eq!(stack, vec![]);
    assert_eq!(subtract(&mut stack), Err(CalcError::StackUnderflow));
    assert_eq!(stack, vec![]);
    let mut stack = vec![number("6")];
    assert_eq!(multiply(&mut stack), Err(CalcError::StackUnderflow));
    let mut stack = vec![number("6")];
    assert_eq!(divide(&mut stack), Err(CalcError::StackUnderflow));
    let mut stack = vec![];
    assert_eq!(negate(&mut stack), Err(CalcError::StackUnderflow));
    assert_eq!(stack, vec![]);
}

#[test]
fn a_postfix_sequence_denotes_a_tree() {
    let sequence = vec![
        operand("2"),
        operand("3"),
        operand("4"),
        operator(Operator::Multiply),
        operator(Operator::Add),
    ];
    assert_eq!(
        evaluate(&sequence),
        Ok(Expr::Add(
            Box::new(number("2")),
            Box::new(Expr::Multiply(Box::new(number("3")), Box::new(number("4")))),
        ))
    );
}

#[test]
fn a_lone_number_denotes_itself() {
    assert_eq!(evaluate(&vec![operand("1.5")]), Ok(number("1.5")));
}

#[test]
fn an_empty_sequence_has_no_result() {
    assert_eq!(evaluate(&vec![]), Err(CalcError::ResultMissing));
}

#[test]
fn an_operator_without_operands_underflows() {
    assert_eq!(
        evaluate(&vec![operator(Operator::Add)]),
        Err(CalcError::StackUnderflow)
    );
    assert_eq!(
        evaluate(&vec![operand("2"), operator(Operator::Add)]),
        Err(CalcError::StackUnderflow)
    );
    assert_eq!(
        evaluate(&vec![operator(Operator::Negate), operand("2")]),
        Err(CalcError::StackUnderflow)
    );
}

#[test]
fn an_underflow_is_not_mended_by_what_follows() {
    assert_eq!(
        evaluate(&vec![
            operand("2"),
            operator(Operator::Add),
            operand("3"),
            operand("4"),
        ]),
        Err(CalcError::StackUnderflow)
    );
}

#[test]
fn values_above_the_lowest_are_ignored() {
    assert_eq!(
        evaluate(&vec![operand("2"), operand("3"), operator(Operator::Negate)]),
        Ok(number("2"))
    );
}

#[test]
fn adjacent_operators_meet_in_the_evaluator() {
    let sequence = vec![
        operand("2"),
        operator(Operator::Add),
        operand("3"),
        operator(Operator::Add),
    ];
    assert_eq!(evaluate(&sequence), Err(CalcError::StackUnderflow));
}
