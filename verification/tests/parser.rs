use calculator::error::CalcError;
use calculator::literal::parse_value;
use calculator::operator::Operator;
use calculator::parser::{add_operation, parse, parse_expression};
use calculator::token::Token;

fn operand(text: &str) -> Token {
    let chars: Vec<char> = text.chars().collect();
    Token::Operand(parse_value(&chars).unwrap())
}

fn operator(operator: Operator) -> Token {
    Token::Operator(operator)
}

#[test]
fn postfix_of_a_sum() {
    assert_eq!(
        parse("2+3"),
        Ok(vec![operand("2"), operand("3"), operator(Operator::Add)])
    );
}

#[test]
fn postfix_keeps_a_tighter_operator_pending() {
    assert_eq!(
        parse("2+3*4"),
        Ok(vec![
            operand("2"),
            operand("3"),
            operand("4"),
            operator(Operator::Multiply),
            operator(Operator::Add),
        ])
    );
}

#[test]
fn postfix_emits_an_operator_that_binds_as_tightly() {
    assert_eq!(
        parse("10-3-2"),
        Ok(vec![
            operand("10"),
            operand("3"),
            operator(Operator::Subtract),
            operand("2"),
            operator(Operator::Subtract),
        ])
    );
    assert_eq!(
        parse("2*3+4"),
        Ok(vec![
            operand("2"),
            operand("3"),
            operator(Operator::Multiply),
            operand("4"),
            operator(Operator::Add),
        ])
    );
}

#[test]
fn postfix_of_signs() {
    assert_eq!(
        parse("-5+3"),
        Ok(vec![
            operand("5"),
            operator(Operator::Negate),
            operand("3"),
            operator(Operator::Add),
        ])
    );
    assert_eq!(
        parse("5--3"),
        Ok(vec![
            operand("5"),
            operand("3"),
            operator(Operator::Negate),
            operator(Operator::Subtract),
        ])
    );
}

#[test]
fn a_sign_sends_off_the_sign_before_it() {
    assert_eq!(
        parse("--3"),
        Ok(vec![
            operator(Operator::Negate),
            operand("3"),
            operator(Operator::Negate),
        ])
    );
}

#[test]
fn postfix_of_nested_levels() {
    assert_eq!(
        parse("((1+2)*(3+4))"),
        Ok(vec![
            operand("1"),
            operand("2"),
            operator(Operator::Add),
            operand("3"),
            operand("4"),
            operator(Operator::Add),
            operator(Operator::Multiply),
        ])
    );
}

#[test]
fn minus_behind_a_parenthesis_is_a_sign() {
    assert_eq!(
        parse("(2+3)-4"),
        Ok(vec![
            operand("2"),
            operand("3"),
            operator(Operator::Add),
            operand("4"),
            operator(Operator::Negate),
        ])
    );
}

#[test]
fn postfix_of_nothing_is_empty() {
    assert_eq!(parse(""), Ok(vec![]));
    assert_eq!(parse("()"), Ok(vec![]));
}

#[test]
fn adjacent_operators_are_accepted() {
    assert_eq!(
        parse("2++3"),
        Ok(vec![
            operand("2"),
            operator(Operator::Add),
            operand("3"),
            operator(Operator::Add),
        ])
    );
}

#[test]
fn comma_becomes_a_point() {
    assert_eq!(parse("1,5"), Ok(vec![operand("1.5")]));
    assert_eq!(parse("1,5"), parse("1.5"));
}

#[test]
fn a_number_goes_on_behind_a_nested_level() {
    assert_eq!(parse("2(3)4"), Ok(vec![operand("3"), operand("24")]));
}

#[test]
fn malformed_number_stops_the_scan() {
    assert_eq!(parse("1.2.3"), Err(CalcError::LiteralParse));
    assert_eq!(parse("1..+2"), Err(CalcError::LiteralParse));
    assert_eq!(parse("(.)"), Err(CalcError::LiteralParse));
    assert_eq!(parse(",,"), Err(CalcError::LiteralParse));
}

#[test]
fn the_scan_stops_behind_the_character_that_ends_the_level() {
    let task: Vec<char> = "1+2)*5".chars().collect();
    let mut position = 0;
    let mut stack = Vec::new();
    assert_eq!(parse_expression(&task, &mut position, &mut stack), Ok(()));
    assert_eq!(position, 4);
    assert_eq!(
        stack,
        vec![operand("1"), operand("2"), operator(Operator::Add)]
    );
    assert_eq!(parse_expression(&task, &mut position, &mut stack), Ok(()));
    assert_eq!(position, 6);
    assert_eq!(
        stack,
        vec![
            operand("1"),
            operand("2"),
            operator(Operator::Add),
            operand("5"),
            operator(Operator::Multiply),
        ]
    );
}

#[test]
fn the_scan_stops_behind_the_operator_that_finds_a_malformed_number() {
    let task: Vec<char> = "7*1.2.3+4".chars().collect();
    let mut position = 0;
    let mut stack = Vec::new();
    assert_eq!(
        parse_expression(&task, &mut position, &mut stack),
        Err(CalcError::LiteralParse)
    );
    assert_eq!(position, 8);
    assert_eq!(stack, vec![operand("7")]);
}

#[test]
fn the_scan_of_a_position_behind_the_end_reads_nothing() {
    let task: Vec<char> = "1+2".chars().collect();
    let mut position = 9;
    let mut stack = vec![operand("8")];
    assert_eq!(parse_expression(&task, &mut position, &mut stack), Ok(()));
    assert_eq!(position, 9);
    assert_eq!(stack, vec![operand("8")]);
}

#[test]
fn a_new_operator_waits_behind_a_weaker_one() {
    let mut stack = vec![operand("1")];
    let mut pending = vec![Operator::Add];
    add_operation(&mut stack, &mut pending, Operator::Multiply);
    assert_eq!(stack, vec![operand("1")]);
    assert_eq!(pending, vec![Operator::Add, Operator::Multiply]);
}

#[test]
fn a_new_operator_sends_off_one_that_binds_as_tightly() {
    let mut stack = vec![operand("1")];
    let mut pending = vec![Operator::Add, Operator::Multiply];
    add_operation(&mut stack, &mut pending, Operator::Divide);
    assert_eq!(stack, vec![operand("1"), operator(Operator::Multiply)]);
    assert_eq!(pending, vec![Operator::Add, Operator::Divide]);
    add_operation(&mut stack, &mut pending, Operator::Subtract);
    assert_eq!(
        stack,
        vec![
            operand("1"),
            operator(Operator::Multiply),
            operator(Operator::Divide),
        ]
    );
    assert_eq!(pending, vec![Operator::Add, Operator::Subtract]);
}

#[test]
fn the_first_operator_just_waits() {
    let mut stack = Vec::new();
    let mut pending = Vec::new();
    add_operation(&mut stack, &mut pending, Operator::Negate);
    assert_eq!(stack, vec![]);
    assert_eq!(pending, vec![Operator::Negate]);
}

#[test]
fn a_sign_is_sent_off_by_every_operator() {
    let mut stack = Vec::new();
    let mut pending = vec![Operator::Negate];
    add_operation(&mut stack, &mut pending, Operator::Negate);
    assert_eq!(stack, vec![operator(Operator::Negate)]);
    assert_eq!(pending, vec![Operator::Negate]);
}

#[test]
fn priorities() {
    assert_eq!(Operator::Add.priority(), 1);
    assert_eq!(Operator::Subtract.priority(), 1);
    assert_eq!(Operator::Multiply.priority(), 2);
    assert_eq!(Operator::Divide.priority(), 2);
    assert_eq!(Operator::Negate.priority(), 5);
}
