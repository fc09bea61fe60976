use calculator::calculation::calculate;
use calculator::error::CalcError;
use calculator::expr::Expr;

/// Carries a computation out in floating point, the upper operand first.
fn number(expr: &Expr) -> f64 {
    match expr {
        Expr::Operand(literal) => {
            let text: String = literal.text().iter().collect();
            text.parse::<f64>().unwrap()
        }
        Expr::Negate(operand) => 0. - number(operand),
        Expr::Add(left, right) => {
            let one = number(right);
            let two = number(left);
            one + two
        }
        Expr::Subtract(left, right) => {
            let one = number(right);
            let two = number(left);
            two - one
        }
        Expr::Multiply(left, right) => {
            let one = number(right);
            let two = number(left);
            one * two
        }
        Expr::Divide(left, right) => {
            let one = number(right);
            let two = number(left);
            two / one
        }
    }
}

fn result_of(line: &str) -> f64 {
    number(&calculate(line).unwrap())
}

#[test]
fn multiplication_binds_tighter_than_addition() {
    assert_eq!(result_of("2+3*4"), 14.0);
    assert_eq!(result_of("2*3+4"), 10.0);
}

#[test]
fn parentheses_override_precedence() {
    assert_eq!(result_of("(2+3)*4"), 20.0);
}

#[test]
fn leading_minus_is_a_sign() {
    assert_eq!(result_of("-5+3"), -2.0);
}

#[test]
fn minus_after_a_number_is_subtraction() {
    assert_eq!(result_of("5-3"), 2.0);
}

#[test]
fn minus_after_an_operator_is_a_sign() {
    assert_eq!(result_of("5--3"), 8.0);
    assert_eq!(result_of("2*-3"), -6.0);
}

#[test]
fn sign_before_parentheses() {
    assert_eq!(result_of("-(2+3)"), -5.0);
}

#[test]
fn comma_is_a_decimal_separator() {
    assert_eq!(result_of("1,5+2,5"), 4.0);
    assert_eq!(result_of("1.5+2.5"), 4.0);
    assert_eq!(calculate("1,5+2,5"), calculate("1.5+2.5"));
}

#[test]
fn subtraction_associates_to_the_left() {
    assert_eq!(result_of("10-3-2"), 5.0);
}

#[test]
fn division_associates_to_the_left() {
    assert_eq!(result_of("20/4/5"), 1.0);
}

#[test]
fn white_space_is_irrelevant() {
    assert_eq!(result_of("2 + 3"), 5.0);
    assert_eq!(result_of("2+3"), 5.0);
    assert_eq!(result_of("2  +  3"), 5.0);
    assert_eq!(result_of(" 2\t+\n3 "), 5.0);
    assert_eq!(calculate("2 + 3"), calculate("2+3"));
}

#[test]
fn white_space_does_not_separate_numbers() {
    assert_eq!(result_of("2 3+4"), 27.0);
    assert_eq!(calculate("2 3+4"), calculate("23+4"));
}

#[test]
fn nested_parentheses() {
    assert_eq!(result_of("((1+2)*(3+4))"), 21.0);
}

#[test]
fn empty_input_has_no_result() {
    assert_eq!(calculate(""), Err(CalcError::ResultMissing));
    assert_eq!(calculate("   "), Err(CalcError::ResultMissing));
    assert_eq!(calculate("()"), Err(CalcError::ResultMissing));
}

#[test]
fn lone_operator_underflows() {
    assert_eq!(calculate("+"), Err(CalcError::StackUnderflow));
    assert_eq!(calculate("-"), Err(CalcError::StackUnderflow));
}

#[test]
fn doubled_sign_underflows() {
    assert_eq!(calculate("--3"), Err(CalcError::StackUnderflow));
}

#[test]
fn missing_right_operand_underflows() {
    assert_eq!(calculate("2+"), Err(CalcError::StackUnderflow));
    assert_eq!(calculate("2*"), Err(CalcError::StackUnderflow));
}

#[test]
fn malformed_number_fails() {
    assert_eq!(calculate("1.2.3"), Err(CalcError::LiteralParse));
    assert_eq!(calculate("1.2.3+4"), Err(CalcError::LiteralParse));
    assert_eq!(calculate("."), Err(CalcError::LiteralParse));
    assert_eq!(calculate("2+(,)"), Err(CalcError::LiteralParse));
}

#[test]
fn division_by_zero_is_infinite() {
    let quotient = result_of("5/0");
    assert!(quotient.is_infinite());
    assert!(quotient > 0.0);
    assert_eq!(quotient, f64::INFINITY);
}

#[test]
fn zero_by_zero_is_not_a_number() {
    assert!(result_of("0/0").is_nan());
}

#[test]
fn same_line_same_result() {
    let first = calculate("3*(4-1)/2");
    let second = calculate("3*(4-1)/2");
    assert_eq!(first, second);
    assert_eq!(number(&first.unwrap()), 4.5);
}

#[test]
fn numbers_without_integer_or_fraction_part() {
    assert_eq!(result_of(".5+5."), 5.5);
    assert_eq!(result_of("007"), 7.0);
}

#[test]
fn only_the_lowest_value_is_the_result() {
    assert_eq!(result_of("(2)(3)"), 2.0);
    assert_eq!(result_of("(2+3)-4"), 5.0);
}

#[test]
fn closing_parenthesis_ends_the_outermost_level() {
    assert_eq!(result_of("1+2)*5"), 3.0);
    assert_eq!(result_of("7a8"), 7.0);
}

#[test]
fn a_signed_operand_takes_the_rest_of_the_chain() {
    assert_eq!(result_of("5--3+1"), 7.0);
    assert_eq!(result_of("2*-3"), -6.0);
    assert_eq!(result_of("8/-2*3"), 8.0 / (-2.0 * 3.0));
}

#[test]
fn a_tighter_chain_is_a_right_operand() {
    assert_eq!(result_of("2+3*4*5"), 62.0);
    assert_eq!(result_of("100-2*3/4"), 98.5);
    assert_eq!(result_of("1+(2+3)*(4-1)"), 16.0);
}

#[test]
fn a_falling_chain_is_taken_in_from_the_left() {
    assert_eq!(result_of("2*3/4+5-6"), 0.5);
    assert_eq!(result_of("-2*3+1"), -5.0);
    assert_eq!(result_of("-(2+3)*(4)"), -20.0);
    assert_eq!(result_of("((((7))))"), 7.0);
}

#[test]
fn one_pending_operator_is_resolved_at_a_time() {
    assert_eq!(result_of("2-3*4+5"), -15.0);
    assert_eq!(result_of("2+3*4-5"), 9.0);
}
