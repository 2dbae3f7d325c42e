use ternary_systems::codec::{int_to_ternary, ParseError};
use ternary_systems::expr::{
    evaluate_ternary, parse_expr, parse_factor, parse_number, parse_term, skip_whitespace,
    tritjs_eval_expression,
};

fn eval_text(s: &str) -> Result<String, ParseError> {
    tritjs_eval_expression(s).map(int_to_ternary)
}

#[test]
fn precedence_of_product_over_sum() {
    assert_eq!(tritjs_eval_expression("1+1*2"), Ok(3));
    assert_eq!(eval_text("1+1*2"), Ok("10".to_string()));
}

#[test]
fn subtraction_is_left_associative() {
    assert_eq!(eval_text("2-1-1"), Ok("0".to_string()));
}

#[test]
fn parentheses_group() {
    assert_eq!(tritjs_eval_expression("(1+1)*2"), Ok(4));
    assert_eq!(eval_text("(1+1)*2"), Ok("11".to_string()));
}

#[test]
fn division_truncates() {
    assert_eq!(eval_text("2/2"), Ok("1".to_string()));
    assert_eq!(tritjs_eval_expression("21/2"), Ok(3));
    assert_eq!(tritjs_eval_expression("(0-21)/2"), Ok(-3));
    assert_eq!(tritjs_eval_expression("(1-2)/2"), Ok(0));
}

#[test]
fn division_by_zero_expression() {
    assert_eq!(tritjs_eval_expression("1/(1-1)"), Err(ParseError::DivisionByZero));
    assert_eq!(tritjs_eval_expression("1/0"), Err(ParseError::DivisionByZero));
}

#[test]
fn empty_input() {
    assert_eq!(tritjs_eval_expression(""), Err(ParseError::EmptyExpression));
    assert_eq!(tritjs_eval_expression("  \t\n"), Err(ParseError::EmptyExpression));
}

#[test]
fn input_ends_where_factor_expected() {
    assert_eq!(tritjs_eval_expression("1+"), Err(ParseError::UnexpectedChar('\0')));
}

#[test]
fn unclosed_parenthesis() {
    assert_eq!(tritjs_eval_expression("(1+1"), Err(ParseError::MissingClosingParen));
    assert_eq!(tritjs_eval_expression("(1+1 2"), Err(ParseError::MissingClosingParen));
}

#[test]
fn digit_outside_base() {
    assert_eq!(tritjs_eval_expression("3"), Err(ParseError::InvalidDigit('3')));
    assert_eq!(tritjs_eval_expression("1+-1"), Err(ParseError::InvalidDigit('-')));
}

#[test]
fn trailing_garbage() {
    assert_eq!(tritjs_eval_expression("1 2"), Err(ParseError::UnexpectedChar('2')));
    assert_eq!(tritjs_eval_expression("1)"), Err(ParseError::UnexpectedChar(')')));
}

#[test]
fn white_space_between_tokens() {
    assert_eq!(tritjs_eval_expression("  1 +\t2 * ( 1 + 1 ) "), Ok(5));
}

#[test]
fn overflow_is_reported() {
    assert_eq!(tritjs_eval_expression("2222222222222222222222"), Err(ParseError::Overflow));
    // 3^19 * 3^19 leaves i32
    assert_eq!(
        tritjs_eval_expression("10000000000000000000*10000000000000000000"),
        Err(ParseError::Overflow)
    );
    // i32::MAX + 1
    assert_eq!(tritjs_eval_expression("12112122212110202101+1"), Err(ParseError::Overflow));
    assert_eq!(tritjs_eval_expression("12112122212110202101"), Ok(i32::MAX));
}

#[test]
fn evaluate_ternary_matches() {
    assert_eq!(evaluate_ternary("12+21\n"), Ok(12));
    assert_eq!(evaluate_ternary(""), Err(ParseError::EmptyExpression));
}

#[test]
fn productions_move_cursor() {
    let chars: Vec<char> = " 12 + 1)".chars().collect();
    let mut pos: usize = 0;
    assert_eq!(parse_number(&chars, &mut pos), Ok(5));
    assert_eq!(pos, 3);
    let mut pos: usize = 0;
    assert_eq!(parse_expr(&chars, &mut pos), Ok(6));
    assert_eq!(pos, 7);
    let mut pos: usize = 0;
    assert_eq!(parse_term(&chars, &mut pos), Ok(5));
    let mut pos: usize = 0;
    skip_whitespace(&chars, &mut pos);
    assert_eq!(pos, 1);
    let paren: Vec<char> = "(2*2)".chars().collect();
    let mut pos: usize = 0;
    assert_eq!(parse_factor(&paren, &mut pos), Ok(4));
    assert_eq!(pos, 5);
}

#[test]
fn cursor_never_moves_back_on_error() {
    let chars: Vec<char> = " (1+".chars().collect();
    let mut pos: usize = 0;
    assert_eq!(parse_expr(&chars, &mut pos), Err(ParseError::UnexpectedChar('\0')));
    assert!(pos <= chars.len());
    let digits: Vec<char> = "12x".chars().collect();
    let mut pos: usize = 2;
    assert_eq!(parse_number(&digits, &mut pos), Err(ParseError::InvalidDigit('x')));
    assert_eq!(pos, 2);
}

#[test]
fn cursor_past_end_is_left_alone() {
    let chars: Vec<char> = "1".chars().collect();
    let mut pos: usize = 5;
    skip_whitespace(&chars, &mut pos);
    assert_eq!(pos, 5);
    assert_eq!(parse_factor(&chars, &mut pos), Err(ParseError::UnexpectedChar('\0')));
    assert_eq!(parse_expr(&chars, &mut pos), Err(ParseError::UnexpectedChar('\0')));
    assert_eq!(parse_number(&chars, &mut pos), Err(ParseError::UnexpectedChar('\0')));
    assert_eq!(pos, 5);
}
