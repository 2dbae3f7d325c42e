use ternary_systems::codec::{int_to_ternary, parse_ternary, ParseError};

#[test]
fn zero_is_single_digit() {
    assert_eq!(int_to_ternary(0), "0");
}

#[test]
fn positive_values_in_base_three() {
    assert_eq!(int_to_ternary(1), "1");
    assert_eq!(int_to_ternary(3), "10");
    assert_eq!(int_to_ternary(4), "11");
    assert_eq!(int_to_ternary(8), "22");
    assert_eq!(int_to_ternary(9), "100");
}

#[test]
fn negative_values_carry_sign() {
    assert_eq!(int_to_ternary(-5), "-12");
    assert_eq!(int_to_ternary(-1), "-1");
}

#[test]
fn extreme_values_render() {
    assert_eq!(int_to_ternary(i32::MAX), "12112122212110202101");
    assert_eq!(int_to_ternary(i32::MIN), "-12112122212110202102");
}

#[test]
fn parse_reads_digits_and_sign() {
    assert_eq!(parse_ternary("10"), Ok(3));
    assert_eq!(parse_ternary("-12"), Ok(-5));
    assert_eq!(parse_ternary("0012"), Ok(5));
}

#[test]
fn parse_empty_is_error() {
    assert_eq!(parse_ternary(""), Err(ParseError::EmptyExpression));
}

#[test]
fn parse_reports_first_bad_digit() {
    assert_eq!(parse_ternary("13"), Err(ParseError::InvalidDigit('3')));
    assert_eq!(parse_ternary("1x3"), Err(ParseError::InvalidDigit('x')));
    assert_eq!(parse_ternary("--1"), Err(ParseError::InvalidDigit('-')));
}

#[test]
fn parse_lone_sign_has_no_digits() {
    assert_eq!(parse_ternary("-"), Err(ParseError::EmptyExpression));
    assert_eq!(parse_ternary("-0"), Ok(0));
}

#[test]
fn parse_out_of_range_is_overflow() {
    assert_eq!(parse_ternary("12112122212110202102"), Err(ParseError::Overflow));
    assert_eq!(parse_ternary("2222222222222222222222222"), Err(ParseError::Overflow));
    assert_eq!(parse_ternary("-12112122212110202102"), Ok(i32::MIN));
}

#[test]
fn round_trip_over_many_values() {
    let samples = [0, 1, -1, 2, 3, -3, 26, 27, -28, 1000, -99999, 123456789, i32::MAX, i32::MIN, i32::MIN + 1];
    for &n in samples.iter() {
        assert_eq!(parse_ternary(&int_to_ternary(n)), Ok(n));
    }
    for n in -500..500 {
        assert_eq!(parse_ternary(&int_to_ternary(n)), Ok(n));
    }
}
