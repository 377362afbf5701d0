use calc::parser::{evaluate, expr};
use calc::token::{ParseError, TokenKind};

#[test]
fn single_number() {
    assert_eq!(evaluate("7"), Ok(7));
}

#[test]
fn zero_values() {
    assert_eq!(evaluate("0"), Ok(0));
    assert_eq!(evaluate("0+0"), Ok(0));
}

#[test]
fn left_to_right_fold() {
    assert_eq!(evaluate("5+3-2"), Ok(6));
}

#[test]
fn fold_through_subtraction() {
    assert_eq!(evaluate("10-4+1"), Ok(7));
}

#[test]
fn long_chain() {
    assert_eq!(evaluate("1+2+3+4+5-6-7+8"), Ok(10));
}

#[test]
fn multi_digit_tokens() {
    assert_eq!(evaluate("12+8"), Ok(20));
}

#[test]
fn surrounding_whitespace() {
    assert_eq!(evaluate("  3 + 4  "), Ok(7));
}

#[test]
fn internal_whitespace() {
    assert_eq!(evaluate("1 \t+ 2  - 3"), Ok(0));
}

#[test]
fn newline_and_tab_whitespace() {
    assert_eq!(evaluate("\t10 - 4\n"), Ok(6));
}

#[test]
fn blank_input_reports_eof() {
    assert_eq!(
        evaluate(""),
        Err(ParseError::UnexpectedToken { expected: TokenKind::Integer, found: TokenKind::Eof })
    );
    assert_eq!(
        evaluate("   "),
        Err(ParseError::UnexpectedToken { expected: TokenKind::Integer, found: TokenKind::Eof })
    );
}

#[test]
fn missing_operator_between_numbers() {
    assert_eq!(
        evaluate("3 4"),
        Err(ParseError::UnexpectedToken { expected: TokenKind::Eof, found: TokenKind::Integer })
    );
}

#[test]
fn leading_operator() {
    assert_eq!(
        evaluate("+5"),
        Err(ParseError::UnexpectedToken { expected: TokenKind::Integer, found: TokenKind::Plus })
    );
}

#[test]
fn trailing_operator() {
    assert_eq!(
        evaluate("5+"),
        Err(ParseError::UnexpectedToken { expected: TokenKind::Integer, found: TokenKind::Eof })
    );
}

#[test]
fn subtraction_underflow() {
    assert_eq!(evaluate("2-5"), Err(ParseError::ArithmeticUnderflow));
}

#[test]
fn underflow_mid_expression() {
    assert_eq!(evaluate("1-2+10"), Err(ParseError::ArithmeticUnderflow));
}

#[test]
fn invalid_character_with_position() {
    assert_eq!(evaluate("3*2"), Err(ParseError::InvalidCharacter { c: '*', pos: 1 }));
}

#[test]
fn invalid_character_after_trim() {
    // positions count from the start of the trimmed text
    assert_eq!(evaluate("  3*2"), Err(ParseError::InvalidCharacter { c: '*', pos: 1 }));
}

#[test]
fn largest_literal() {
    assert_eq!(evaluate("4294967295"), Ok(u32::MAX));
}

#[test]
fn oversized_literal() {
    assert_eq!(
        evaluate("4294967296"),
        Err(ParseError::InvalidNumber { payload: vec!['4', '2', '9', '4', '9', '6', '7', '2', '9', '6'] })
    );
}

#[test]
fn addition_overflow() {
    assert_eq!(evaluate("4294967295+1"), Err(ParseError::ArithmeticOverflow));
}

#[test]
fn repeat_evaluation_is_stable() {
    let lines = ["5+3-2", "2-5", "3*2", "", "12+8", "4294967296"];
    for line in lines {
        assert_eq!(evaluate(line), evaluate(line));
    }
}

#[test]
fn expr_is_the_evaluator() {
    assert_eq!(expr("5+3"), Ok(8));
    assert_eq!(expr("2-5"), Err(ParseError::ArithmeticUnderflow));
}
