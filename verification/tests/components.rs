use calc::cursor::Cursor;
use calc::lexer::{get_digits, get_next_token};
use calc::parser::{eat, term};
use calc::text::parse_digits;
use calc::token::{ParseError, TokenKind};

#[test]
fn cursor_new_trims_and_starts_at_bof() {
    let cur = Cursor::new("  ab  ");
    assert_eq!(cur.text, vec!['a', 'b']);
    assert_eq!(cur.pos, 0);
    assert_eq!(cur.current_token.kind, TokenKind::Bof);
    assert!(cur.current_token.val.is_empty());
}

#[test]
fn cursor_current_and_next() {
    let mut cur = Cursor::new("12");
    assert_eq!(cur.current(), Some('1'));
    assert_eq!(cur.next(), Some('2'));
    assert_eq!(cur.next(), None);
    // once exhausted the cursor stays exhausted
    assert_eq!(cur.next(), None);
    assert_eq!(cur.current(), None);
}

#[test]
fn cursor_current_on_empty() {
    let cur = Cursor::new("");
    assert_eq!(cur.current(), None);
}

#[test]
fn cursor_reset_returns_to_start() {
    let mut cur = Cursor::new("5+6");
    cur.next();
    cur.next();
    cur.reset();
    assert_eq!(cur.pos, 0);
    assert_eq!(cur.current(), Some('5'));
    assert_eq!(cur.current_token.kind, TokenKind::Bof);
}

#[test]
fn cursor_skip_whitespace() {
    let mut cur = Cursor::new("3   +4");
    cur.next();
    cur.skip_whitespace();
    assert_eq!(cur.current(), Some('+'));
}

#[test]
fn skip_whitespace_on_blank_is_safe() {
    let mut cur = Cursor::new("");
    cur.skip_whitespace();
    assert_eq!(cur.current(), None);
}

#[test]
fn token_stream_of_a_line() {
    let mut cur = Cursor::new(" 12 + 3");
    let t = get_next_token(&mut cur).unwrap();
    assert_eq!(t.kind, TokenKind::Integer);
    assert_eq!(t.val, vec!['1', '2']);
    let t = get_next_token(&mut cur).unwrap();
    assert_eq!(t.kind, TokenKind::Plus);
    let t = get_next_token(&mut cur).unwrap();
    assert_eq!(t.kind, TokenKind::Integer);
    assert_eq!(t.val, vec!['3']);
    let t = get_next_token(&mut cur).unwrap();
    assert_eq!(t.kind, TokenKind::Eof);
}

#[test]
fn tokenizer_on_blank_input_yields_eof() {
    let mut cur = Cursor::new("   ");
    let t = get_next_token(&mut cur).unwrap();
    assert_eq!(t.kind, TokenKind::Eof);
}

#[test]
fn tokenizer_reports_invalid_character() {
    let mut cur = Cursor::new("3*2");
    let t = get_next_token(&mut cur).unwrap();
    assert_eq!(t.kind, TokenKind::Integer);
    assert_eq!(
        get_next_token(&mut cur),
        Err(ParseError::InvalidCharacter { c: '*', pos: 1 })
    );
}

#[test]
fn minus_token() {
    let mut cur = Cursor::new("-");
    let t = get_next_token(&mut cur).unwrap();
    assert_eq!(t.kind, TokenKind::Minus);
}

#[test]
fn digits_run_is_maximal() {
    let mut cur = Cursor::new("123+4");
    let digits = get_digits(&mut cur);
    assert_eq!(digits, vec!['1', '2', '3']);
    assert_eq!(cur.current(), Some('+'));
}

#[test]
fn eat_matches_and_advances() {
    let mut cur = Cursor::new("5");
    cur.current_token = get_next_token(&mut cur).unwrap();
    assert_eq!(eat(&mut cur, TokenKind::Integer), Ok(()));
    assert_eq!(cur.current_token.kind, TokenKind::Eof);
}

#[test]
fn eat_rejects_a_mismatch() {
    let mut cur = Cursor::new("5");
    cur.current_token = get_next_token(&mut cur).unwrap();
    assert_eq!(
        eat(&mut cur, TokenKind::Plus),
        Err(ParseError::UnexpectedToken { expected: TokenKind::Plus, found: TokenKind::Integer })
    );
    // the mismatch leaves the lookahead untouched
    assert_eq!(cur.current_token.kind, TokenKind::Integer);
}

#[test]
fn term_reads_an_integer() {
    let mut cur = Cursor::new("42");
    cur.current_token = get_next_token(&mut cur).unwrap();
    assert_eq!(term(&mut cur), Ok(42));
    assert_eq!(cur.current_token.kind, TokenKind::Eof);
}

#[test]
fn term_rejects_an_operator() {
    let mut cur = Cursor::new("+");
    cur.current_token = get_next_token(&mut cur).unwrap();
    assert_eq!(
        term(&mut cur),
        Err(ParseError::UnexpectedToken { expected: TokenKind::Integer, found: TokenKind::Plus })
    );
}

#[test]
fn parse_digits_values() {
    assert_eq!(parse_digits(&vec!['0']), Some(0));
    assert_eq!(parse_digits(&vec!['4', '2']), Some(42));
    assert_eq!(parse_digits(&vec!['0', '0', '7']), Some(7));
    assert_eq!(parse_digits(&Vec::new()), None);
    assert_eq!(parse_digits(&vec!['4', 'a']), None);
    assert_eq!(
        parse_digits(&vec!['4', '2', '9', '4', '9', '6', '7', '2', '9', '5']),
        Some(u32::MAX)
    );
    assert_eq!(
        parse_digits(&vec!['4', '2', '9', '4', '9', '6', '7', '2', '9', '6']),
        None
    );
}
