//! The tokenizer: classifies the codepoints at the cursor into typed
//! tokens, skipping whitespace and accumulating maximal digit runs.

use crate::cursor::Cursor;
use crate::text::{
    digits_end, is_digit_char, lemma_digits_end_bounds, lemma_skip_ws_bounds, scan, ScanResult,
};
use crate::token::{ParseError, Token, TokenKind};
use vstd::prelude::*;

verus! {

/// Holds when `t` is the token that the scan `sr` describes and
/// `pos_after` is the position just past it. A scan that found an
/// invalid codepoint describes no token.
pub open spec fn token_for(t: Token, pos_after: int, sr: ScanResult) -> bool {
    match sr {
        ScanResult::End { pos } => t.kind == TokenKind::Eof && pos_after == pos,
        ScanResult::Number { digits, next } => t.kind == TokenKind::Integer && t.val@ == digits
            && pos_after == next,
        ScanResult::Plus { next } => t.kind == TokenKind::Plus && pos_after == next,
        ScanResult::Minus { next } => t.kind == TokenKind::Minus && pos_after == next,
        ScanResult::Invalid { .. } => false,
    }
}

/// Consumes the maximal run of decimal digits at the cursor and returns
/// its literal text.
pub fn get_digits(cur: &mut Cursor) -> (digits: Vec<char>)
    requires
        old(cur).wf(),
    ensures
        final(cur).wf(),
        final(cur).text == old(cur).text,
        final(cur).current_token == old(cur).current_token,
        final(cur).pos == digits_end(old(cur).text@, old(cur).pos as int),
        digits@ == old(cur).text@.subrange(old(cur).pos as int, final(cur).pos as int),
    {
    let ghost c0 = *cur;
    let ghost s = cur.text@;
    let ghost p0 = cur.pos as int;
    let mut digits: Vec<char> = Vec::new();
    while cur.pos < cur.text.len() && is_digit_char(cur.text[cur.pos])
        invariant
            cur.wf(),
            cur.text == c0.text,
            cur.current_token == c0.current_token,
            s == c0.text@,
            0 <= p0 <= cur.pos as int,
            digits_end(s, p0) == digits_end(s, cur.pos as int),
            digits@ =~= s.subrange(p0, cur.pos as int),
        decreases s.len() - cur.pos,
    {
        digits.push(cur.text[cur.pos]);
        cur.pos = cur.pos + 1;
    }
    digits
}

/// Classifies the input at the cursor into the next token, skipping
/// whitespace first, or reports the first unrecognized codepoint with
/// its position. Leaves the lookahead token untouched: callers store
/// the returned token themselves.
pub fn get_next_token(cur: &mut Cursor) -> (r: Result<Token, ParseError>)
    requires
        old(cur).wf(),
    ensures
        final(cur).wf(),
        final(cur).text == old(cur).text,
        final(cur).current_token == old(cur).current_token,
        (match scan(old(cur).text@, old(cur).pos as int) {
            ScanResult::Invalid { c, pos } => r matches Err(e) && e@ == (
            crate::token::EvalErr::InvalidCharacter { c, pos }) && final(cur).pos == pos,
            sr => r matches Ok(t) && token_for(t, final(cur).pos as int, sr),
        }),
{
    let ghost s = cur.text@;
    let ghost p0 = cur.pos as int;
    cur.skip_whitespace();
    proof {
        lemma_skip_ws_bounds(s, p0);
    }
    if cur.pos >= cur.text.len() {
        return Ok(Token { kind: TokenKind::Eof, val: Vec::new() });
    }
    let c = cur.text[cur.pos];
    if is_digit_char(c) {
        proof {
            lemma_digits_end_bounds(s, cur.pos as int);
        }
        let digits = get_digits(cur);
        return Ok(Token { kind: TokenKind::Integer, val: digits });
    }
    if c == '+' {
        cur.pos = cur.pos + 1;
        let mut val: Vec<char> = Vec::new();
        val.push('+');
        return Ok(Token { kind: TokenKind::Plus, val });
    }
    if c == '-' {
        cur.pos = cur.pos + 1;
        let mut val: Vec<char> = Vec::new();
        val.push('-');
        return Ok(Token { kind: TokenKind::Minus, val });
    }
    Err(ParseError::InvalidCharacter { c, pos: cur.pos })
}

} // verus!
