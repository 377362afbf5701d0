//! The recursive-descent parser and evaluator for the grammar
//! `expr := term (('+' | '-') term)*`, `term := INTEGER`, folding terms
//! into a running result in strict left-to-right order.

use crate::cursor::Cursor;
use crate::lexer::{get_next_token, token_for};
use crate::text::{
    all_digits, digits_value, lemma_scan_bounds, parse_digits, scan, trim_view, ScanResult,
};
use crate::token::{EvalErr, ParseError, TokenKind};
use vstd::prelude::*;

verus! {

/// What the evaluation loop returns once the first term has produced the
/// running value `acc` and the text has been consumed up to position `i`:
/// the left-to-right fold of the remaining `(+|-) term` steps, or the
/// first error the pipeline meets.
pub open spec fn eval_loop(s: Seq<char>, i: int, acc: u32) -> Result<u32, EvalErr>
    decreases s.len() - i,
{
    match scan(s, i) {
        ScanResult::End { .. } => Ok(acc),
        ScanResult::Invalid { c, pos } => Err(EvalErr::InvalidCharacter { c, pos }),
        ScanResult::Number { .. } => Err(EvalErr::UnexpectedToken {
            expected: TokenKind::Eof,
            found: TokenKind::Integer,
        }),
        ScanResult::Plus { next } => match scan(s, next) {
            ScanResult::Number { digits, next: after } => {
                let v = digits_value(digits);
                if v > u32::MAX {
                    Err(EvalErr::InvalidNumber { payload: digits })
                } else {
                    match scan(s, after) {
                        ScanResult::Invalid { c, pos } => Err(EvalErr::InvalidCharacter {
                            c,
                            pos,
                        }),
                        _ => {
                            if acc + v > u32::MAX {
                                Err(EvalErr::ArithmeticOverflow)
                            } else {
                                proof {
                                    lemma_scan_bounds(s, i);
                                    lemma_scan_bounds(s, next);
                                }
                                eval_loop(s, after, (acc + v) as u32)
                            }
                        },
                    }
                }
            },
            ScanResult::End { .. } => Err(EvalErr::UnexpectedToken {
                expected: TokenKind::Integer,
                found: TokenKind::Eof,
            }),
            ScanResult::Plus { .. } => Err(EvalErr::UnexpectedToken {
                expected: TokenKind::Integer,
                found: TokenKind::Plus,
            }),
            ScanResult::Minus { .. } => Err(EvalErr::UnexpectedToken {
                expected: TokenKind::Integer,
                found: TokenKind::Minus,
            }),
            ScanResult::Invalid { c, pos } => Err(EvalErr::InvalidCharacter { c, pos }),
        },
        ScanResult::Minus { next } => match scan(s, next) {
            ScanResult::Number { digits, next: after } => {
                let v = digits_value(digits);
                if v > u32::MAX {
                    Err(EvalErr::InvalidNumber { payload: digits })
                } else {
                    match scan(s, after) {
                        ScanResult::Invalid { c, pos } => Err(EvalErr::InvalidCharacter {
                            c,
                            pos,
                        }),
                        _ => {
                            if acc - v < 0 {
                                Err(EvalErr::ArithmeticUnderflow)
                            } else {
                                proof {
                                    lemma_scan_bounds(s, i);
                                    lemma_scan_bounds(s, next);
                                }
                                eval_loop(s, after, (acc - v) as u32)
                            }
                        },
                    }
                }
            },
            ScanResult::End { .. } => Err(EvalErr::UnexpectedToken {
                expected: TokenKind::Integer,
                found: TokenKind::Eof,
            }),
            ScanResult::Plus { .. } => Err(EvalErr::UnexpectedToken {
                expected: TokenKind::Integer,
                found: TokenKind::Plus,
            }),
            ScanResult::Minus { .. } => Err(EvalErr::UnexpectedToken {
                expected: TokenKind::Integer,
                found: TokenKind::Minus,
            }),
            ScanResult::Invalid { c, pos } => Err(EvalErr::InvalidCharacter { c, pos }),
        },
    }
}

/// What evaluating a trimmed text returns: the left-to-right fold of its
/// terms, or the first error.
pub open spec fn eval_expr(s: Seq<char>) -> Result<u32, EvalErr> {
    match scan(s, 0) {
        ScanResult::Invalid { c, pos } => Err(EvalErr::InvalidCharacter { c, pos }),
        ScanResult::End { .. } => Err(EvalErr::UnexpectedToken {
            expected: TokenKind::Integer,
            found: TokenKind::Eof,
        }),
        ScanResult::Plus { .. } => Err(EvalErr::UnexpectedToken {
            expected: TokenKind::Integer,
            found: TokenKind::Plus,
        }),
        ScanResult::Minus { .. } => Err(EvalErr::UnexpectedToken {
            expected: TokenKind::Integer,
            found: TokenKind::Minus,
        }),
        ScanResult::Number { digits, next } => {
            let v = digits_value(digits);
            if v > u32::MAX {
                Err(EvalErr::InvalidNumber { payload: digits })
            } else {
                eval_loop(s, next, v as u32)
            }
        },
    }
}

/// What evaluating a raw input line returns: `eval_expr` on the line
/// with its surrounding whitespace removed.
pub open spec fn eval_view(s: Seq<char>) -> Result<u32, EvalErr> {
    eval_expr(trim_view(s))
}

/// Holds when the executable result `r` is exactly what the model `m`
/// prescribes: the same value, or an error with the prescribed image.
pub open spec fn eval_matches(r: Result<u32, ParseError>, m: Result<u32, EvalErr>) -> bool {
    match (r, m) {
        (Ok(a), Ok(b)) => a == b,
        (Err(e), Err(me)) => e@ == me,
        _ => false,
    }
}

/// Checks that the lookahead has the expected kind; if so, replaces it
/// with the next token from the tokenizer, and otherwise reports the
/// mismatch without touching the cursor.
pub fn eat(cur: &mut Cursor, kind: TokenKind) -> (r: Result<(), ParseError>)
    requires
        old(cur).wf(),
    ensures
        final(cur).wf(),
        final(cur).text == old(cur).text,
        (if old(cur).current_token.kind == kind {
            match scan(old(cur).text@, old(cur).pos as int) {
                ScanResult::Invalid { c, pos } => r matches Err(e) && e@ == (
                EvalErr::InvalidCharacter { c, pos }) && final(cur).current_token == old(cur).current_token && final(cur).pos == pos,
                sr => r matches Ok(_) && token_for(
                    final(cur).current_token,
                    final(cur).pos as int,
                    sr,
                ),
            }
        } else {
            r == Err::<(), ParseError>(ParseError::UnexpectedToken {
                expected: kind,
                found: old(cur).current_token.kind,
            }) && *final(cur) == *old(cur)
        }),
{
    if cur.current_token.kind == kind {
        match get_next_token(cur) {
            Ok(t) => {
                cur.current_token = t;
                Ok(())
            },
            Err(e) => Err(e),
        }
    } else {
        Err(ParseError::UnexpectedToken { expected: kind, found: cur.current_token.kind })
    }
}

/// Evaluates one term: requires the lookahead to be an integer token,
/// reads its value, and advances the lookahead past it.
pub fn term(cur: &mut Cursor) -> (r: Result<u32, ParseError>)
    requires
        old(cur).wf(),
    ensures
        final(cur).wf(),
        final(cur).text == old(cur).text,
        (if old(cur).current_token.kind == TokenKind::Integer {
            let digits = old(cur).current_token.val@;
            if digits.len() == 0 || !all_digits(digits) || digits_value(digits) > u32::MAX {
                r matches Err(e) && e@ == (EvalErr::InvalidNumber { payload: digits }) && *final(cur) == *old(cur)
            } else {
                match scan(old(cur).text@, old(cur).pos as int) {
                    ScanResult::Invalid { c, pos } => r matches Err(e) && e@ == (
                    EvalErr::InvalidCharacter { c, pos }) && final(cur).current_token == old(cur).current_token && final(cur).pos == pos,
                    sr => r matches Ok(v) && v as int == digits_value(digits) && token_for(
                        final(cur).current_token,
                        final(cur).pos as int,
                        sr,
                    ),
                }
            }
        } else {
            r == Err::<u32, ParseError>(ParseError::UnexpectedToken {
                expected: TokenKind::Integer,
                found: old(cur).current_token.kind,
            }) && *final(cur) == *old(cur)
        }),
{
    if cur.current_token.kind != TokenKind::Integer {
        return Err(ParseError::UnexpectedToken {
            expected: TokenKind::Integer,
            found: cur.current_token.kind,
        });
    }
    let value: u32 = match parse_digits(&cur.current_token.val) {
        Some(v) => v,
        None => {
            let payload = cur.current_token.val.clone();
            proof {
                assert(payload@ =~= cur.current_token.val@);
            }
            return Err(ParseError::InvalidNumber { payload });
        },
    };
    match eat(cur, TokenKind::Integer) {
        Ok(_) => Ok(value),
        Err(e) => Err(e),
    }
}

/// Evaluates one line of text: trims it, tokenizes it, and folds its
/// terms left to right. Returns exactly what `eval_view` prescribes for
/// the line, for every input.
pub fn expr(text: &str) -> (r: Result<u32, ParseError>)
    ensures
        eval_matches(r, eval_view(text@)),
{
    let mut cur = Cursor::new(text);
    let ghost s = cur.text@;
    proof {
        lemma_scan_bounds(s, 0);
    }
    let first = match get_next_token(&mut cur) {
        Ok(t) => t,
        Err(e) => {
            return Err(e);
        },
    };
    cur.current_token = first;
    let ghost mut gpos: int = cur.pos as int;
    let mut result: u32 = match term(&mut cur) {
        Ok(v) => v,
        Err(e) => {
            return Err(e);
        },
    };
    while cur.current_token.kind == TokenKind::Plus || cur.current_token.kind == TokenKind::Minus
        invariant
            cur.wf(),
            cur.text@ == s,
            s == trim_view(text@),
            0 <= gpos <= s.len(),
            token_for(cur.current_token, cur.pos as int, scan(s, gpos)),
            eval_expr(s) == eval_loop(s, gpos, result),
        decreases s.len() - gpos,
    {
        proof {
            lemma_scan_bounds(s, gpos);
        }
        let op = cur.current_token.kind;
        let ghost opnext: int = cur.pos as int;
        match eat(&mut cur, op) {
            Ok(_) => {},
            Err(e) => {
                return Err(e);
            },
        }
        proof {
            lemma_scan_bounds(s, opnext);
        }
        let ghost tpos: int = cur.pos as int;
        let v: u32 = match term(&mut cur) {
            Ok(v) => v,
            Err(e) => {
                return Err(e);
            },
        };
        if op == TokenKind::Plus {
            if result > u32::MAX - v {
                return Err(ParseError::ArithmeticOverflow);
            }
            result = result + v;
        } else {
            if result < v {
                return Err(ParseError::ArithmeticUnderflow);
            }
            result = result - v;
        }
        proof {
            gpos = tpos;
        }
    }
    if cur.current_token.kind == TokenKind::Eof {
        Ok(result)
    } else {
        Err(ParseError::UnexpectedToken {
            expected: TokenKind::Eof,
            found: cur.current_token.kind,
        })
    }
}

/// The evaluation boundary the driver calls: one line of text in, an
/// unsigned value or a typed error out.
pub fn evaluate(text: &str) -> (r: Result<u32, ParseError>)
    ensures
        eval_matches(r, eval_view(text@)),
{
    expr(text)
}

} // verus!
