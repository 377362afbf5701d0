//! The character cursor: the trimmed text of one input line, a scan
//! position, and the parser's one-token lookahead.

use crate::text::{chars_of, is_space_char, skip_ws, trim_chars, trim_view};
use crate::token::{Token, TokenKind};
use vstd::prelude::*;

verus! {

/// Owns the trimmed source text and a scan position, and carries the
/// parser's current lookahead token. Constructed fresh for every input
/// line; the position never runs more than one place past the end.
pub struct Cursor {
    pub text: Vec<char>,
    pub pos: usize,
    pub current_token: Token,
}

impl Cursor {
    /// The cursor's invariant: the position is an index into the text
    /// or exactly one past its end.
    pub open spec fn wf(&self) -> bool {
        self.pos <= self.text@.len()
    }

    /// Builds a cursor on `text` with leading and trailing whitespace
    /// removed, the position at the start, and the `Bof` sentinel as
    /// lookahead.
    pub fn new(text: &str) -> (c: Cursor)
        ensures
            c.text@ == trim_view(text@),
            c.pos == 0,
            c.current_token.kind == TokenKind::Bof,
            c.current_token.val@ == Seq::<char>::empty(),
            c.wf(),
    {
        let chars = chars_of(text);
        let trimmed = trim_chars(&chars);
        Cursor { text: trimmed, pos: 0, current_token: Token { kind: TokenKind::Bof, val: Vec::new() } }
    }

    /// The codepoint at the scan position, or nothing once the text is
    /// exhausted.
    pub fn current(&self) -> (r: Option<char>)
        ensures
            r == (if self.pos < self.text@.len() {
                Some(self.text@[self.pos as int])
            } else {
                Option::<char>::None
            }),
    {
        if self.pos < self.text.len() {
            Some(self.text[self.pos])
        } else {
            None
        }
    }

    /// Moves the scan position forward by one codepoint, unless the text
    /// is already exhausted, and returns the new current codepoint.
    pub fn next(&mut self) -> (r: Option<char>)
        requires
            old(self).wf(),
        ensures
            final(self).wf(),
            final(self).text == old(self).text,
            final(self).current_token == old(self).current_token,
            final(self).pos == (if old(self).pos < old(self).text@.len() {
                old(self).pos + 1
            } else {
                old(self).pos as int
            }),
            r == (if final(self).pos < final(self).text@.len() {
                Some(final(self).text@[final(self).pos as int])
            } else {
                Option::<char>::None
            }),
    {
        if self.pos < self.text.len() {
            self.pos = self.pos + 1;
        }
        if self.pos < self.text.len() {
            Some(self.text[self.pos])
        } else {
            None
        }
    }

    /// Returns the cursor to the start of its text and the lookahead to
    /// the `Bof` sentinel.
    pub fn reset(&mut self)
        ensures
            final(self).text == old(self).text,
            final(self).pos == 0,
            final(self).current_token.kind == TokenKind::Bof,
            final(self).current_token.val@ == Seq::<char>::empty(),
            final(self).wf(),
    {
        self.pos = 0;
        self.current_token = Token { kind: TokenKind::Bof, val: Vec::new() };
    }

    /// Advances the scan position to the first codepoint that is not
    /// whitespace, or to the end of the text.
    pub fn skip_whitespace(&mut self)
        requires
            old(self).wf(),
        ensures
            final(self).wf(),
            final(self).text == old(self).text,
            final(self).current_token == old(self).current_token,
            final(self).pos == skip_ws(old(self).text@, old(self).pos as int),
    {
        let ghost t0 = *self;
        let ghost s = self.text@;
        let ghost p0 = self.pos as int;
        while self.pos < self.text.len() && is_space_char(self.text[self.pos])
            invariant
                self.wf(),
                self.text == t0.text,
                self.current_token == t0.current_token,
                0 <= p0,
                skip_ws(s, p0) == skip_ws(s, self.pos as int),
                s == t0.text@,
            decreases s.len() - self.pos,
        {
            self.pos = self.pos + 1;
        }
    }
}

} // verus!
