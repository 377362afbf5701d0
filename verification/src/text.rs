//! The mathematical model of the input text: character classes, the
//! whitespace and digit scans, trimming, and the `scan` function that
//! says which token starts at a given position.

use vstd::prelude::*;

verus! {

/// Whitespace as the tokenizer understands it: the blank codepoints of
/// the ASCII range.
pub open spec fn is_space(c: char) -> bool {
    c == ' ' || c == '\t' || c == '\n' || c == '\r' || c == '\u{b}' || c == '\u{c}'
}

/// Decimal digits.
pub open spec fn is_digit(c: char) -> bool {
    '0' as u32 <= c as u32 <= '9' as u32
}

/// The numeric value of one decimal digit.
pub open spec fn digit_val(c: char) -> int
    recommends
        is_digit(c),
{
    c as u32 - '0' as u32
}

pub open spec fn all_digits(s: Seq<char>) -> bool {
    forall|k: int| 0 <= k < s.len() ==> is_digit(#[trigger] s[k])
}

/// The value of a digit string read in base ten, most significant first.
pub open spec fn digits_value(s: Seq<char>) -> int
    recommends
        all_digits(s),
    decreases s.len(),
{
    if s.len() == 0 {
        0
    } else {
        digits_value(s.drop_last()) * 10 + digit_val(s.last())
    }
}

/// The first position at or after `i` that does not hold whitespace.
pub open spec fn skip_ws(s: Seq<char>, i: int) -> int
    decreases s.len() - i,
{
    if i < s.len() && is_space(s[i]) {
        skip_ws(s, i + 1)
    } else {
        i
    }
}

/// The end of the maximal run of digits that starts at `i`.
pub open spec fn digits_end(s: Seq<char>, i: int) -> int
    decreases s.len() - i,
{
    if i < s.len() && is_digit(s[i]) {
        digits_end(s, i + 1)
    } else {
        i
    }
}

/// The length of `s` without its trailing whitespace.
pub open spec fn ws_end(s: Seq<char>) -> int
    decreases s.len(),
{
    if s.len() > 0 && is_space(s[s.len() - 1]) {
        ws_end(s.drop_last())
    } else {
        s.len() as int
    }
}

/// `s` without leading and trailing whitespace.
pub open spec fn trim_view(s: Seq<char>) -> Seq<char> {
    let start = skip_ws(s, 0);
    let end = ws_end(s);
    if start <= end {
        s.subrange(start, end)
    } else {
        Seq::empty()
    }
}

/// What scanning one token from position `i` yields: the token's data
/// and the position just past it, or the first offending codepoint.
pub enum ScanResult {
    End { pos: int },
    Number { digits: Seq<char>, next: int },
    Plus { next: int },
    Minus { next: int },
    Invalid { c: char, pos: int },
}

/// The token that starts at position `i`, after whitespace.
pub open spec fn scan(s: Seq<char>, i: int) -> ScanResult {
    let j = skip_ws(s, i);
    if j >= s.len() {
        ScanResult::End { pos: j }
    } else if is_digit(s[j]) {
        ScanResult::Number { digits: s.subrange(j, digits_end(s, j)), next: digits_end(s, j) }
    } else if s[j] == '+' {
        ScanResult::Plus { next: j + 1 }
    } else if s[j] == '-' {
        ScanResult::Minus { next: j + 1 }
    } else {
        ScanResult::Invalid { c: s[j], pos: j }
    }
}

pub proof fn lemma_skip_ws_bounds(s: Seq<char>, i: int)
    ensures
        i <= skip_ws(s, i),
        i <= s.len() ==> skip_ws(s, i) <= s.len(),
        forall|k: int| i <= k < skip_ws(s, i) ==> is_space(#[trigger] s[k]),
        skip_ws(s, i) < s.len() ==> !is_space(s[skip_ws(s, i)]),
    decreases s.len() - i,
{
    if i < s.len() && is_space(s[i]) {
        lemma_skip_ws_bounds(s, i + 1);
    }
}

pub proof fn lemma_digits_end_bounds(s: Seq<char>, i: int)
    ensures
        i <= digits_end(s, i),
        i <= s.len() ==> digits_end(s, i) <= s.len(),
        forall|k: int| i <= k < digits_end(s, i) ==> is_digit(#[trigger] s[k]),
        digits_end(s, i) < s.len() ==> !is_digit(s[digits_end(s, i)]),
        i < s.len() && is_digit(s[i]) ==> i + 1 <= digits_end(s, i),
    decreases s.len() - i,
{
    if i < s.len() && is_digit(s[i]) {
        lemma_digits_end_bounds(s, i + 1);
    }
}

/// A maximal digit run: if everything in `[i, j)` is a digit and `j` sits
/// at the end of the text or at a non-digit, the digit scan stops at `j`.
pub proof fn lemma_digits_end_run(s: Seq<char>, i: int, j: int)
    requires
        0 <= i <= j <= s.len(),
        forall|k: int| i <= k < j ==> is_digit(#[trigger] s[k]),
        j == s.len() || !is_digit(s[j]),
    ensures
        digits_end(s, i) == j,
    decreases j - i,
{
    if i < j {
        lemma_digits_end_run(s, i + 1, j);
    }
}

/// A position at the end of the text or at a non-whitespace codepoint is
/// where the whitespace scan stops.
pub proof fn lemma_skip_ws_run(s: Seq<char>, i: int, j: int)
    requires
        0 <= i <= j <= s.len(),
        forall|k: int| i <= k < j ==> is_space(#[trigger] s[k]),
        j == s.len() || !is_space(s[j]),
    ensures
        skip_ws(s, i) == j,
    decreases j - i,
{
    if i < j {
        lemma_skip_ws_run(s, i + 1, j);
    }
}

/// Bounds on the position a scanned token ends at, and the shape of a
/// scanned number: at least one digit, and digits only.
pub proof fn lemma_scan_bounds(s: Seq<char>, i: int)
    ensures
        scan(s, i) matches ScanResult::Plus { next } ==> i < next <= s.len(),
        scan(s, i) matches ScanResult::Minus { next } ==> i < next <= s.len(),
        scan(s, i) matches ScanResult::Number { digits, next } ==> i < next <= s.len(),
        0 <= i ==> (scan(s, i) matches ScanResult::Number { digits, next } ==> 1 <= digits.len()
            && all_digits(digits) && digits.len() == next - skip_ws(s, i)),
        scan(s, i) matches ScanResult::Invalid { c, pos } ==> i <= pos < s.len() && c == s[pos],
        0 <= i <= s.len() ==> (scan(s, i) matches ScanResult::End { pos } ==> pos == s.len()),
{
    lemma_skip_ws_bounds(s, i);
    let j = skip_ws(s, i);
    if j < s.len() && is_digit(s[j]) {
        lemma_digits_end_bounds(s, j);
        let e = digits_end(s, j);
        if 0 <= i {
            let d = s.subrange(j, e);
            assert forall|k: int| 0 <= k < d.len() implies is_digit(#[trigger] d[k]) by {
                assert(d[k] == s[j + k]);
                assert(is_digit(s[j + k]));
            }
        }
    }
}

/// A digit string has a non-negative value.
pub proof fn lemma_digits_value_nonneg(s: Seq<char>)
    requires
        all_digits(s),
    ensures
        digits_value(s) >= 0,
    decreases s.len(),
{
    if s.len() > 0 {
        assert(is_digit(s[s.len() - 1]));
        assert(all_digits(s.drop_last()));
        lemma_digits_value_nonneg(s.drop_last());
    }
}

/// Reading one more digit multiplies the value by ten and adds the digit.
pub proof fn lemma_digits_value_push(s: Seq<char>, c: char)
    ensures
        digits_value(s.push(c)) == digits_value(s) * 10 + digit_val(c),
{
    assert(s.push(c).drop_last() =~= s);
}

/// A longer prefix of a digit string never has a smaller value.
pub proof fn lemma_digits_value_prefix_mono(s: Seq<char>, i: int, j: int)
    requires
        0 <= i <= j <= s.len(),
        all_digits(s),
    ensures
        digits_value(s.subrange(0, i)) <= digits_value(s.subrange(0, j)),
    decreases j - i,
{
    if i < j {
        let a = s.subrange(0, j - 1);
        let b = s.subrange(0, j);
        assert(b.drop_last() =~= a);
        assert(is_digit(s[j - 1]));
        assert(all_digits(a));
        lemma_digits_value_nonneg(a);
        lemma_digits_value_prefix_mono(s, i, j - 1);
        assert(digits_value(b) == digits_value(a) * 10 + digit_val(s[j - 1]));
    }
}

pub open spec fn all_space(s: Seq<char>) -> bool {
    forall|k: int| 0 <= k < s.len() ==> is_space(#[trigger] s[k])
}

pub proof fn lemma_ws_end_bounds(s: Seq<char>)
    ensures
        0 <= ws_end(s) <= s.len(),
        forall|k: int| ws_end(s) <= k < s.len() ==> is_space(#[trigger] s[k]),
        ws_end(s) > 0 ==> !is_space(s[ws_end(s) - 1]),
    decreases s.len(),
{
    if s.len() > 0 && is_space(s[s.len() - 1]) {
        lemma_ws_end_bounds(s.drop_last());
        assert forall|k: int| ws_end(s) <= k < s.len() implies is_space(#[trigger] s[k]) by {
            if k < s.len() - 1 {
                assert(is_space(s.drop_last()[k]));
            }
        }
        if ws_end(s) > 0 {
            assert(!is_space(s.drop_last()[ws_end(s) - 1]));
        }
    }
}

/// A position with only whitespace after it, and none just before it,
/// is where the trailing-whitespace scan stops.
pub proof fn lemma_ws_end_run(s: Seq<char>, j: int)
    requires
        0 <= j <= s.len(),
        forall|k: int| j <= k < s.len() ==> is_space(#[trigger] s[k]),
        j == 0 || !is_space(s[j - 1]),
    ensures
        ws_end(s) == j,
    decreases s.len(),
{
    if s.len() > 0 && is_space(s[s.len() - 1]) {
        assert(j < s.len());
        assert forall|k: int| j <= k < s.drop_last().len() implies is_space(
            #[trigger] s.drop_last()[k],
        ) by {
            assert(is_space(s[k]));
        }
        if j > 0 {
            assert(s.drop_last()[j - 1] == s[j - 1]);
        }
        lemma_ws_end_run(s.drop_last(), j);
    }
}

/// Trimming a text that is whitespace, then a core that neither starts
/// nor ends with whitespace, then whitespace again, yields the core.
pub proof fn lemma_trim_of_parts(p: Seq<char>, core: Seq<char>, q: Seq<char>)
    requires
        all_space(p),
        all_space(q),
        core.len() > 0 ==> !is_space(core.first()) && !is_space(core.last()),
    ensures
        trim_view(p + core + q) == core,
{
    let s = p + core + q;
    if core.len() == 0 {
        assert forall|k: int| 0 <= k < s.len() implies is_space(#[trigger] s[k]) by {
            if k < p.len() {
                assert(is_space(p[k]));
            } else {
                assert(s[k] == q[k - p.len()]);
                assert(is_space(q[k - p.len()]));
            }
        }
        lemma_skip_ws_run(s, 0, s.len() as int);
        lemma_ws_end_run(s, 0);
        if s.len() > 0 {
            assert(trim_view(s) == Seq::<char>::empty());
        } else {
            assert(trim_view(s) =~= Seq::<char>::empty());
        }
        assert(core =~= Seq::<char>::empty());
    } else {
        assert forall|k: int| 0 <= k < p.len() implies is_space(#[trigger] s[k]) by {
            assert(s[k] == p[k]);
            assert(is_space(p[k]));
        }
        assert(s[p.len() as int] == core.first());
        lemma_skip_ws_run(s, 0, p.len() as int);
        let en: int = p.len() as int + core.len() as int;
        assert forall|k: int| en <= k < s.len() implies is_space(#[trigger] s[k]) by {
            assert(s[k] == q[k - en]);
            assert(is_space(q[k - en]));
        }
        assert(s[en - 1] == core.last());
        lemma_ws_end_run(s, en);
        assert(trim_view(s) =~= core);
    }
}

/// Every text splits as whitespace, its trimmed core, and whitespace,
/// with the core free of whitespace at both ends.
pub proof fn lemma_trim_decomp(s: Seq<char>)
    ensures
        s == s.subrange(0, skip_ws(s, 0)) + trim_view(s) + s.subrange(ws_end(s), s.len() as int)
            || trim_view(s).len() == 0,
        all_space(s.subrange(0, skip_ws(s, 0))) || trim_view(s).len() == 0,
        all_space(s.subrange(ws_end(s), s.len() as int)) || trim_view(s).len() == 0,
        trim_view(s).len() == 0 ==> all_space(s),
        trim_view(s).len() > 0 ==> !is_space(trim_view(s).first()) && !is_space(trim_view(s).last()),
{
    lemma_skip_ws_bounds(s, 0);
    lemma_ws_end_bounds(s);
    let st = skip_ws(s, 0);
    let en = ws_end(s);
    if st >= s.len() {
        // the whole text is whitespace
        assert forall|k: int| 0 <= k < s.len() implies is_space(#[trigger] s[k]) by {}
        lemma_ws_end_run(s, 0);
        assert(trim_view(s).len() == 0);
        assert(all_space(s));
    } else {
        // s[st] is not whitespace, so the core is non-empty
        assert(!is_space(s[st]));
        assert(en > st) by {
            if en <= st {
                assert(is_space(s[st]));
            }
        }
        let p = s.subrange(0, st);
        let core = s.subrange(st, en);
        let q = s.subrange(en, s.len() as int);
        assert(trim_view(s) == core);
        assert(s =~= p + core + q);
        assert forall|k: int| 0 <= k < p.len() implies is_space(#[trigger] p[k]) by {
            assert(p[k] == s[k]);
        }
        assert forall|k: int| 0 <= k < q.len() implies is_space(#[trigger] q[k]) by {
            assert(q[k] == s[en + k]);
        }
        assert(core.first() == s[st]);
        assert(core.last() == s[en - 1]);
    }
}

/// Decides `is_space`.
pub fn is_space_char(c: char) -> (r: bool)
    ensures
        r == is_space(c),
{
    c == ' ' || c == '\t' || c == '\n' || c == '\r' || c == '\u{b}' || c == '\u{c}'
}

/// Decides `is_digit`.
pub fn is_digit_char(c: char) -> (r: bool)
    ensures
        r == is_digit(c),
{
    let u: u32 = c as u32;
    let lo: u32 = '0' as u32;
    let hi: u32 = '9' as u32;
    lo <= u && u <= hi
}

/// The codepoints of `text`, in order.
pub fn chars_of(text: &str) -> (v: Vec<char>)
    ensures
        v@ == text@,
{
    let n: usize = text.unicode_len();
    let mut v: Vec<char> = Vec::new();
    let mut i: usize = 0;
    while i < n
        invariant
            i <= n,
            n == text@.len(),
            v@ =~= text@.subrange(0, i as int),
        decreases n - i,
    {
        v.push(text.get_char(i));
        i += 1;
    }
    proof {
        assert(v@ =~= text@);
    }
    v
}

/// `text` without leading and trailing whitespace.
pub fn trim_chars(text: &Vec<char>) -> (t: Vec<char>)
    ensures
        t@ == trim_view(text@),
{
    let ghost s = text@;
    proof {
        assert(s.subrange(0, s.len() as int) =~= s);
    }
    let mut start: usize = 0;
    while start < text.len() && is_space_char(text[start])
        invariant
            start <= s.len(),
            s == text@,
            skip_ws(s, 0) == skip_ws(s, start as int),
        decreases s.len() - start,
    {
        start += 1;
    }
    proof {
        assert(skip_ws(s, start as int) == start);
    }
    let mut end: usize = text.len();
    while end > 0 && is_space_char(text[end - 1])
        invariant
            end <= s.len(),
            s == text@,
            ws_end(s) == ws_end(s.subrange(0, end as int)),
        decreases end,
    {
        proof {
            let t = s.subrange(0, end as int);
            assert(t.drop_last() =~= s.subrange(0, end - 1));
        }
        end -= 1;
    }
    proof {
        let t = s.subrange(0, end as int);
        if end > 0 {
            assert(t[end - 1] == s[end - 1]);
        }
        assert(ws_end(t) == end);
    }
    let mut out: Vec<char> = Vec::new();
    if start < end {
        let mut k: usize = start;
        while k < end
            invariant
                start <= k <= end <= s.len(),
                s == text@,
                out@ =~= s.subrange(start as int, k as int),
            decreases end - k,
        {
            out.push(text[k]);
            k += 1;
        }
    }
    proof {
        assert(out@ =~= trim_view(s));
    }
    out
}

/// Reads a digit string as a base-ten number, most significant digit
/// first. Returns nothing when the string is empty, holds a non-digit,
/// or its value does not fit.
pub fn parse_digits(digits: &Vec<char>) -> (r: Option<u32>)
    ensures
        (match r {
            Some(n) => digits@.len() > 0 && all_digits(digits@) && n as int == digits_value(
                digits@,
            ),
            None => digits@.len() == 0 || !all_digits(digits@) || digits_value(digits@)
                > u32::MAX,
        }),
{
    let ghost s = digits@;
    if digits.len() == 0 {
        return None;
    }
    let mut acc: u64 = 0;
    let mut i: usize = 0;
    while i < digits.len()
        invariant
            i <= s.len(),
            s.len() == digits@.len(),
            s == digits@,
            s.len() > 0,
            all_digits(s.subrange(0, i as int)),
            acc as int == digits_value(s.subrange(0, i as int)),
            acc <= u32::MAX,
        decreases s.len() - i,
    {
        let c = digits[i];
        if !is_digit_char(c) {
            return None;
        }
        let d: u64 = (c as u32 - '0' as u32) as u64;
        proof {
            assert(d as int == digit_val(c));
            let a = s.subrange(0, i as int);
            let b = s.subrange(0, i + 1);
            assert(b.drop_last() =~= a);
            assert(digits_value(b) == digits_value(a) * 10 + digit_val(c));
        }
        let next: u64 = acc * 10 + d;
        if next > 0xffff_ffff {
            proof {
                if all_digits(s) {
                    lemma_digits_value_prefix_mono(s, i + 1, s.len() as int);
                    assert(s.subrange(0, s.len() as int) =~= s);
                }
            }
            return None;
        }
        acc = next;
        i += 1;
    }
    proof {
        assert(s.subrange(0, s.len() as int) =~= s);
    }
    Some(acc as u32)
}

} // verus!
