//! General properties of the evaluator, stated and proved against the
//! specification model.

use crate::parser::{eval_loop, eval_matches, eval_view};
use crate::text::{
    all_digits, all_space, digit_val, digits_value, is_digit, is_space, lemma_digits_end_run,
    lemma_digits_value_push, lemma_skip_ws_run, lemma_trim_decomp, lemma_trim_of_parts,
    lemma_ws_end_run, scan, skip_ws, trim_view, ws_end, ScanResult,
};
use crate::token::{EvalErr, ParseError, TokenKind};
use vstd::prelude::*;

verus! {

/// Leading and trailing whitespace is insignificant: wrapping a line in
/// whitespace changes neither its value nor its error.
pub proof fn lemma_whitespace_insignificant(pre: Seq<char>, text: Seq<char>, post: Seq<char>)
    requires
        all_space(pre),
        all_space(post),
    ensures
        eval_view(pre + text + post) == eval_view(text),
{
    lemma_trim_decomp(text);
    let s = pre + text + post;
    if trim_view(text).len() == 0 {
        assert forall|k: int| 0 <= k < s.len() implies is_space(#[trigger] s[k]) by {
            if k < pre.len() {
                assert(s[k] == pre[k]);
            } else if k < pre.len() + text.len() {
                assert(s[k] == text[k - pre.len()]);
            } else {
                assert(s[k] == post[k - pre.len() - text.len()]);
            }
        }
        lemma_trim_of_parts(s, Seq::empty(), Seq::empty());
        assert(s + Seq::<char>::empty() + Seq::<char>::empty() =~= s);
        assert(trim_view(text) =~= Seq::<char>::empty());
    } else {
        let st = skip_ws(text, 0);
        let en = ws_end(text);
        let p = text.subrange(0, st);
        let core = trim_view(text);
        let q = text.subrange(en, text.len() as int);
        assert(text == p + core + q);
        assert(s =~= (pre + p) + core + (q + post));
        assert forall|k: int| 0 <= k < (pre + p).len() implies is_space(#[trigger] (pre + p)[k]) by {
            if k < pre.len() {
                assert((pre + p)[k] == pre[k]);
            } else {
                assert((pre + p)[k] == p[k - pre.len()]);
            }
        }
        assert forall|k: int| 0 <= k < (q + post).len() implies is_space(#[trigger] (q + post)[k]) by {
            if k < q.len() {
                assert((q + post)[k] == q[k]);
            } else {
                assert((q + post)[k] == post[k - q.len()]);
            }
        }
        lemma_trim_of_parts(pre + p, core, q + post);
    }
}

/// A blank line is safe for the tokenizer: once trimmed it is empty, the
/// first scan meets the end of the input at once, and evaluation reports
/// a missing first term rather than crashing.
pub proof fn lemma_blank_line_hits_eof(text: Seq<char>)
    requires
        all_space(text),
    ensures
        trim_view(text).len() == 0,
        scan(trim_view(text), 0) matches ScanResult::End { .. },
        eval_view(text) == Err::<u32, EvalErr>(EvalErr::UnexpectedToken {
            expected: TokenKind::Integer,
            found: TokenKind::Eof,
        }),
{
    lemma_skip_ws_run(text, 0, text.len() as int);
    lemma_ws_end_run(text, 0);
    assert(trim_view(text).len() == 0);
}

/// The character of one decimal digit.
pub open spec fn digit_char(n: int) -> char
    recommends
        0 <= n <= 9,
{
    if n == 0 {
        '0'
    } else if n == 1 {
        '1'
    } else if n == 2 {
        '2'
    } else if n == 3 {
        '3'
    } else if n == 4 {
        '4'
    } else if n == 5 {
        '5'
    } else if n == 6 {
        '6'
    } else if n == 7 {
        '7'
    } else if n == 8 {
        '8'
    } else {
        '9'
    }
}

/// The decimal digits of `n`, most significant first.
pub open spec fn render_num(n: int) -> Seq<char>
    recommends
        n >= 0,
    decreases n,
{
    if n <= 9 {
        seq![digit_char(n)]
    } else {
        proof {
            vstd::arithmetic::div_mod::lemma_div_is_strictly_smaller(n, 10);
            vstd::arithmetic::div_mod::lemma_div_pos_is_pos(n, 10);
        }
        render_num(n / 10).push(digit_char(n % 10))
    }
}

/// The operator character of one fold step.
pub open spec fn op_char(plus: bool) -> char {
    if plus {
        '+'
    } else {
        '-'
    }
}

/// The text of an expression: the first number, then one operator and
/// one number for each further step, with no whitespace.
pub open spec fn render_ops(rest: Seq<(bool, u32)>) -> Seq<char>
    decreases rest.len(),
{
    if rest.len() == 0 {
        Seq::empty()
    } else {
        render_ops(rest.drop_last()) + seq![op_char(rest.last().0)] + render_num(
            rest.last().1 as int,
        )
    }
}

pub open spec fn render_line(first: u32, rest: Seq<(bool, u32)>) -> Seq<char> {
    render_num(first as int) + render_ops(rest)
}

/// The strict left-to-right fold of the steps, over the integers.
pub open spec fn fold_value(first: int, rest: Seq<(bool, u32)>) -> int
    decreases rest.len(),
{
    if rest.len() == 0 {
        first
    } else {
        let prev = fold_value(first, rest.drop_last());
        if rest.last().0 {
            prev + rest.last().1
        } else {
            prev - rest.last().1
        }
    }
}

/// Holds when every intermediate fold result, the first value included,
/// stays between zero and the largest representable value.
pub open spec fn fold_in_range(first: int, rest: Seq<(bool, u32)>) -> bool
    decreases rest.len(),
{
    if rest.len() == 0 {
        0 <= first <= u32::MAX
    } else {
        fold_in_range(first, rest.drop_last()) && 0 <= fold_value(first, rest) <= u32::MAX
    }
}

proof fn lemma_digit_classes(c: char)
    ensures
        is_digit(c) ==> !is_space(c),
        !is_digit('+'),
        !is_digit('-'),
        !is_space('+'),
        !is_space('-'),
{
}

proof fn lemma_render_num_digits(n: int)
    requires
        n >= 0,
    ensures
        render_num(n).len() >= 1,
        all_digits(render_num(n)),
        digits_value(render_num(n)) == n,
    decreases n,
{
    if n <= 9 {
        assert(render_num(n) == seq![digit_char(n)]);
        assert(render_num(n).drop_last() =~= Seq::<char>::empty());
        assert(digits_value(Seq::<char>::empty()) == 0);
        assert(digit_val(digit_char(n)) == n);
        assert(render_num(n).last() == digit_char(n));
        assert(digits_value(render_num(n)) == n);
    } else {
        vstd::arithmetic::div_mod::lemma_div_is_strictly_smaller(n, 10);
        vstd::arithmetic::div_mod::lemma_div_pos_is_pos(n, 10);
        vstd::arithmetic::div_mod::lemma_fundamental_div_mod(n, 10);
        vstd::arithmetic::div_mod::lemma_mod_bound(n, 10);
        lemma_render_num_digits(n / 10);
        let a = render_num(n / 10);
        let c = digit_char(n % 10);
        lemma_digits_value_push(a, c);
        assert(digit_val(c) == n % 10);
        assert(render_num(n) == a.push(c));
        assert forall|k: int| 0 <= k < a.push(c).len() implies is_digit(
            #[trigger] a.push(c)[k],
        ) by {
            if k < a.len() {
                assert(a.push(c)[k] == a[k]);
            } else {
                assert(a.push(c)[k] == c);
            }
        }
        assert(digits_value(render_num(n)) == (n / 10) * 10 + n % 10);
    }
}

proof fn lemma_take_snoc<T>(s: Seq<T>, k: int)
    requires
        0 <= k < s.len(),
    ensures
        s.take(k + 1).drop_last() =~= s.take(k),
        s.take(k + 1).last() == s[k],
{
}

/// Holds when every segment is whitespace only.
pub open spec fn ws_gaps(gs: Seq<Seq<char>>) -> bool {
    forall|k: int| 0 <= k < gs.len() ==> all_space(#[trigger] gs[k])
}

/// The text of an expression with whitespace laid in: each fold step
/// contributes one whitespace segment, its operator, a second whitespace
/// segment, and its number.
pub open spec fn render_ops_with(
    rest: Seq<(bool, u32)>,
    ga: Seq<Seq<char>>,
    gb: Seq<Seq<char>>,
) -> Seq<char>
    recommends
        ga.len() == rest.len(),
        gb.len() == rest.len(),
    decreases rest.len(),
{
    if rest.len() == 0 {
        Seq::empty()
    } else {
        render_ops_with(rest.drop_last(), ga.drop_last(), gb.drop_last()) + ga.last() + seq![
            op_char(rest.last().0),
        ] + gb.last() + render_num(rest.last().1 as int)
    }
}

pub open spec fn render_line_with(
    first: u32,
    rest: Seq<(bool, u32)>,
    ga: Seq<Seq<char>>,
    gb: Seq<Seq<char>>,
) -> Seq<char> {
    render_num(first as int) + render_ops_with(rest, ga, gb)
}

/// With empty whitespace segments the spaced rendering is the plain one.
proof fn lemma_render_ops_plain(rest: Seq<(bool, u32)>)
    ensures
        render_ops_with(
            rest,
            Seq::new(rest.len(), |i: int| Seq::<char>::empty()),
            Seq::new(rest.len(), |i: int| Seq::<char>::empty()),
        ) =~= render_ops(rest),
    decreases rest.len(),
{
    let e = Seq::new(rest.len(), |i: int| Seq::<char>::empty());
    if rest.len() > 0 {
        let e2 = Seq::new(rest.drop_last().len(), |i: int| Seq::<char>::empty());
        assert(e.drop_last() =~= e2);
        lemma_render_ops_plain(rest.drop_last());
        assert(e.last() =~= Seq::<char>::empty());
    }
}

proof fn lemma_render_line_snoc(
    first: u32,
    rest: Seq<(bool, u32)>,
    ga: Seq<Seq<char>>,
    gb: Seq<Seq<char>>,
    k: int,
)
    requires
        0 <= k < rest.len(),
        ga.len() == rest.len(),
        gb.len() == rest.len(),
    ensures
        render_line_with(first, rest.take(k + 1), ga.take(k + 1), gb.take(k + 1)) =~= render_line_with(
            first,
            rest.take(k),
            ga.take(k),
            gb.take(k),
        ) + ga[k] + seq![op_char(rest[k].0)] + gb[k] + render_num(rest[k].1 as int),
{
    lemma_take_snoc(rest, k);
    lemma_take_snoc(ga, k);
    lemma_take_snoc(gb, k);
    assert(rest.take(k + 1).drop_last() == rest.take(k));
    assert(ga.take(k + 1).drop_last() == ga.take(k));
    assert(gb.take(k + 1).drop_last() == gb.take(k));
    assert(render_ops_with(rest.take(k + 1), ga.take(k + 1), gb.take(k + 1)) == render_ops_with(
        rest.take(k),
        ga.take(k),
        gb.take(k),
    ) + ga[k] + seq![op_char(rest[k].0)] + gb[k] + render_num(rest[k].1 as int));
}

proof fn lemma_render_line_prefix(
    first: u32,
    rest: Seq<(bool, u32)>,
    ga: Seq<Seq<char>>,
    gb: Seq<Seq<char>>,
    k: int,
)
    requires
        0 <= k <= rest.len(),
        ga.len() == rest.len(),
        gb.len() == rest.len(),
    ensures
        render_line_with(first, rest.take(k), ga.take(k), gb.take(k)).len() <= render_line_with(
            first,
            rest,
            ga,
            gb,
        ).len(),
        render_line_with(first, rest, ga, gb).take(
            render_line_with(first, rest.take(k), ga.take(k), gb.take(k)).len() as int,
        ) =~= render_line_with(first, rest.take(k), ga.take(k), gb.take(k)),
    decreases rest.len() - k,
{
    let s = render_line_with(first, rest, ga, gb);
    if k == rest.len() {
        assert(rest.take(k) =~= rest);
        assert(ga.take(k) =~= ga);
        assert(gb.take(k) =~= gb);
        assert(s.take(s.len() as int) =~= s);
    } else {
        lemma_render_line_prefix(first, rest, ga, gb, k + 1);
        lemma_render_line_snoc(first, rest, ga, gb, k);
        let rk = render_line_with(first, rest.take(k), ga.take(k), gb.take(k));
        let r1 = render_line_with(first, rest.take(k + 1), ga.take(k + 1), gb.take(k + 1));
        assert forall|t: int| 0 <= t < rk.len() implies s.take(rk.len() as int)[t] == rk[t] by {
            assert(s.take(r1.len() as int)[t] == r1[t]);
            assert(r1[t] == rk[t]);
        }
    }
}

proof fn lemma_fold_in_range_prefix(first: int, rest: Seq<(bool, u32)>, k: int)
    requires
        0 <= k <= rest.len(),
        fold_in_range(first, rest),
    ensures
        fold_in_range(first, rest.take(k)),
        0 <= fold_value(first, rest.take(k)) <= u32::MAX,
    decreases rest.len() - k,
{
    if k == rest.len() {
        assert(rest.take(k) =~= rest);
        if rest.len() > 0 {
            assert(0 <= fold_value(first, rest) <= u32::MAX);
        }
    } else {
        lemma_fold_in_range_prefix(first, rest, k + 1);
        lemma_take_snoc(rest, k);
        assert(rest.take(k + 1).drop_last() == rest.take(k));
        assert(fold_in_range(first, rest.take(k)));
        if rest.take(k).len() > 0 {
            assert(0 <= fold_value(first, rest.take(k)) <= u32::MAX);
        }
    }
}

#[verifier::rlimit(100)]
proof fn lemma_fold_loop(
    first: u32,
    rest: Seq<(bool, u32)>,
    ga: Seq<Seq<char>>,
    gb: Seq<Seq<char>>,
    k: int,
)
    requires
        0 <= k <= rest.len(),
        ga.len() == rest.len(),
        gb.len() == rest.len(),
        ws_gaps(ga),
        ws_gaps(gb),
        fold_in_range(first as int, rest),
    ensures
        eval_loop(
            render_line_with(first, rest, ga, gb),
            render_line_with(first, rest.take(k), ga.take(k), gb.take(k)).len() as int,
            fold_value(first as int, rest.take(k)) as u32,
        ) == Ok::<u32, EvalErr>(fold_value(first as int, rest) as u32),
    decreases rest.len() - k,
{
    let s = render_line_with(first, rest, ga, gb);
    lemma_fold_in_range_prefix(first as int, rest, k);
    let acc = fold_value(first as int, rest.take(k));
    if k == rest.len() {
        assert(rest.take(k) =~= rest);
        assert(ga.take(k) =~= ga);
        assert(gb.take(k) =~= gb);
        assert(render_line_with(first, rest.take(k), ga.take(k), gb.take(k)).len() == s.len());
        assert(skip_ws(s, s.len() as int) == s.len() as int);
        assert(eval_loop(s, s.len() as int, acc as u32) == Ok::<u32, EvalErr>(acc as u32));
    } else {
        lemma_render_line_prefix(first, rest, ga, gb, k);
        lemma_render_line_prefix(first, rest, ga, gb, k + 1);
        lemma_render_line_snoc(first, rest, ga, gb, k);
        let rk = render_line_with(first, rest.take(k), ga.take(k), gb.take(k));
        let r1 = render_line_with(first, rest.take(k + 1), ga.take(k + 1), gb.take(k + 1));
        let lk = rk.len() as int;
        let l1 = r1.len() as int;
        let plus = rest[k].0;
        let v = rest[k].1;
        let a = ga[k].len() as int;
        let b = gb[k].len() as int;
        let num = render_num(v as int);
        lemma_render_num_digits(v as int);
        assert(all_space(ga[k]));
        assert(all_space(gb[k]));
        assert(l1 == lk + a + 1 + b + num.len());
        let dstart = lk + a + 1 + b;
        // the text of the step: whitespace, the operator, whitespace,
        // then the digits
        assert forall|t: int| lk <= t < l1 implies #[trigger] s[t] == r1[t] by {
            assert(s.take(l1)[t] == r1[t]);
        }
        assert(s[lk + a] == op_char(plus)) by {
            assert(r1[lk + a] == op_char(plus));
        }
        // the operator is scanned as one token
        lemma_digit_classes(s[lk + a]);
        assert forall|t: int| lk <= t < lk + a implies is_space(#[trigger] s[t]) by {
            assert(r1[t] == ga[k][t - lk]);
            assert(is_space(ga[k][t - lk]));
        }
        lemma_skip_ws_run(s, lk, lk + a);
        assert(scan(s, lk) == (if plus {
            ScanResult::Plus { next: lk + a + 1 }
        } else {
            ScanResult::Minus { next: lk + a + 1 }
        }));
        // the digits are scanned as one number token
        assert forall|t: int| dstart <= t < l1 implies #[trigger] s[t] == num[t - dstart] by {
            assert(r1[t] == num[t - dstart]);
        }
        assert forall|t: int| dstart <= t < l1 implies is_digit(#[trigger] s[t]) by {
            assert(s[t] == num[t - dstart]);
            assert(is_digit(num[t - dstart]));
        }
        assert forall|t: int| lk + a + 1 <= t < dstart implies is_space(#[trigger] s[t]) by {
            assert(r1[t] == gb[k][t - lk - a - 1]);
            assert(is_space(gb[k][t - lk - a - 1]));
        }
        assert(is_digit(s[dstart]));
        lemma_digit_classes(s[dstart]);
        lemma_skip_ws_run(s, lk + a + 1, dstart);
        if l1 < s.len() {
            assert(k + 1 < rest.len()) by {
                if k + 1 == rest.len() {
                    assert(rest.take(k + 1) =~= rest);
                    assert(ga.take(k + 1) =~= ga);
                    assert(gb.take(k + 1) =~= gb);
                }
            }
            lemma_render_line_snoc(first, rest, ga, gb, k + 1);
            lemma_render_line_prefix(first, rest, ga, gb, k + 2);
            let r2 = render_line_with(first, rest.take(k + 2), ga.take(k + 2), gb.take(k + 2));
            let a2 = ga[k + 1].len() as int;
            assert(all_space(ga[k + 1]));
            // whatever follows the digits opens the next step: whitespace
            // or an operator, neither of them a digit
            assert forall|t: int| l1 <= t < l1 + a2 implies #[trigger] s[t] == ga[k + 1][t - l1]
                by {
                assert(s.take(r2.len() as int)[t] == r2[t]);
                assert(r2[t] == ga[k + 1][t - l1]);
            }
            assert(s[l1 + a2] == op_char(rest[k + 1].0)) by {
                assert(s.take(r2.len() as int)[l1 + a2] == r2[l1 + a2]);
                assert(r2[l1 + a2] == op_char(rest[k + 1].0));
            }
            lemma_digit_classes(s[l1 + a2]);
            if a2 > 0 {
                assert(is_space(s[l1])) by {
                    assert(s[l1] == ga[k + 1][0]);
                }
                lemma_digit_classes(s[l1]);
                assert(!is_digit(s[l1]));
            } else {
                assert(!is_digit(s[l1]));
            }
            crate::text::lemma_digits_end_run(s, dstart, l1);
            // the scan after the term stops at the next operator
            assert forall|t: int| l1 <= t < l1 + a2 implies is_space(#[trigger] s[t]) by {
                assert(s[t] == ga[k + 1][t - l1]);
                assert(is_space(ga[k + 1][t - l1]));
            }
            lemma_skip_ws_run(s, l1, l1 + a2);
            assert(!(scan(s, l1) matches ScanResult::Invalid { .. }));
        } else {
            assert(l1 == s.len()) by {
                lemma_render_line_prefix(first, rest, ga, gb, k + 1);
            }
            crate::text::lemma_digits_end_run(s, dstart, l1);
            assert(skip_ws(s, l1) == l1);
            assert(scan(s, l1) matches ScanResult::End { .. });
        }
        let digits = s.subrange(dstart, l1);
        assert(digits =~= num);
        assert(scan(s, lk + a + 1) == (ScanResult::Number { digits: num, next: l1 }));
        // one fold step
        lemma_take_snoc(rest, k);
        assert(rest.take(k + 1).drop_last() == rest.take(k));
        let acc1 = fold_value(first as int, rest.take(k + 1));
        assert(acc1 == (if plus {
            acc + v
        } else {
            acc - v
        }));
        lemma_fold_in_range_prefix(first as int, rest, k + 1);
        lemma_fold_loop(first, rest, ga, gb, k + 1);
        assert(eval_loop(s, lk, acc as u32) == eval_loop(s, l1, acc1 as u32));
    }
}

/// The headline law, with whitespace allowed anywhere between tokens: a
/// well-formed expression, written as non-negative integers combined
/// left-to-right with `+` and `-`, evaluates to its exact left-to-right
/// fold whenever every intermediate result stays within the
/// representable range. The whitespace segments change nothing.
#[verifier::rlimit(100)]
pub proof fn theorem_left_fold_spaced(
    first: u32,
    rest: Seq<(bool, u32)>,
    ga: Seq<Seq<char>>,
    gb: Seq<Seq<char>>,
)
    requires
        ga.len() == rest.len(),
        gb.len() == rest.len(),
        ws_gaps(ga),
        ws_gaps(gb),
        fold_in_range(first as int, rest),
    ensures
        eval_view(render_line_with(first, rest, ga, gb)) == Ok::<u32, EvalErr>(
            fold_value(first as int, rest) as u32,
        ),
{
    let s = render_line_with(first, rest, ga, gb);
    let num0 = render_num(first as int);
    lemma_render_num_digits(first as int);
    // the rendered text starts and ends with a digit, so trimming
    // leaves it unchanged
    assert(s.len() > 0);
    assert(s[0] == num0[0]);
    assert(is_digit(s[0]));
    lemma_digit_classes(s[0]);
    assert(s.last() == s[s.len() - 1]);
    if rest.len() == 0 {
        assert(render_ops_with(rest, ga, gb) == Seq::<char>::empty());
        assert(s =~= num0);
        assert(s.last() == num0.last());
    } else {
        let numl = render_num(rest.last().1 as int);
        lemma_render_num_digits(rest.last().1 as int);
        assert(s.last() == numl.last());
    }
    lemma_digit_classes(s.last());
    lemma_trim_of_parts(Seq::empty(), s, Seq::empty());
    assert(Seq::<char>::empty() + s + Seq::<char>::empty() =~= s);
    assert(trim_view(s) == s);
    // the first number is scanned as the first token
    lemma_skip_ws_run(s, 0, 0);
    let l0 = render_line_with(first, rest.take(0), ga.take(0), gb.take(0)).len() as int;
    assert(render_ops_with(rest.take(0), ga.take(0), gb.take(0)) == Seq::<char>::empty()) by {
        assert(rest.take(0).len() == 0);
    }
    assert(render_line_with(first, rest.take(0), ga.take(0), gb.take(0)) =~= num0);
    assert(l0 == num0.len());
    assert forall|t: int| 0 <= t < l0 implies is_digit(#[trigger] s[t]) by {
        assert(s[t] == num0[t]);
    }
    if l0 < s.len() {
        assert(rest.len() > 0) by {
            if rest.len() == 0 {
                assert(render_ops_with(rest, ga, gb) == Seq::<char>::empty());
                assert(s =~= num0);
            }
        }
        lemma_render_line_snoc(first, rest, ga, gb, 0);
        lemma_render_line_prefix(first, rest, ga, gb, 1);
        let r1 = render_line_with(first, rest.take(1), ga.take(1), gb.take(1));
        let a0 = ga[0].len() as int;
        assert(all_space(ga[0]));
        if a0 > 0 {
            assert(s[l0] == ga[0][0]) by {
                assert(s.take(r1.len() as int)[l0] == r1[l0]);
                assert(r1[l0] == ga[0][0]);
            }
            assert(is_space(s[l0]));
            lemma_digit_classes(s[l0]);
            assert(!is_digit(s[l0]));
        } else {
            assert(s[l0] == op_char(rest[0].0)) by {
                assert(s.take(r1.len() as int)[l0] == r1[l0]);
                assert(r1[l0] == op_char(rest[0].0));
            }
            lemma_digit_classes(s[l0]);
        }
    } else {
        lemma_render_line_prefix(first, rest, ga, gb, 0);
    }
    crate::text::lemma_digits_end_run(s, 0, l0);
    assert(s.subrange(0, l0) =~= num0);
    assert(scan(s, 0) == (ScanResult::Number { digits: num0, next: l0 }));
    lemma_fold_loop(first, rest, ga, gb, 0);
}

/// The headline law on the plain rendering, with no whitespace at all.
pub proof fn theorem_left_fold(first: u32, rest: Seq<(bool, u32)>)
    requires
        fold_in_range(first as int, rest),
    ensures
        eval_view(render_line(first, rest)) == Ok::<u32, EvalErr>(
            fold_value(first as int, rest) as u32,
        ),
{
    let e = Seq::new(rest.len(), |i: int| Seq::<char>::empty());
    lemma_render_ops_plain(rest);
    assert(render_line_with(first, rest, e, e) == render_line(first, rest));
    theorem_left_fold_spaced(first, rest, e, e);
}

/// Evaluation is a function of the text alone: two results that both
/// meet the evaluator's contract for the same line agree, in value and
/// in error, so re-evaluating a line can never answer differently.
pub proof fn lemma_evaluate_deterministic(
    r1: Result<u32, ParseError>,
    r2: Result<u32, ParseError>,
    text: Seq<char>,
)
    requires
        eval_matches(r1, eval_view(text)),
        eval_matches(r2, eval_view(text)),
    ensures
        r1 matches Ok(a) ==> (r2 matches Ok(b) && a == b),
        r1 matches Err(e1) ==> (r2 matches Err(e2) && e1@ == e2@),
{
}

} // verus!
