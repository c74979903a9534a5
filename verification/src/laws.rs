//! Laws that say what the operations are for, stated with definitions of
//! their own: how integer and float literals, operators and names read;
//! which factor each SI postfix stands for and how the unit names convert;
//! how the parser groups operators, signs, calls, assignments and units;
//! what integer arithmetic computes; how parameters of user functions are
//! replaced; how the editing, history and Enter keys behave and which
//! parentheses match; and what the `format`, `debug`, `history` and
//! `history_max` commands set and write.
use vstd::prelude::*;

use crate::env::Scope;
use crate::units::unit_conversion_spec;
use crate::env::{
    debug_arg, key_lines, format_arg, format_args, formatted_num, history_lines, history_max_arg, history_pick, grouped, lemma_grouped_unseparated, other_than, radix_prefix, FloatFormat,
    OutputSettings,
};
use crate::strings::radix_digits;
use crate::call::{expand_prefix, param_index};
use crate::arith::{exponent_bits, int_abs, int_pow, int_result, trunc_div, trunc_rem};
use vstd::arithmetic::div_mod::lemma_fundamental_div_mod;
use crate::roundtrip::lemma_radix_digits_chars;
use vstd::arithmetic::div_mod::{lemma_mod_add_multiples_vanish, lemma_small_mod};
use crate::strings::int_text;
use crate::readline::{
    byte_len, byte_pos, char_at_byte, contains_text, match_paren, scan_close, scan_open, editable, key_step_spec, ActionView,
    EdState, Key,
};
use crate::parser::{
    p_assign, p_exp, p_expr, p_expr_loop, p_func_loop, p_mul, p_mul_loop, p_num, p_postfix, p_primary, p_unary,
    p_units, p_units_loop, spec_parse,
    LiteralView, NodeView, ScaledView, SiPrefix,
};
use crate::lexer::{
    count_in, digit_value, digits_end, exp_start, hex_run, ident_end, is_dec_digit, is_exp_mark, is_float_literal,
    is_float_mantissa, is_sign, is_hex_char, lex_from, num_scan, parse_digits, parse_digits_prefix, radix_literal,
    spec_lexer, spec_tok_num, spec_tok_num_int, TokenOp, TokenView,
};
use crate::ErrorView;

verus! {

// ----------------------------------------------------------------------
// Integer literals
/// The value of a digit character: `0`-`9`, then `a`-`f` or `A`-`F` for ten
/// to fifteen.
pub open spec fn digit_of(c: char) -> Option<int> {
    if '0' <= c && c <= '9' {
        Some(c as int - '0' as int)
    } else if 'a' <= c && c <= 'f' {
        Some(c as int - 'a' as int + 10)
    } else if 'A' <= c && c <= 'F' {
        Some(c as int - 'A' as int + 10)
    } else {
        None
    }
}

/// `c` is a digit below `r`.
pub open spec fn digit_below(c: char, r: int) -> bool {
    match digit_of(c) {
        Some(v) => v < r,
        None => false,
    }
}

/// Every character of `d` is a digit below `r`.
pub open spec fn all_digits(d: Seq<char>, r: int) -> bool {
    forall|i: int| 0 <= i < d.len() ==> #[trigger] digit_below(d[i], r)
}

/// The number the digits `d` write in base `r`.
pub open spec fn value_in(d: Seq<char>, r: int) -> int
    decreases d.len(),
{
    if d.len() == 0 {
        0
    } else {
        value_in(d.drop_last(), r) * r + digit_of(d.last()).unwrap()
    }
}

proof fn lemma_value_grows(d: Seq<char>, r: int, k: int)
    requires
        2 <= r,
        all_digits(d, r),
        0 <= k <= d.len(),
    ensures
        0 <= value_in(d.take(k), r) <= value_in(d, r),
    decreases d.len() - k,
{
    if k < d.len() {
        lemma_value_grows(d, r, k + 1);
        let t = d.take(k + 1);
        assert(t.drop_last() =~= d.take(k));
        assert(digit_below(t.last(), r)) by {
            assert(t.last() == d[k]);
        }
        let v = value_in(d.take(k), r);
        lemma_value_nonneg(d.take(k), r);
        assert(v * r >= v) by (nonlinear_arith)
            requires
                v >= 0,
                r >= 2,
        ;
    } else {
        assert(d.take(k) =~= d);
        lemma_value_nonneg(d, r);
    }
}

proof fn lemma_value_nonneg(d: Seq<char>, r: int)
    requires
        2 <= r,
        all_digits(d, r),
    ensures
        value_in(d, r) >= 0,
    decreases d.len(),
{
    if d.len() > 0 {
        let e = d.drop_last();
        assert forall|i: int| 0 <= i < e.len() implies #[trigger] digit_below(e[i], r) by {
            assert(e[i] == d[i]);
        }
        lemma_value_nonneg(e, r);
        assert(digit_below(d.last(), r)) by {
            assert(d.last() == d[d.len() - 1]);
        }
        let v = value_in(e, r);
        assert(v * r >= 0) by (nonlinear_arith)
            requires
                v >= 0,
                r >= 2,
        ;
    }
}

/// The lexer's digit values agree with `digit_of` on digits below the radix.
proof fn lemma_digit_value(c: char, r: int)
    requires
        2 <= r <= 16,
        digit_below(c, r),
    ensures
        digit_value(c, r) == digit_of(c),
        is_hex_char(c),
{
}

/// Reading `0` and the digits `d` in radix `r`, digit by digit.
proof fn lemma_parse_zero_digits(d: Seq<char>, r: int, n: nat)
    requires
        2 <= r <= 16,
        all_digits(d, r),
        n <= d.len(),
        value_in(d, r) <= i128::MAX,
    ensures
        parse_digits_prefix(seq!['0'] + d, r, n + 1) == Ok::<int, crate::IntErrorKind>(
            value_in(d.take(n as int), r),
        ),
    decreases n,
{
    let s = seq!['0'] + d;
    if n == 0 {
        assert(s[0] == '0');
        assert(parse_digits_prefix(s, r, 0) == Ok::<int, crate::IntErrorKind>(0));
        assert(digit_value('0', r) == Some(0int));
        assert(0 * r + 0 == 0) by (nonlinear_arith);
        reveal_with_fuel(parse_digits_prefix, 2);
        assert(parse_digits_prefix(s, r, 1) == Ok::<int, crate::IntErrorKind>(0));
        assert(d.take(0) =~= Seq::<char>::empty());
    } else {
        lemma_parse_zero_digits(d, r, (n - 1) as nat);
        let t = d.take(n as int);
        assert(t.drop_last() =~= d.take(n - 1));
        assert(s[n as int] == d[n - 1]);
        assert(t.last() == d[n - 1]);
        assert(digit_below(d[n - 1], r));
        lemma_digit_value(d[n - 1], r);
        lemma_value_grows(d, r, n as int);
        let v = value_in(d.take(n - 1), r);
        let dg = digit_of(d[n - 1]).unwrap();
        assert(value_in(t, r) == v * r + dg);
        assert(parse_digits_prefix(s, r, n) == Ok::<int, crate::IntErrorKind>(v));
        assert(digit_value(s[n as int], r) == Some(dg));
        assert(v * r + dg <= i128::MAX);
        assert(parse_digits_prefix(s, r, (n + 1) as nat) == Ok::<int, crate::IntErrorKind>(v * r + dg));
    }
}

/// The hexadecimal run from `j` on, when every character from `j` on is a
/// digit.
proof fn lemma_run_to_end(chars: Seq<char>, j: int, mant: Seq<char>, err: Seq<char>, r: int)
    requires
        2 <= r <= 16,
        0 <= j <= chars.len(),
        forall|i: int| j <= i < chars.len() ==> #[trigger] digit_below(chars[i], r),
    ensures
        hex_run(chars, j, mant, err) == (
            mant + chars.skip(j),
            err + chars.skip(j),
            chars.len() as int,
        ),
    decreases chars.len() - j,
{
    if j < chars.len() {
        lemma_digit_value(chars[j], r);
        lemma_run_to_end(chars, j + 1, mant.push(chars[j]), err.push(chars[j]), r);
        assert(mant.push(chars[j]) + chars.skip(j + 1) =~= mant + chars.skip(j));
        assert(err.push(chars[j]) + chars.skip(j + 1) =~= err + chars.skip(j));
    } else {
        assert(mant + chars.skip(j) =~= mant);
        assert(err + chars.skip(j) =~= err);
    }
}

proof fn lemma_literal(p: Seq<char>, d: Seq<char>, r: int)
    requires
        2 <= r <= 16,
        p.len() >= 1,
        p[0] == '0',
        all_digits(d, r),
        value_in(d, r) <= i128::MAX,
    ensures
        parse_digits(seq!['0'] + d, r) == Ok::<int, crate::IntErrorKind>(value_in(d, r)),
        hex_run(p + d, p.len() as int, seq!['0'], p) == (seq!['0'] + d, p + d, (p + d).len() as int),
{
    let chars = p + d;
    assert forall|i: int| p.len() <= i < chars.len() implies #[trigger] digit_below(chars[i], r) by {
        assert(chars[i] == d[i - p.len()]);
    }
    lemma_run_to_end(chars, p.len() as int, seq!['0'], p, r);
    assert(chars.skip(p.len() as int) =~= d);
    lemma_parse_zero_digits(d, r, d.len());
    assert(d.take(d.len() as int) =~= d);
}

/// A hexadecimal literal reads as its value, its digits in either case:
/// `0x` and the digits `d` lex as one number, the base-16 value of `d`.
pub proof fn law_hex_literal(d: Seq<char>)
    requires
        d.len() > 0,
        all_digits(d, 16),
        value_in(d, 16) <= i128::MAX,
    ensures
        spec_lexer(seq!['0', 'x'] + d) == Ok::<Seq<TokenView>, crate::ErrorView>(
            seq![TokenView::Num(value_in(d, 16) as i128)],
        ),
{
    let p = seq!['0', 'x'];
    lemma_literal(p, d, 16);
    let chars = p + d;
    assert(chars[0] == '0');
    assert(chars[1] == 'x');
    let v = value_in(d, 16);
    assert(seq!['0', chars[1]] == p);
    assert(radix_literal(chars, 16, 2, p) == Ok::<(TokenView, int), crate::ErrorView>(
        (TokenView::Num(v as i128), chars.len() as int),
    ));
    assert(spec_tok_num_int(chars, 1) == radix_literal(chars, 16, 2, p));
    assert(spec_tok_num(chars, 0) == spec_tok_num_int(chars, 1));
    assert(lex_from(chars, chars.len() as int, seq![TokenView::Num(v as i128)]) == Ok::<
        Seq<TokenView>,
        crate::ErrorView,
    >(seq![TokenView::Num(v as i128)]));
    assert(seq![TokenView::Num(v as i128)] =~= Seq::<TokenView>::empty().push(TokenView::Num(v as i128)));
}

/// A binary literal reads as its value: `0b` and the digits `d` lex as one
/// number, the base-2 value of `d`.
pub proof fn law_binary_literal(d: Seq<char>)
    requires
        d.len() > 0,
        all_digits(d, 2),
        value_in(d, 2) <= i128::MAX,
    ensures
        spec_lexer(seq!['0', 'b'] + d) == Ok::<Seq<TokenView>, crate::ErrorView>(
            seq![TokenView::Num(value_in(d, 2) as i128)],
        ),
{
    let p = seq!['0', 'b'];
    lemma_literal(p, d, 2);
    let chars = p + d;
    assert(chars[0] == '0');
    assert(chars[1] == 'b');
    let v = value_in(d, 2);
    assert(seq!['0', chars[1]] == p);
    assert(radix_literal(chars, 2, 2, p) == Ok::<(TokenView, int), crate::ErrorView>(
        (TokenView::Num(v as i128), chars.len() as int),
    ));
    assert(spec_tok_num_int(chars, 1) == radix_literal(chars, 2, 2, p));
    assert(spec_tok_num(chars, 0) == spec_tok_num_int(chars, 1));
    assert(lex_from(chars, chars.len() as int, seq![TokenView::Num(v as i128)]) == Ok::<
        Seq<TokenView>,
        crate::ErrorView,
    >(seq![TokenView::Num(v as i128)]));
    assert(seq![TokenView::Num(v as i128)] =~= Seq::<TokenView>::empty().push(TokenView::Num(v as i128)));
}

/// An octal literal reads as its value: `0` and the octal digits `d` lex as
/// one number, the base-8 value of `d`.
pub proof fn law_octal_literal(d: Seq<char>)
    requires
        d.len() > 0,
        all_digits(d, 8),
        value_in(d, 8) <= i128::MAX,
    ensures
        spec_lexer(seq!['0'] + d) == Ok::<Seq<TokenView>, crate::ErrorView>(
            seq![TokenView::Num(value_in(d, 8) as i128)],
        ),
{
    let p = seq!['0'];
    let chars = p + d;
    assert(chars[0] == '0');
    assert(chars[1] == d[0]);
    lemma_digit_value(d[0], 8);
    assert(chars.take(1) =~= p);
    lemma_literal(p, d, 8);
    let v = value_in(d, 8);
    assert(digit_below(d[0], 8));
    assert('0' <= d[0] && d[0] <= '7');
    assert(radix_literal(chars, 8, 1, p) == Ok::<(TokenView, int), crate::ErrorView>(
        (TokenView::Num(v as i128), chars.len() as int),
    ));
    assert(spec_tok_num_int(chars, 1) == radix_literal(chars, 8, 1, p));
    assert(spec_tok_num(chars, 0) == spec_tok_num_int(chars, 1));
    assert(lex_from(chars, chars.len() as int, seq![TokenView::Num(v as i128)]) == Ok::<
        Seq<TokenView>,
        crate::ErrorView,
    >(seq![TokenView::Num(v as i128)]));
    assert(seq![TokenView::Num(v as i128)] =~= Seq::<TokenView>::empty().push(TokenView::Num(v as i128)));
}

/// Reading the digits `d` in radix `r`, digit by digit.
proof fn lemma_parse_digits_plain(d: Seq<char>, r: int, n: nat)
    requires
        2 <= r <= 16,
        all_digits(d, r),
        n <= d.len(),
        value_in(d, r) <= i128::MAX,
    ensures
        parse_digits_prefix(d, r, n) == Ok::<int, crate::IntErrorKind>(value_in(d.take(n as int), r)),
    decreases n,
{
    if n == 0 {
        assert(d.take(0) =~= Seq::<char>::empty());
    } else {
        lemma_parse_digits_plain(d, r, (n - 1) as nat);
        let t = d.take(n as int);
        assert(t.drop_last() =~= d.take(n - 1));
        assert(t.last() == d[n - 1]);
        assert(digit_below(d[n - 1], r));
        lemma_digit_value(d[n - 1], r);
        lemma_value_grows(d, r, n as int);
        let v = value_in(d.take(n - 1), r);
        let dg = digit_of(d[n - 1]).unwrap();
        assert(value_in(t, r) == v * r + dg);
        assert(digit_value(d[n - 1], r) == Some(dg));
    }
}

proof fn lemma_scan_digits(chars: Seq<char>, j: int, mant: Seq<char>)
    requires
        0 <= j <= chars.len(),
        forall|i: int| j <= i < chars.len() ==> #[trigger] digit_below(chars[i], 10),
    ensures
        num_scan(chars, j, mant, false) == (
            mant + chars.skip(j),
            Seq::<char>::empty(),
            false,
            false,
            chars.len() as int,
        ),
    decreases chars.len() - j,
{
    if j < chars.len() {
        assert(digit_below(chars[j], 10));
        lemma_scan_digits(chars, j + 1, mant.push(chars[j]));
        assert(mant.push(chars[j]) + chars.skip(j + 1) =~= mant + chars.skip(j));
    } else {
        assert(mant + chars.skip(j) =~= mant);
    }
}

/// A decimal literal reads as its value: digits that do not start with `0`
/// lex as one number, their base-10 value.
pub proof fn law_decimal_literal(d: Seq<char>)
    requires
        d.len() > 0,
        all_digits(d, 10),
        d[0] != '0',
        value_in(d, 10) <= i128::MAX,
    ensures
        spec_lexer(d) == Ok::<Seq<TokenView>, crate::ErrorView>(
            seq![TokenView::Num(value_in(d, 10) as i128)],
        ),
{
    lemma_scan_digits(d, 0, Seq::empty());
    assert(Seq::<char>::empty() + d.skip(0) =~= d);
    lemma_parse_digits_plain(d, 10, d.len());
    assert(d.take(d.len() as int) =~= d);
    assert(digit_below(d[0], 10));
    let v = value_in(d, 10);
    assert(spec_tok_num(d, 0) == Ok::<(TokenView, int), crate::ErrorView>(
        (TokenView::Num(v as i128), d.len() as int),
    ));
    assert(lex_from(d, d.len() as int, seq![TokenView::Num(v as i128)]) == Ok::<
        Seq<TokenView>,
        crate::ErrorView,
    >(seq![TokenView::Num(v as i128)]));
    assert(seq![TokenView::Num(v as i128)] =~= Seq::<TokenView>::empty().push(TokenView::Num(v as i128)));
}

// ----------------------------------------------------------------------
// Float literals
/// Every character of `d` is one of `0`-`9`.
pub open spec fn dec_only(d: Seq<char>) -> bool {
    forall|k: int| 0 <= k < d.len() ==> '0' <= #[trigger] d[k] && d[k] <= '9'
}

proof fn lemma_scan_run_to(chars: Seq<char>, j: int, p: int, mant: Seq<char>, hd: bool)
    requires
        0 <= j <= p <= chars.len(),
        forall|k: int| j <= k < p ==> '0' <= #[trigger] chars[k] && chars[k] <= '9',
    ensures
        num_scan(chars, j, mant, hd) == num_scan(chars, p, mant + chars.subrange(j, p), hd),
    decreases p - j,
{
    if j == p {
        assert(mant + chars.subrange(j, p) =~= mant);
    } else {
        lemma_scan_run_to(chars, j + 1, p, mant.push(chars[j]), hd);
        assert(mant.push(chars[j]) + chars.subrange(j + 1, p) =~= mant + chars.subrange(j, p));
    }
}

proof fn lemma_count_concat(a: Seq<char>, b: Seq<char>, c: char)
    ensures
        count_in(a + b, c) == count_in(a, c) + count_in(b, c),
    decreases b.len(),
{
    if b.len() == 0 {
        assert(a + b =~= a);
    } else {
        lemma_count_concat(a, b.drop_last(), c);
        assert((a + b).drop_last() =~= a + b.drop_last());
        assert((a + b).last() == b.last());
    }
}

proof fn lemma_count_none(a: Seq<char>)
    requires
        dec_only(a),
    ensures
        count_in(a, '.') == 0,
    decreases a.len(),
{
    if a.len() > 0 {
        assert(dec_only(a.drop_last()));
        lemma_count_none(a.drop_last());
        assert(a.last() == a[a.len() - 1]);
    }
}

proof fn lemma_exp_start_at(t: Seq<char>, j: int, q: int)
    requires
        0 <= j <= q <= t.len(),
        forall|k: int| j <= k < q ==> !is_exp_mark(#[trigger] t[k]),
        q == t.len() || is_exp_mark(t[q]),
    ensures
        exp_start(t, j) == q,
    decreases q - j,
{
    if j < q {
        lemma_exp_start_at(t, j + 1, q);
    }
}

/// `m1 . m2` as a mantissa: what `is_float_literal` asks of the part before
/// the exponent.
proof fn lemma_mantissa(m1: Seq<char>, m2: Seq<char>)
    requires
        dec_only(m1),
        dec_only(m2),
        m1.len() >= 1,
    ensures
        is_float_mantissa(m1 + seq!['.'] + m2),
{
    let m = m1 + seq!['.'] + m2;
    lemma_count_none(m1);
    lemma_count_none(m2);
    reveal_with_fuel(count_in, 2);
    assert(seq!['.'].drop_last() =~= Seq::<char>::empty());
    lemma_count_concat(m1, seq!['.'], '.');
    lemma_count_concat(m1 + seq!['.'], m2, '.');
    assert forall|k: int| 0 <= k < m.len() implies is_dec_digit(#[trigger] m[k]) || m[k] == '.' by {
        if k < m1.len() {
            assert(m[k] == m1[k]);
        } else if k > m1.len() {
            assert(m[k] == m2[k - m1.len() - 1]);
        }
    }
}

/// A decimal float reads as one float token with its text: digits, `.`,
/// digits (the first digit not `0`), and optionally an exponent, `e` or `E`
/// (which reads as `e`), an optional `-` and digits.
pub proof fn law_float_literal(m1: Seq<char>, m2: Seq<char>, x: Seq<char>)
    requires
        m1.len() >= 1,
        m1[0] != '0',
        m2.len() >= 1,
        x.len() >= 1,
        dec_only(m1),
        dec_only(m2),
        dec_only(x),
    ensures
        ({
            let m = m1 + seq!['.'] + m2;
            &&& spec_lexer(m) == Ok::<Seq<TokenView>, ErrorView>(seq![TokenView::FNum(m)])
            &&& spec_lexer(m + seq!['e'] + x) == Ok::<Seq<TokenView>, ErrorView>(
                seq![TokenView::FNum(m + seq!['e'] + x)],
            )
            &&& spec_lexer(m + seq!['E'] + x) == Ok::<Seq<TokenView>, ErrorView>(
                seq![TokenView::FNum(m + seq!['e'] + x)],
            )
            &&& spec_lexer(m + seq!['e', '-'] + x) == Ok::<Seq<TokenView>, ErrorView>(
                seq![TokenView::FNum(m + seq!['e', '-'] + x)],
            )
        }),
{
    let m = m1 + seq!['.'] + m2;
    let l1 = m1.len() as int;
    let q = m.len() as int;
    lemma_mantissa(m1, m2);
    assert forall|k: int| 0 <= k < q implies !is_exp_mark(#[trigger] m[k]) && (m[k] != '.' ==> '0' <= m[k]
        && m[k] <= '9') by {
        if k < l1 {
            assert(m[k] == m1[k]);
        } else if k > l1 {
            assert(m[k] == m2[k - l1 - 1]);
        }
    }
    assert(m.subrange(0, l1) =~= m1);
    assert(m[l1] == '.');
    lemma_float_form(m1, m2, Seq::empty(), m, 'e');
    lemma_float_form(m1, m2, x, m + seq!['e'] + x, 'e');
    lemma_float_form(m1, m2, x, m + seq!['E'] + x, 'E');
    assert(m + seq!['e'] + (seq!['-'] + x) =~= m + seq!['e', '-'] + x);
    lemma_float_form(m1, m2, seq!['-'] + x, m + seq!['e', '-'] + x, 'e');
}

/// The lexing of one float form: `m1 . m2`, then (when `ex` is not empty)
/// the mark `mark` and the exponent digits `ex`, perhaps after a `-`.
proof fn lemma_float_form(m1: Seq<char>, m2: Seq<char>, ex: Seq<char>, chars: Seq<char>, mark: char)
    requires
        m1.len() >= 1,
        m1[0] != '0',
        m2.len() >= 1,
        dec_only(m1),
        dec_only(m2),
        is_exp_mark(mark),
        ex.len() == 0 ==> chars == m1 + seq!['.'] + m2,
        ex.len() > 0 ==> chars == m1 + seq!['.'] + m2 + seq![mark] + ex,
        ex.len() > 0 ==> (ex[0] == '-' || ('0' <= ex[0] && ex[0] <= '9')),
        ex.len() > 0 ==> forall|k: int| 1 <= k < ex.len() ==> '0' <= #[trigger] ex[k] && ex[k] <= '9',
        ex.len() > 0 && ex[0] == '-' ==> ex.len() >= 2,
    ensures
        ({
            let m = m1 + seq!['.'] + m2;
            let text = if ex.len() == 0 {
                m
            } else {
                m + seq!['e'] + ex
            };
            spec_lexer(chars) == Ok::<Seq<TokenView>, ErrorView>(seq![TokenView::FNum(text)])
        }),
{
    let m = m1 + seq!['.'] + m2;
    let l1 = m1.len() as int;
    let q = m.len() as int;
    lemma_mantissa(m1, m2);
    assert forall|k: int| 0 <= k < q implies chars[k] == m[k] by {}
    assert forall|k: int| 0 <= k < l1 implies '0' <= #[trigger] chars[k] && chars[k] <= '9' by {
        assert(chars[k] == m1[k]);
    }
    assert forall|k: int| l1 + 1 <= k < q implies '0' <= #[trigger] chars[k] && chars[k] <= '9' by {
        assert(chars[k] == m2[k - l1 - 1]);
    }
    assert(chars[l1] == '.');
    lemma_scan_run_to(chars, 0, l1, Seq::empty(), false);
    assert(Seq::<char>::empty() + chars.subrange(0, l1) =~= m1);
    lemma_scan_run_to(chars, l1 + 1, q, m1.push('.'), true);
    assert(m1.push('.') + chars.subrange(l1 + 1, q) =~= m);
    let text = if ex.len() == 0 {
        m
    } else {
        m + seq!['e'] + ex
    };
    if ex.len() == 0 {
        assert(num_scan(chars, q, m, true) == (m, Seq::<char>::empty(), true, false, q));
        lemma_exp_start_at(m, 0, q);
        assert(m.subrange(0, q) =~= m);
    } else {
        assert(chars[q] == mark);
        assert(chars.len() == q + 1 + ex.len());
        assert(chars[q + 1] == ex[0]);
        lemma_digits_end_to(chars, q + 2);
        assert(chars.subrange(q + 1, chars.len() as int) =~= ex);
        assert(num_scan(chars, q, m, true) == (m, ex, true, true, chars.len() as int));
        assert(m.push('e') + ex =~= text);
        assert forall|k: int| 0 <= k < q implies !is_exp_mark(#[trigger] text[k]) by {
            assert(text[k] == m[k]);
            if k != l1 {
                if k < l1 {
                    assert(m[k] == m1[k]);
                } else {
                    assert(m[k] == m2[k - l1 - 1]);
                }
            }
        }
        assert(text[q] == 'e');
        lemma_exp_start_at(text, 0, q);
        assert(text.subrange(0, q) =~= m);
        let tail = text.subrange(q, text.len() as int);
        assert(tail =~= seq!['e'] + ex);
        assert(tail[1] == ex[0]);
        assert forall|k: int| (if is_sign(tail[1]) { 2int } else { 1int }) <= k < tail.len() implies is_dec_digit(
            #[trigger] tail[k],
        ) by {
            assert(tail[k] == ex[k - 1]);
        }
    }
    assert(text[0] == m1[0]);
    assert(is_float_literal(text));
    assert(spec_tok_num(chars, 0) == Ok::<(TokenView, int), ErrorView>((TokenView::FNum(text), chars.len() as int)));
    assert(chars[0] == m1[0]);
    reveal_with_fuel(lex_from, 2);
    assert(Seq::<TokenView>::empty().push(TokenView::FNum(text)) =~= seq![TokenView::FNum(text)]);
}

proof fn lemma_digits_end_to(chars: Seq<char>, j: int)
    requires
        0 <= j <= chars.len(),
        forall|k: int| j <= k < chars.len() ==> '0' <= #[trigger] chars[k] && chars[k] <= '9',
    ensures
        digits_end(chars, j) == chars.len(),
    decreases chars.len() - j,
{
    if j < chars.len() {
        lemma_digits_end_to(chars, j + 1);
    }
}

// ----------------------------------------------------------------------
// SI postfixes
/// A number `n` without units, with the SI prefix `p`.
pub open spec fn with_prefix(n: i128, p: SiPrefix) -> NodeView {
    NodeView::FNum(
        ScaledView { value: LiteralView::Int(n), prefix: p },
        Box::new(NodeView::Units(Box::new(NodeView::Empty))),
    )
}

/// Each SI postfix stands for its own factor: a number followed by `k` is
/// read as kilo (10^3), `M` mega (10^6), `G` giga (10^9), `T` tera (10^12),
/// `m` milli (10^-3), `u` micro (10^-6), `n` nano (10^-9), `p` pico
/// (10^-12); `i` or `j` make it imaginary; any other name is no postfix and
/// the number stands alone.
pub proof fn law_si_postfix(sc: Scope, vars: Seq<Seq<char>>, tok: Seq<TokenView>, i: int, n: i128)
    requires
        0 <= i,
        i + 1 < tok.len(),
        tok[i] == TokenView::Num(n),
        !(i + 2 < tok.len() && tok[i + 2] == TokenView::Op(TokenOp::SqBracketLeft)),
    ensures
        tok[i + 1] == TokenView::Ident("k"@) ==> p_num(sc, vars, tok, i) == (vars, Ok::<(NodeView, int), ErrorView>((with_prefix(n, SiPrefix::Kilo), i + 2))),
        tok[i + 1] == TokenView::Ident("M"@) ==> p_num(sc, vars, tok, i) == (vars, Ok::<(NodeView, int), ErrorView>((with_prefix(n, SiPrefix::Mega), i + 2))),
        tok[i + 1] == TokenView::Ident("G"@) ==> p_num(sc, vars, tok, i) == (vars, Ok::<(NodeView, int), ErrorView>((with_prefix(n, SiPrefix::Giga), i + 2))),
        tok[i + 1] == TokenView::Ident("T"@) ==> p_num(sc, vars, tok, i) == (vars, Ok::<(NodeView, int), ErrorView>((with_prefix(n, SiPrefix::Tera), i + 2))),
        tok[i + 1] == TokenView::Ident("m"@) ==> p_num(sc, vars, tok, i) == (vars, Ok::<(NodeView, int), ErrorView>((with_prefix(n, SiPrefix::Milli), i + 2))),
        tok[i + 1] == TokenView::Ident("u"@) ==> p_num(sc, vars, tok, i) == (vars, Ok::<(NodeView, int), ErrorView>((with_prefix(n, SiPrefix::Micro), i + 2))),
        tok[i + 1] == TokenView::Ident("n"@) ==> p_num(sc, vars, tok, i) == (vars, Ok::<(NodeView, int), ErrorView>((with_prefix(n, SiPrefix::Nano), i + 2))),
        tok[i + 1] == TokenView::Ident("p"@) ==> p_num(sc, vars, tok, i) == (vars, Ok::<(NodeView, int), ErrorView>((with_prefix(n, SiPrefix::Pico), i + 2))),
        tok[i + 1] == TokenView::Ident("i"@) || tok[i + 1] == TokenView::Ident("j"@) ==> p_num(sc, vars, tok, i) == (vars, Ok::<(NodeView, int), ErrorView>((
            NodeView::CNum(
                ScaledView { value: LiteralView::Int(n), prefix: SiPrefix::One },
                Box::new(NodeView::Units(Box::new(NodeView::Empty))),
            ),
            i + 2,
        ))),
        (tok[i + 1] matches TokenView::Ident(id) && id != "k"@ && id != "M"@ && id != "G"@ && id
            != "T"@ && id != "m"@ && id != "u"@ && id != "n"@ && id != "p"@ && id != "i"@ && id
            != "j"@) ==> p_num(sc, vars, tok, i) == (vars, Ok::<(NodeView, int), ErrorView>((
            NodeView::Num(n, Box::new(NodeView::Units(Box::new(NodeView::Empty)))),
            i + 1,
        ))),
{
    reveal_strlit("k");
    assert("k"@[0] == 'k');
    reveal_strlit("M");
    assert("M"@[0] == 'M');
    reveal_strlit("G");
    assert("G"@[0] == 'G');
    reveal_strlit("T");
    assert("T"@[0] == 'T');
    reveal_strlit("m");
    assert("m"@[0] == 'm');
    reveal_strlit("u");
    assert("u"@[0] == 'u');
    reveal_strlit("n");
    assert("n"@[0] == 'n');
    reveal_strlit("p");
    assert("p"@[0] == 'p');
    reveal_strlit("i");
    assert("i"@[0] == 'i');
    reveal_strlit("j");
    assert("j"@[0] == 'j');
}

/// A line that starts with a number which the number rule reads to its end
/// parses as that number.
proof fn lemma_number_line(sc: Scope, vars: Seq<Seq<char>>, tok: Seq<TokenView>, node: NodeView)
    requires
        tok.len() > 0,
        tok[0] is Num,
        p_num(sc, vars, tok, 0) == (vars, Ok::<(NodeView, int), ErrorView>((node, tok.len() as int))),
    ensures
        spec_parse(sc, vars, tok) == (vars, Ok::<NodeView, ErrorView>(node)),
{
    let ok = (vars, Ok::<(NodeView, int), ErrorView>((node, tok.len() as int)));
    assert(p_primary(sc, vars, tok, 0) == ok);
    assert(p_unary(sc, vars, tok, 0) == ok);
    assert(p_exp(sc, vars, tok, 0) == ok);
    assert(p_mul_loop(sc, vars, tok, node, tok.len() as int) == ok);
    assert(p_mul(sc, vars, tok, 0) == ok);
    assert(p_expr_loop(sc, vars, tok, node, tok.len() as int) == ok);
    assert(p_expr(sc, vars, tok, 0) == ok);
    assert(p_assign(sc, vars, tok, 0) == ok);
}

/// A line of a number and an SI postfix parses as the number with that
/// postfix's prefix: `1M` is one mega, `1k` one kilo, `1m` one milli, and
/// so on (see `law_si_postfix`).
pub proof fn law_si_postfix_line(sc: Scope, vars: Seq<Seq<char>>, n: i128, name: Seq<char>)
    ensures
        name == "k"@ ==> spec_parse(sc, vars, seq![TokenView::Num(n), TokenView::Ident(name)]) == (vars, Ok::<NodeView, ErrorView>(with_prefix(n, SiPrefix::Kilo))),
        name == "M"@ ==> spec_parse(sc, vars, seq![TokenView::Num(n), TokenView::Ident(name)]) == (vars, Ok::<NodeView, ErrorView>(with_prefix(n, SiPrefix::Mega))),
        name == "G"@ ==> spec_parse(sc, vars, seq![TokenView::Num(n), TokenView::Ident(name)]) == (vars, Ok::<NodeView, ErrorView>(with_prefix(n, SiPrefix::Giga))),
        name == "T"@ ==> spec_parse(sc, vars, seq![TokenView::Num(n), TokenView::Ident(name)]) == (vars, Ok::<NodeView, ErrorView>(with_prefix(n, SiPrefix::Tera))),
        name == "m"@ ==> spec_parse(sc, vars, seq![TokenView::Num(n), TokenView::Ident(name)]) == (vars, Ok::<NodeView, ErrorView>(with_prefix(n, SiPrefix::Milli))),
        name == "u"@ ==> spec_parse(sc, vars, seq![TokenView::Num(n), TokenView::Ident(name)]) == (vars, Ok::<NodeView, ErrorView>(with_prefix(n, SiPrefix::Micro))),
        name == "n"@ ==> spec_parse(sc, vars, seq![TokenView::Num(n), TokenView::Ident(name)]) == (vars, Ok::<NodeView, ErrorView>(with_prefix(n, SiPrefix::Nano))),
        name == "p"@ ==> spec_parse(sc, vars, seq![TokenView::Num(n), TokenView::Ident(name)]) == (vars, Ok::<NodeView, ErrorView>(with_prefix(n, SiPrefix::Pico))),
{
    let tok = seq![TokenView::Num(n), TokenView::Ident(name)];
    law_si_postfix(sc, vars, tok, 0, n);
    if name == "k"@ {
        lemma_number_line(sc, vars, tok, with_prefix(n, SiPrefix::Kilo));
    } else if name == "M"@ {
        lemma_number_line(sc, vars, tok, with_prefix(n, SiPrefix::Mega));
    } else if name == "G"@ {
        lemma_number_line(sc, vars, tok, with_prefix(n, SiPrefix::Giga));
    } else if name == "T"@ {
        lemma_number_line(sc, vars, tok, with_prefix(n, SiPrefix::Tera));
    } else if name == "m"@ {
        lemma_number_line(sc, vars, tok, with_prefix(n, SiPrefix::Milli));
    } else if name == "u"@ {
        lemma_number_line(sc, vars, tok, with_prefix(n, SiPrefix::Micro));
    } else if name == "n"@ {
        lemma_number_line(sc, vars, tok, with_prefix(n, SiPrefix::Nano));
    } else if name == "p"@ {
        lemma_number_line(sc, vars, tok, with_prefix(n, SiPrefix::Pico));
    }
}

// ----------------------------------------------------------------------
// Unit names
/// The unit names that convert: `km`, `mm`, `cm`, `mi`, `mile`, `in`,
/// `inch` and `feet`; the others stay as they are.  The aliases convert
/// alike (`in` and `inch`, `mi` and `mile`); a conversion's factor is a
/// positive fraction, to metres or, for `feet`, to inches; and the factors
/// are the standard ones: one inch is 25.4 mm, one foot is 12 inches, one
/// mile is 1600 m, one km is 1000 m, one cm is 10 mm.
pub proof fn law_unit_conversions(name: Seq<char>)
    ensures
        unit_conversion_spec(name) is Some <==> (name == "km"@ || name == "mm"@ || name == "cm"@
            || name == "mi"@ || name == "mile"@ || name == "in"@ || name == "inch"@ || name
            == "feet"@),
        unit_conversion_spec(name) matches Some((a, b, u)) ==> a > 0 && b > 0 && (u == "m"@ || (
        name == "feet"@ && u == "in"@)),
        unit_conversion_spec("inch"@) == unit_conversion_spec("in"@),
        unit_conversion_spec("mile"@) == unit_conversion_spec("mi"@),
        unit_conversion_spec("in"@) == Some((254i64, 10000i64, "m"@)),
        unit_conversion_spec("mm"@) == Some((1i64, 1000i64, "m"@)),
        unit_conversion_spec("cm"@) == Some((1i64, 100i64, "m"@)),
        unit_conversion_spec("km"@) == Some((1000i64, 1i64, "m"@)),
        unit_conversion_spec("mi"@) == Some((1600i64, 1i64, "m"@)),
        unit_conversion_spec("feet"@) == Some((12i64, 1i64, "in"@)),
{
    reveal_strlit("km");
    reveal_strlit("mm");
    reveal_strlit("cm");
    reveal_strlit("mi");
    reveal_strlit("mile");
    reveal_strlit("in");
    reveal_strlit("inch");
    reveal_strlit("feet");
    reveal_strlit("m");
    assert("km"@[0] == 'k');
    assert("mm"@[0] == 'm' && "mm"@[1] == 'm');
    assert("cm"@[0] == 'c');
    assert("mi"@[0] == 'm' && "mi"@[1] == 'i');
    assert("mile"@.len() == 4 && "mi"@.len() == 2);
    assert("in"@.len() == 2 && "inch"@.len() == 4 && "feet"@.len() == 4);
    assert("in"@[0] == 'i' && "inch"@[0] == 'i' && "feet"@[0] == 'f' && "mile"@[0] == 'm');
    assert("m"@.len() == 1);
}

// ----------------------------------------------------------------------
// History keys
/// Every history entry fits the editor.
pub open spec fn all_editable(hist: Seq<Seq<char>>) -> bool {
    forall|k: int| 0 <= k < hist.len() ==> #[trigger] editable(hist[k])
}

/// Up then Down comes back: the history position is the one before the Up,
/// and the line is the entry at that position (empty past the newest
/// entry), with the cursor after it.
pub proof fn law_up_then_down(s: EdState)
    requires
        1 <= s.hidx <= s.hist.len(),
        all_editable(s.hist),
    ensures
        ({
            let t = key_step_spec(key_step_spec(s, Key::Up).0, Key::Down).0;
            &&& t.hidx == s.hidx
            &&& t.hist == s.hist
            &&& t.line == if s.hidx < s.hist.len() {
                s.hist[s.hidx]
            } else {
                Seq::<char>::empty()
            }
            &&& t.cur == byte_len(t.line)
        }),
{
    assert(editable(s.hist[s.hidx - 1]));
    if s.hidx < s.hist.len() {
        assert(editable(s.hist[s.hidx]));
    }
}

/// Down then Up comes back: the history position is the one before the
/// Down, and the line is the entry at that position.
pub proof fn law_down_then_up(s: EdState)
    requires
        0 <= s.hidx < s.hist.len(),
        all_editable(s.hist),
    ensures
        ({
            let t = key_step_spec(key_step_spec(s, Key::Down).0, Key::Up).0;
            &&& t.hidx == s.hidx
            &&& t.hist == s.hist
            &&& t.line == s.hist[s.hidx]
            &&& t.cur == byte_len(s.hist[s.hidx])
        }),
{
    assert(editable(s.hist[s.hidx]));
    if s.hidx + 1 < s.hist.len() {
        assert(editable(s.hist[s.hidx + 1]));
    }
}

/// Up walks the history back one entry at a time: from position `h` (past
/// the first), Up shows the entry before it, and leaves the line as it is
/// at the first entry.
pub proof fn law_up_steps_back(s: EdState)
    requires
        0 <= s.hidx <= s.hist.len(),
        all_editable(s.hist),
    ensures
        s.hidx > 0 ==> key_step_spec(s, Key::Up).0.line == s.hist[s.hidx - 1]
            && key_step_spec(s, Key::Up).0.hidx == s.hidx - 1,
        s.hidx == 0 ==> key_step_spec(s, Key::Up).0 == s,
{
    if s.hidx > 0 {
        assert(editable(s.hist[s.hidx - 1]));
    }
}

// ----------------------------------------------------------------------
// The format command
/// `format r` with `r` one of 2, 10 and 16 sets the output radix to `r` and
/// keeps the grouping and the float format, whatever the settings were;
/// another number changes nothing.  The words name the same radixes:
/// `binary`/`radix2` 2, `decimal`/`radix10` 10, `hexadecimal`/`radix16` 16.
pub proof fn law_format_radix(st: OutputSettings, r: i128)
    ensures
        (r == 2 || r == 10 || r == 16) ==> format_args(st, seq![TokenView::Num(r)]) == (
            r as u8,
            st.1,
            st.2,
        ),
        !(r == 2 || r == 10 || r == 16) ==> format_args(st, seq![TokenView::Num(r)]) == st,
        format_args(st, seq![TokenView::Ident("binary"@)]) == format_args(st, seq![TokenView::Num(2)]),
        format_args(st, seq![TokenView::Ident("radix2"@)]) == format_args(st, seq![TokenView::Num(2)]),
        format_args(st, seq![TokenView::Ident("decimal"@)]) == format_args(st, seq![TokenView::Num(10)]),
        format_args(st, seq![TokenView::Ident("radix10"@)]) == format_args(st, seq![TokenView::Num(10)]),
        format_args(st, seq![TokenView::Ident("hexadecimal"@)]) == format_args(st, seq![TokenView::Num(16)]),
        format_args(st, seq![TokenView::Ident("radix16"@)]) == format_args(st, seq![TokenView::Num(16)]),
{
    reveal_with_fuel(format_args, 2);
    let e = Seq::<TokenView>::empty();
    assert(seq![TokenView::Num(r)].drop_last() =~= e);
    assert(seq![TokenView::Num(2)].drop_last() =~= e);
    assert(seq![TokenView::Num(10)].drop_last() =~= e);
    assert(seq![TokenView::Num(16)].drop_last() =~= e);
    assert(seq![TokenView::Ident("binary"@)].drop_last() =~= e);
    assert(seq![TokenView::Ident("radix2"@)].drop_last() =~= e);
    assert(seq![TokenView::Ident("decimal"@)].drop_last() =~= e);
    assert(seq![TokenView::Ident("radix10"@)].drop_last() =~= e);
    assert(seq![TokenView::Ident("hexadecimal"@)].drop_last() =~= e);
    assert(seq![TokenView::Ident("radix16"@)].drop_last() =~= e);
    reveal_strlit("binary");
    reveal_strlit("radix2");
    reveal_strlit("decimal");
    reveal_strlit("radix10");
    reveal_strlit("hexadecimal");
    reveal_strlit("radix16");
    assert("binary"@[0] == 'b');
    assert("decimal"@[0] == 'd');
    assert("hexadecimal"@[0] == 'h');
    assert("radix2"@.len() == 6 && "radix10"@.len() == 7 && "radix16"@.len() == 7);
    assert("radix10"@[6] == '0' && "radix16"@[6] == '6');
}

/// After `format 10` (with no grouping) a number is written as its plain
/// decimal text, whatever the radix was before.
pub proof fn law_format_decimal(st: OutputSettings, n: i128)
    requires
        st.1 == 0,
    ensures
        ({
            let st1 = format_args(st, seq![TokenView::Num(10)]);
            formatted_num(st1.0, st1.1, n as int) == int_text(n as int)
        }),
{
    law_format_radix(st, 10);
    assert(radix_prefix(10) =~= Seq::<char>::empty());
}

/// `format` with `sep0`, `sep3` or `sep4` groups output digits by none,
/// three or four, and `fix`, `sci`, `eng` choose the float format; each
/// keeps the other two settings, whatever they were.
pub proof fn law_format_words(st: OutputSettings)
    ensures
        format_args(st, seq![TokenView::Ident("sep0"@)]) == (st.0, 0usize, st.2),
        format_args(st, seq![TokenView::Ident("sep3"@)]) == (st.0, 3usize, st.2),
        format_args(st, seq![TokenView::Ident("sep4"@)]) == (st.0, 4usize, st.2),
        format_args(st, seq![TokenView::Ident("fix"@)]) == (st.0, st.1, FloatFormat::Fix),
        format_args(st, seq![TokenView::Ident("sci"@)]) == (st.0, st.1, FloatFormat::Sci),
        format_args(st, seq![TokenView::Ident("eng"@)]) == (st.0, st.1, FloatFormat::Eng),
{
    reveal_with_fuel(format_args, 2);
    let e = Seq::<TokenView>::empty();
    assert(seq![TokenView::Ident("sep0"@)].drop_last() =~= e);
    assert(seq![TokenView::Ident("sep3"@)].drop_last() =~= e);
    assert(seq![TokenView::Ident("sep4"@)].drop_last() =~= e);
    assert(seq![TokenView::Ident("fix"@)].drop_last() =~= e);
    assert(seq![TokenView::Ident("sci"@)].drop_last() =~= e);
    assert(seq![TokenView::Ident("eng"@)].drop_last() =~= e);
    reveal_strlit("sep0");
    reveal_strlit("sep3");
    reveal_strlit("sep4");
    reveal_strlit("fix");
    reveal_strlit("sci");
    reveal_strlit("eng");
    reveal_strlit("binary");
    reveal_strlit("radix2");
    reveal_strlit("decimal");
    reveal_strlit("radix10");
    reveal_strlit("hexadecimal");
    reveal_strlit("radix16");
    assert("sep0"@.len() == 4 && "sep3"@.len() == 4 && "sep4"@.len() == 4);
    assert("sep0"@[3] == '0' && "sep3"@[3] == '3' && "sep4"@[3] == '4');
    assert("fix"@[0] == 'f' && "sci"@[0] == 's' && "eng"@[0] == 'e');
    assert("binary"@[0] == 'b' && "decimal"@[0] == 'd' && "hexadecimal"@[0] == 'h');
    assert("radix2"@[0] == 'r' && "radix10"@[0] == 'r' && "radix16"@[0] == 'r');
}

/// In `t`, `_` stands exactly where a multiple of `n + 1` characters,
/// less one, follows: groups of `n` characters counted from the right.
pub open spec fn separated_every(t: Seq<char>, n: nat) -> bool {
    forall|k: int|
        0 <= k < t.len() ==> (#[trigger] t[k] == '_' <==> (t.len() - 1 - k) % ((n + 1) as int) == n as int)
}

proof fn lemma_grouped_positions(s: Seq<char>, n: nat)
    requires
        n > 0,
        forall|k: int| 0 <= k < s.len() ==> #[trigger] s[k] != '_',
    ensures
        separated_every(grouped(s, seq!['_'], n), n),
    decreases s.len(),
{
    let m = (n + 1) as int;
    if s.len() <= n {
        assert forall|k: int| 0 <= k < s.len() implies (#[trigger] s[k] == '_' <==> (s.len() - 1 - k) % m
            == n as int) by {
            lemma_small_mod((s.len() - 1 - k) as nat, m as nat);
        }
    } else {
        let t = s.take(s.len() - n);
        let u = s.skip(s.len() - n);
        assert forall|k: int| 0 <= k < t.len() implies #[trigger] t[k] != '_' by {
            assert(t[k] == s[k]);
        }
        lemma_grouped_positions(t, n);
        let g = grouped(t, seq!['_'], n);
        let r = g + seq!['_'] + u;
        assert(grouped(s, seq!['_'], n) == r);
        assert forall|k: int| 0 <= k < r.len() implies (#[trigger] r[k] == '_' <==> (r.len() - 1 - k) % m
            == n as int) by {
            if k < g.len() {
                assert(r[k] == g[k]);
                assert(g[k] == '_' <==> (g.len() - 1 - k) % m == n as int);
                lemma_mod_add_multiples_vanish(g.len() - 1 - k, m);
                assert(r.len() - 1 - k == m + (g.len() - 1 - k));
            } else if k == g.len() {
                lemma_small_mod(n, m as nat);
            } else {
                assert(r[k] == u[k - g.len() - 1]);
                assert(u[k - g.len() - 1] == s[k - g.len() - 1 + s.len() - n]);
                lemma_small_mod((r.len() - 1 - k) as nat, m as nat);
            }
        }
    }
}

/// Grouping writes the digits in groups counted from the right: after
/// `format 10` and `sep3` (or `sep4`), taking the `_` out of a number's
/// output gives its decimal text, and a `_` stands exactly before each
/// group of three (four) characters counted from the right.
pub proof fn law_format_grouping(st: OutputSettings, n: i128)
    ensures
        ({
            let s3 = format_args(st, seq![TokenView::Num(10), TokenView::Ident("sep3"@)]);
            let t3 = formatted_num(s3.0, s3.1, n as int);
            &&& t3.filter(other_than('_')) == int_text(n as int)
            &&& separated_every(t3, 3)
        }),
        ({
            let s4 = format_args(st, seq![TokenView::Num(10), TokenView::Ident("sep4"@)]);
            let t4 = formatted_num(s4.0, s4.1, n as int);
            &&& t4.filter(other_than('_')) == int_text(n as int)
            &&& separated_every(t4, 4)
        }),
{
    let a3 = seq![TokenView::Num(10), TokenView::Ident("sep3"@)];
    let a4 = seq![TokenView::Num(10), TokenView::Ident("sep4"@)];
    assert(a3.drop_last() =~= seq![TokenView::Num(10)]);
    assert(a4.drop_last() =~= seq![TokenView::Num(10)]);
    reveal_with_fuel(format_args, 2);
    law_format_radix(st, 10);
    let st1 = format_args(st, seq![TokenView::Num(10)]);
    law_format_words(st1);
    assert(format_args(st, a3) == format_arg(st1, TokenView::Ident("sep3"@)));
    assert(format_args(st, a4) == format_arg(st1, TokenView::Ident("sep4"@)));
    assert(format_args(st1, seq![TokenView::Ident("sep3"@)]) == format_arg(st1, TokenView::Ident("sep3"@))) by {
        assert(seq![TokenView::Ident("sep3"@)].drop_last() =~= Seq::<TokenView>::empty());
    }
    assert(format_args(st1, seq![TokenView::Ident("sep4"@)]) == format_arg(st1, TokenView::Ident("sep4"@))) by {
        assert(seq![TokenView::Ident("sep4"@)].drop_last() =~= Seq::<TokenView>::empty());
    }
    let x = int_text(n as int);
    assert forall|k: int| 0 <= k < x.len() implies #[trigger] x[k] != '_' by {
        if n < 0 {
            lemma_radix_digits_chars((-n) as nat, 10);
            if k > 0 {
                assert(x[k] == radix_digits((-n) as nat, 10)[k - 1]);
            }
        } else {
            lemma_radix_digits_chars(n as nat, 10);
        }
    }
    assert(!x.contains('_'));
    assert(radix_prefix(10) =~= Seq::<char>::empty());
    assert(formatted_num(10, 3, n as int) =~= grouped(x, seq!['_'], 3));
    assert(formatted_num(10, 4, n as int) =~= grouped(x, seq!['_'], 4));
    lemma_grouped_unseparated(x, '_', 3);
    lemma_grouped_unseparated(x, '_', 4);
    lemma_grouped_positions(x, 3);
    lemma_grouped_positions(x, 4);
}

// ----------------------------------------------------------------------
// The history and debug commands
/// `history k` counts back from the newest entry: `history 1` runs the
/// entry added last, adding an entry moves every other one a number
/// further back, and a number that names no entry recalls nothing.  The
/// listing shows each entry with the number that recalls it.
pub proof fn law_history_recall(h: Seq<Seq<char>>, l: Seq<char>, k: i128)
    requires
        h.len() < i128::MAX,
    ensures
        history_pick(h.push(l), seq![TokenView::Num(1)]) == Some(l),
        1 <= k <= h.len() ==> history_pick(h.push(l), seq![TokenView::Num((k + 1) as i128)])
            == history_pick(h, seq![TokenView::Num(k)]),
        (k < 1 || k > h.len()) ==> history_pick(h, seq![TokenView::Num(k)]) is None,
        forall|j: int|
            0 <= j < h.len() ==> {
                &&& #[trigger] history_pick(h, seq![TokenView::Num((h.len() - j) as i128)]) == Some(h[j])
                &&& history_lines(h.take(j + 1), h.len() as int) == history_lines(h.take(j), h.len() as int)
                    + int_text(h.len() - j) + " "@ + h[j] + "\r\n"@
            },
{
    let h1 = h.push(l);
    assert(h1[h1.len() - 1] == l);
    if 1 <= k <= h.len() {
        assert(h1[h1.len() - (k + 1)] == h[h.len() - k]);
    }
    assert forall|j: int| 0 <= j < h.len() implies {
        &&& #[trigger] history_pick(h, seq![TokenView::Num((h.len() - j) as i128)]) == Some(h[j])
        &&& history_lines(h.take(j + 1), h.len() as int) == history_lines(h.take(j), h.len() as int)
            + int_text(h.len() - j) + " "@ + h[j] + "\r\n"@
    } by {
        let t = h.take(j + 1);
        assert(t.drop_last() =~= h.take(j));
        assert(t.last() == h[j]);
    }
}

/// `debug` with `on`, `true` or `1` turns debugging on, with `off`,
/// `false` or `0` turns it off, and with another number or name leaves it
/// as it was.
pub proof fn law_debug_words(d: bool, n: i128, w: Seq<char>)
    ensures
        debug_arg(d, TokenView::Ident("on"@)),
        debug_arg(d, TokenView::Ident("true"@)),
        debug_arg(d, TokenView::Num(1)),
        !debug_arg(d, TokenView::Ident("off"@)),
        !debug_arg(d, TokenView::Ident("false"@)),
        !debug_arg(d, TokenView::Num(0)),
        n != 0 && n != 1 ==> debug_arg(d, TokenView::Num(n)) == d,
        w != "on"@ && w != "true"@ && w != "off"@ && w != "false"@ ==> debug_arg(d, TokenView::Ident(w)) == d,
{
    reveal_strlit("on");
    reveal_strlit("true");
    reveal_strlit("off");
    reveal_strlit("false");
    assert("on"@.len() == 2 && "off"@.len() == 3 && "true"@.len() == 4 && "false"@.len() == 5);
}

/// `history_max k` keeps `k` entries from then on, for any `k` from zero
/// up; a negative number, another argument or none leaves the limit.
pub proof fn law_history_max(m: usize, k: i128, t: TokenView)
    ensures
        0 <= k <= usize::MAX ==> history_max_arg(m, seq![TokenView::Num(k)]) as int == k as int,
        k < 0 ==> history_max_arg(m, seq![TokenView::Num(k)]) == m,
        !(t is Num) ==> history_max_arg(m, seq![t]) == m,
        history_max_arg(m, Seq::empty()) == m,
{
}

// ----------------------------------------------------------------------
// Integer arithmetic
/// `+`, `-` and `*` on integers are the sums, differences and products;
/// `/` and `%` divide rounding toward zero: the quotient times the divisor
/// plus the remainder is the dividend, the remainder is smaller than the
/// divisor and takes the sign of the dividend; a division by zero is no
/// integer.
pub proof fn law_int_division(a: i128, b: i128)
    ensures
        int_result(TokenOp::Plus, a, b) == Some(a + b),
        int_result(TokenOp::Minus, a, b) == Some(a - b),
        int_result(TokenOp::Mul, a, b) == Some(a * b),
        b == 0 ==> int_result(TokenOp::Div, a, b) is None,
        b != 0 ==> ({
            let q = int_result(TokenOp::Div, a, b).unwrap();
            let r = int_result(TokenOp::Mod, a, b).unwrap();
            &&& q * b + r == a
            &&& int_abs(r) < int_abs(b as int)
            &&& a >= 0 ==> r >= 0
            &&& a <= 0 ==> r <= 0
        }),
{
    if b != 0 {
        let ai = a as int;
        let bi = b as int;
        let q = trunc_div(ai, bi);
        let r = trunc_rem(ai, bi);
        assert(int_result(TokenOp::Div, a, b) == Some(q));
        assert(int_result(TokenOp::Mod, a, b) == Some(r));
        if ai >= 0 {
            lemma_fundamental_div_mod(ai, bi);
            assert(0 <= ai % bi < int_abs(bi)) by (nonlinear_arith)
                requires
                    bi != 0,
            ;
            assert(q == ai / bi && r == ai % bi);
            assert(q * bi == bi * (ai / bi)) by (nonlinear_arith)
                requires
                    q == ai / bi,
            ;
            assert(q * bi + r == ai);
            if ai == 0 {
                assert(r == 0) by (nonlinear_arith)
                    requires
                        r == ai % bi,
                        ai == 0,
                        bi != 0,
                ;
            }
        } else {
            let na = -ai;
            lemma_fundamental_div_mod(na, bi);
            assert(0 <= na % bi < int_abs(bi)) by (nonlinear_arith)
                requires
                    bi != 0,
            ;
            assert(q == -(na / bi) && r == -(na % bi));
            assert(q * bi == -(bi * (na / bi))) by (nonlinear_arith)
                requires
                    q == -(na / bi),
            ;
            assert(q * bi + r == ai);
            assert(int_abs(r) == na % bi);
        }
        assert(q * b + r == a);
        assert(int_abs(r) < int_abs(b as int));
        assert(a >= 0 ==> r >= 0);
        assert(a <= 0 ==> r <= 0);
    }
}

/// `a ^ 1` is `a`, and each further unit of a positive exponent multiplies
/// by `a` once more; an exponent of zero or below gives no integer.
pub proof fn law_int_power(a: i128, n: i128)
    ensures
        int_result(TokenOp::Caret, a, 1) == Some(a as int),
        1 <= n < u32::MAX ==> int_result(TokenOp::Caret, a, (n + 1) as i128) == Some(
            a * int_result(TokenOp::Caret, a, n).unwrap(),
        ),
        n <= 0 ==> int_result(TokenOp::Caret, a, n) is None,
{
    assert(exponent_bits(1) == 1) by (bit_vector);
    reveal_with_fuel(int_pow, 2);
    if 1 <= n < u32::MAX {
        let m = (n + 1) as i128;
        assert(exponent_bits(n) == n as nat && exponent_bits(m) == m as nat) by {
            assert(1 <= n < 0xffff_ffff ==> (n as u32) as int == n as int) by (bit_vector);
            assert(2 <= m <= 0xffff_ffff ==> (m as u32) as int == m as int) by (bit_vector);
        }
        assert(int_pow(a as int, m as nat) == a * int_pow(a as int, n as nat));
    }
}

// ----------------------------------------------------------------------
// User functions
/// A body with its parameters replaced by the arguments.
pub open spec fn expand(body: Seq<TokenView>, args: Seq<Seq<TokenView>>) -> Result<Seq<TokenView>, Seq<TokenView>> {
    expand_prefix(body, args, body.len() as int)
}

proof fn lemma_expand_prefix_agree(b1: Seq<TokenView>, b2: Seq<TokenView>, args: Seq<Seq<TokenView>>, i: int)
    requires
        0 <= i <= b1.len(),
    ensures
        expand_prefix(b1 + b2, args, i) == expand_prefix(b1, args, i),
    decreases i,
{
    if i > 0 {
        lemma_expand_prefix_agree(b1, b2, args, i - 1);
        assert((b1 + b2)[i - 1] == b1[i - 1]);
    }
}

proof fn lemma_expand_concat(b1: Seq<TokenView>, b2: Seq<TokenView>, args: Seq<Seq<TokenView>>, j: int)
    requires
        0 <= j <= b2.len(),
    ensures
        ({
            let l = b1.len() as int;
            match expand_prefix(b1, args, l) {
                Ok(u) => expand_prefix(b1 + b2, args, l + j) == match expand_prefix(b2, args, j) {
                    Ok(v) => Ok::<Seq<TokenView>, Seq<TokenView>>(u + v),
                    Err(e) => Err(u + e),
                },
                Err(e) => expand_prefix(b1 + b2, args, l + j) == Err::<Seq<TokenView>, Seq<TokenView>>(e),
            }
        }),
    decreases j,
{
    let l = b1.len() as int;
    if j == 0 {
        lemma_expand_prefix_agree(b1, b2, args, l);
        if let Ok(u) = expand_prefix(b1, args, l) {
            assert(u + Seq::<TokenView>::empty() =~= u);
        }
    } else {
        lemma_expand_concat(b1, b2, args, j - 1);
        assert((b1 + b2)[l + j - 1] == b2[j - 1]);
        if let Ok(u) = expand_prefix(b1, args, l) {
            match expand_prefix(b2, args, j - 1) {
                Ok(v) => {
                    match b2[j - 1] {
                        TokenView::Ident(id) => match param_index(id) {
                            Some(p) => {
                                assert(u + v + args[p] =~= u + (v + args[p]));
                            },
                            None => {
                                assert((u + v).push(b2[j - 1]) =~= u + v.push(b2[j - 1]));
                            },
                        },
                        _ => {
                            assert((u + v).push(b2[j - 1]) =~= u + v.push(b2[j - 1]));
                        },
                    }
                },
                Err(e) => {},
            }
        }
    }
}

/// A user function's parameters are replaced one by one, left to right:
/// the expansion of two bodies one after the other is the expansion of the
/// first followed by that of the second (a missing argument stops it,
/// after what was written before); `_1` is the first argument and `_9` the
/// ninth, a parameter without its argument is an error, and every other
/// token (numbers, operators, other names, `_0`) stays as it is.
pub proof fn law_substitution(
    b1: Seq<TokenView>,
    b2: Seq<TokenView>,
    args: Seq<Seq<TokenView>>,
    n: i128,
    o: TokenOp,
    x: Seq<char>,
)
    ensures
        expand(b1, args) matches Ok(u) ==> expand(b1 + b2, args) == match expand(b2, args) {
            Ok(v) => Ok::<Seq<TokenView>, Seq<TokenView>>(u + v),
            Err(e) => Err(u + e),
        },
        expand(b1, args) is Err ==> expand(b1 + b2, args) == expand(b1, args),
        args.len() >= 1 ==> expand(seq![TokenView::Ident(seq!['_', '1'])], args) == Ok::<
            Seq<TokenView>,
            Seq<TokenView>,
        >(args[0]),
        args.len() >= 9 ==> expand(seq![TokenView::Ident(seq!['_', '9'])], args) == Ok::<
            Seq<TokenView>,
            Seq<TokenView>,
        >(args[8]),
        args.len() == 0 ==> expand(seq![TokenView::Ident(seq!['_', '1'])], args) == Err::<
            Seq<TokenView>,
            Seq<TokenView>,
        >(Seq::empty()),
        expand(seq![TokenView::Num(n)], args) == Ok::<Seq<TokenView>, Seq<TokenView>>(seq![TokenView::Num(n)]),
        expand(seq![TokenView::Op(o)], args) == Ok::<Seq<TokenView>, Seq<TokenView>>(seq![TokenView::Op(o)]),
        (x.len() != 2 || x[0] != '_' || x[1] == '0') ==> expand(seq![TokenView::Ident(x)], args) == Ok::<
            Seq<TokenView>,
            Seq<TokenView>,
        >(seq![TokenView::Ident(x)]),
{
    lemma_expand_concat(b1, b2, args, b2.len() as int);
    assert((b1 + b2).len() == b1.len() + b2.len());
    let e = Seq::<TokenView>::empty();
    reveal_with_fuel(expand_prefix, 2);
    if args.len() >= 1 {
        assert(e + args[0] =~= args[0]);
    }
    if args.len() >= 9 {
        assert(e + args[8] =~= args[8]);
    }
    assert(e.push(TokenView::Num(n)) =~= seq![TokenView::Num(n)]);
    assert(e.push(TokenView::Op(o)) =~= seq![TokenView::Op(o)]);
    assert(e.push(TokenView::Ident(x)) =~= seq![TokenView::Ident(x)]);
}

// ----------------------------------------------------------------------
// Name listings
/// The listings write one name per line, each ended by CR LF, in table
/// order: the listing of two tables one after the other is the listing of
/// the first followed by that of the second, and a single name is that
/// name and CR LF.
pub proof fn law_name_listing(a: Seq<Seq<char>>, b: Seq<Seq<char>>, k: Seq<char>)
    ensures
        key_lines(seq![k]) == k + seq!['\r', '\n'],
        key_lines(a + b) == key_lines(a) + key_lines(b),
    decreases b.len(),
{
    reveal_with_fuel(key_lines, 2);
    assert(seq![k].drop_last() =~= Seq::<Seq<char>>::empty());
    assert(Seq::<char>::empty() + k =~= k);
    if b.len() == 0 {
        assert(a + b =~= a);
        assert(key_lines(a) + Seq::<char>::empty() =~= key_lines(a));
    } else {
        law_name_listing(a, b.drop_last(), k);
        assert((a + b).drop_last() =~= a + b.drop_last());
        assert((a + b).last() == b.last());
        assert(key_lines(a) + key_lines(b.drop_last()) + b.last() + seq!['\r', '\n'] =~= key_lines(a) + (
        key_lines(b.drop_last()) + b.last() + seq!['\r', '\n']));
    }
}

// ----------------------------------------------------------------------
// Operators
/// How an operator is written in a line: `//` for the integer division,
/// one character for the others.
pub open spec fn op_spelling(o: TokenOp) -> Seq<char> {
    match o {
        TokenOp::Plus => seq!['+'],
        TokenOp::Minus => seq!['-'],
        TokenOp::Mul => seq!['*'],
        TokenOp::Div => seq!['/'],
        TokenOp::Mod => seq!['%'],
        TokenOp::Para => seq!['/', '/'],
        TokenOp::ParenLeft => seq!['('],
        TokenOp::ParenRight => seq![')'],
        TokenOp::Caret => seq!['^'],
        TokenOp::Comma => seq![','],
        TokenOp::Equal => seq!['='],
        TokenOp::SqBracketLeft => seq!['['],
        TokenOp::SqBracketRight => seq![']'],
        TokenOp::NoOp => Seq::empty(),
    }
}

/// Each operator lexes as itself: its spelling is one token, that
/// operator (so `//` is one token and not two `/`).
pub proof fn law_operator_tokens(o: TokenOp)
    requires
        !(o is NoOp),
    ensures
        spec_lexer(op_spelling(o)) == Ok::<Seq<TokenView>, ErrorView>(seq![TokenView::Op(o)]),
{
    reveal_with_fuel(lex_from, 3);
    let e = Seq::<TokenView>::empty();
    assert(e.push(TokenView::Op(o)) =~= seq![TokenView::Op(o)]);
}

// ----------------------------------------------------------------------
// Precedence and associativity
/// The number `n` without units.
pub open spec fn plain(n: i128) -> NodeView {
    NodeView::Num(n, Box::new(NodeView::Units(Box::new(NodeView::Empty))))
}

pub open spec fn bin(o: TokenOp, l: NodeView, r: NodeView) -> NodeView {
    NodeView::BinOp(TokenView::Op(o), Box::new(l), Box::new(r))
}

/// A number followed by the end or by an operator other than `[` and `^`
/// is a whole operand of `*`.
proof fn lemma_atom(sc: Scope, vars: Seq<Seq<char>>, tok: Seq<TokenView>, i: int, n: i128)
    requires
        0 <= i < tok.len(),
        tok[i] == TokenView::Num(n),
        i + 1 < tok.len() ==> (tok[i + 1] matches TokenView::Op(o) && o != TokenOp::SqBracketLeft
            && o != TokenOp::Caret),
    ensures
        p_num(sc, vars, tok, i) == (vars, Ok::<(NodeView, int), ErrorView>((plain(n), i + 1))),
        p_primary(sc, vars, tok, i) == (vars, Ok::<(NodeView, int), ErrorView>((plain(n), i + 1))),
        p_unary(sc, vars, tok, i) == (vars, Ok::<(NodeView, int), ErrorView>((plain(n), i + 1))),
        p_exp(sc, vars, tok, i) == (vars, Ok::<(NodeView, int), ErrorView>((plain(n), i + 1))),
{
    assert(p_unary(sc, vars, tok, i) == (vars, Ok::<(NodeView, int), ErrorView>((plain(n), i + 1))));
    if i + 1 < tok.len() {
        assert(tok[i + 1] != TokenView::Op(TokenOp::Caret));
    }
}

/// The operators of `*` strength.
pub open spec fn mul_op(o: TokenOp) -> bool {
    o == TokenOp::Mul || o == TokenOp::Div || o == TokenOp::Mod || o == TokenOp::Para
}

/// The operators of `+` strength.
pub open spec fn add_op(o: TokenOp) -> bool {
    o == TokenOp::Plus || o == TokenOp::Minus
}

/// `*`, `/`, `%` and `//` bind tighter than `+` and `-`, on either side:
/// `a + b * c` is `a + (b * c)` and `a * b + c` is `(a * b) + c`.
pub proof fn law_precedence(sc: Scope, vars: Seq<Seq<char>>, a: i128, b: i128, c: i128, o1: TokenOp, o2: TokenOp)
    requires
        add_op(o1),
        mul_op(o2),
    ensures
        spec_parse(sc, vars, seq![TokenView::Num(a), TokenView::Op(o1), TokenView::Num(b), TokenView::Op(o2), TokenView::Num(c)])
            == (vars, Ok::<NodeView, ErrorView>(bin(o1, plain(a), bin(o2, plain(b), plain(c))))),
        spec_parse(sc, vars, seq![TokenView::Num(a), TokenView::Op(o2), TokenView::Num(b), TokenView::Op(o1), TokenView::Num(c)])
            == (vars, Ok::<NodeView, ErrorView>(bin(o1, bin(o2, plain(a), plain(b)), plain(c)))),
{
    let t = seq![TokenView::Num(a), TokenView::Op(o1), TokenView::Num(b), TokenView::Op(o2), TokenView::Num(c)];
    lemma_atom(sc, vars, t, 0, a);
    lemma_atom(sc, vars, t, 2, b);
    lemma_atom(sc, vars, t, 4, c);
    let bc = bin(o2, plain(b), plain(c));
    assert(p_mul_loop(sc, vars, t, plain(a), 1) == (vars, Ok::<(NodeView, int), ErrorView>((plain(a), 1int))));
    assert(p_mul(sc, vars, t, 0) == (vars, Ok::<(NodeView, int), ErrorView>((plain(a), 1int))));
    assert(p_mul_loop(sc, vars, t, bc, 5) == (vars, Ok::<(NodeView, int), ErrorView>((bc, 5int))));
    assert(p_mul_loop(sc, vars, t, plain(b), 3) == (vars, Ok::<(NodeView, int), ErrorView>((bc, 5int))));
    assert(p_mul(sc, vars, t, 2) == (vars, Ok::<(NodeView, int), ErrorView>((bc, 5int))));
    let whole = bin(o1, plain(a), bc);
    assert(p_expr_loop(sc, vars, t, whole, 5) == (vars, Ok::<(NodeView, int), ErrorView>((whole, 5int))));
    assert(p_expr_loop(sc, vars, t, plain(a), 1) == (vars, Ok::<(NodeView, int), ErrorView>((whole, 5int))));
    assert(p_expr(sc, vars, t, 0) == (vars, Ok::<(NodeView, int), ErrorView>((whole, 5int))));
    assert(p_assign(sc, vars, t, 0) == (vars, Ok::<(NodeView, int), ErrorView>((whole, 5int))));

    let u = seq![TokenView::Num(a), TokenView::Op(o2), TokenView::Num(b), TokenView::Op(o1), TokenView::Num(c)];
    lemma_atom(sc, vars, u, 0, a);
    lemma_atom(sc, vars, u, 2, b);
    lemma_atom(sc, vars, u, 4, c);
    let ab = bin(o2, plain(a), plain(b));
    assert(p_mul_loop(sc, vars, u, ab, 3) == (vars, Ok::<(NodeView, int), ErrorView>((ab, 3int))));
    assert(p_mul_loop(sc, vars, u, plain(a), 1) == (vars, Ok::<(NodeView, int), ErrorView>((ab, 3int))));
    assert(p_mul(sc, vars, u, 0) == (vars, Ok::<(NodeView, int), ErrorView>((ab, 3int))));
    assert(p_mul_loop(sc, vars, u, plain(c), 5) == (vars, Ok::<(NodeView, int), ErrorView>((plain(c), 5int))));
    assert(p_mul(sc, vars, u, 4) == (vars, Ok::<(NodeView, int), ErrorView>((plain(c), 5int))));
    let whole2 = bin(o1, ab, plain(c));
    assert(p_expr_loop(sc, vars, u, whole2, 5) == (vars, Ok::<(NodeView, int), ErrorView>((whole2, 5int))));
    assert(p_expr_loop(sc, vars, u, ab, 3) == (vars, Ok::<(NodeView, int), ErrorView>((whole2, 5int))));
    assert(p_expr(sc, vars, u, 0) == (vars, Ok::<(NodeView, int), ErrorView>((whole2, 5int))));
    assert(p_assign(sc, vars, u, 0) == (vars, Ok::<(NodeView, int), ErrorView>((whole2, 5int))));
}

/// A number followed by the end or by an operator other than `[` is a whole
/// operand of `^`.
proof fn lemma_atom_unary(sc: Scope, vars: Seq<Seq<char>>, tok: Seq<TokenView>, i: int, n: i128)
    requires
        0 <= i < tok.len(),
        tok[i] == TokenView::Num(n),
        i + 1 < tok.len() ==> (tok[i + 1] matches TokenView::Op(o) && o != TokenOp::SqBracketLeft),
    ensures
        p_unary(sc, vars, tok, i) == (vars, Ok::<(NodeView, int), ErrorView>((plain(n), i + 1))),
{
    assert(p_num(sc, vars, tok, i) == (vars, Ok::<(NodeView, int), ErrorView>((plain(n), i + 1))));
    assert(p_primary(sc, vars, tok, i) == (vars, Ok::<(NodeView, int), ErrorView>((plain(n), i + 1))));
}

/// Operators of the same strength group from the left: `a - b + c` is
/// `(a - b) + c` and `a / b * c` is `(a / b) * c`.
pub proof fn law_left_associative(sc: Scope, vars: Seq<Seq<char>>, a: i128, b: i128, c: i128, o1: TokenOp, o2: TokenOp)
    requires
        (add_op(o1) && add_op(o2)) || (mul_op(o1) && mul_op(o2)),
    ensures
        spec_parse(sc, vars, seq![TokenView::Num(a), TokenView::Op(o1), TokenView::Num(b), TokenView::Op(o2), TokenView::Num(c)])
            == (vars, Ok::<NodeView, ErrorView>(bin(o2, bin(o1, plain(a), plain(b)), plain(c)))),
{
    let t = seq![TokenView::Num(a), TokenView::Op(o1), TokenView::Num(b), TokenView::Op(o2), TokenView::Num(c)];
    lemma_atom(sc, vars, t, 0, a);
    lemma_atom(sc, vars, t, 2, b);
    lemma_atom(sc, vars, t, 4, c);
    let ab = bin(o1, plain(a), plain(b));
    let w = bin(o2, ab, plain(c));
    if mul_op(o1) {
        assert(p_mul_loop(sc, vars, t, w, 5) == (vars, Ok::<(NodeView, int), ErrorView>((w, 5int))));
        assert(p_mul_loop(sc, vars, t, ab, 3) == (vars, Ok::<(NodeView, int), ErrorView>((w, 5int))));
        assert(p_mul_loop(sc, vars, t, plain(a), 1) == (vars, Ok::<(NodeView, int), ErrorView>((w, 5int))));
        assert(p_mul(sc, vars, t, 0) == (vars, Ok::<(NodeView, int), ErrorView>((w, 5int))));
        assert(p_expr_loop(sc, vars, t, w, 5) == (vars, Ok::<(NodeView, int), ErrorView>((w, 5int))));
        assert(p_expr(sc, vars, t, 0) == (vars, Ok::<(NodeView, int), ErrorView>((w, 5int))));
    } else {
        assert(p_mul_loop(sc, vars, t, plain(a), 1) == (vars, Ok::<(NodeView, int), ErrorView>((plain(a), 1int))));
        assert(p_mul(sc, vars, t, 0) == (vars, Ok::<(NodeView, int), ErrorView>((plain(a), 1int))));
        assert(p_mul_loop(sc, vars, t, plain(b), 3) == (vars, Ok::<(NodeView, int), ErrorView>((plain(b), 3int))));
        assert(p_mul(sc, vars, t, 2) == (vars, Ok::<(NodeView, int), ErrorView>((plain(b), 3int))));
        assert(p_mul_loop(sc, vars, t, plain(c), 5) == (vars, Ok::<(NodeView, int), ErrorView>((plain(c), 5int))));
        assert(p_mul(sc, vars, t, 4) == (vars, Ok::<(NodeView, int), ErrorView>((plain(c), 5int))));
        assert(p_expr_loop(sc, vars, t, w, 5) == (vars, Ok::<(NodeView, int), ErrorView>((w, 5int))));
        assert(p_expr_loop(sc, vars, t, ab, 3) == (vars, Ok::<(NodeView, int), ErrorView>((w, 5int))));
        assert(p_expr_loop(sc, vars, t, plain(a), 1) == (vars, Ok::<(NodeView, int), ErrorView>((w, 5int))));
        assert(p_expr(sc, vars, t, 0) == (vars, Ok::<(NodeView, int), ErrorView>((w, 5int))));
    }
    assert(p_assign(sc, vars, t, 0) == (vars, Ok::<(NodeView, int), ErrorView>((w, 5int))));
}

/// `^` groups from the right: `a ^ b ^ c` is `a ^ (b ^ c)`.
pub proof fn law_power_right_associative(sc: Scope, vars: Seq<Seq<char>>, a: i128, b: i128, c: i128)
    ensures
        spec_parse(sc, vars, seq![TokenView::Num(a), TokenView::Op(TokenOp::Caret), TokenView::Num(b), TokenView::Op(TokenOp::Caret), TokenView::Num(c)])
            == (vars, Ok::<NodeView, ErrorView>(bin(TokenOp::Caret, plain(a), bin(TokenOp::Caret, plain(b), plain(c))))),
{
    let t = seq![TokenView::Num(a), TokenView::Op(TokenOp::Caret), TokenView::Num(b), TokenView::Op(TokenOp::Caret), TokenView::Num(c)];
    lemma_atom_unary(sc, vars, t, 0, a);
    lemma_atom_unary(sc, vars, t, 2, b);
    lemma_atom(sc, vars, t, 4, c);
    let bc = bin(TokenOp::Caret, plain(b), plain(c));
    let w = bin(TokenOp::Caret, plain(a), bc);
    assert(p_exp(sc, vars, t, 2) == (vars, Ok::<(NodeView, int), ErrorView>((bc, 5int))));
    assert(p_exp(sc, vars, t, 0) == (vars, Ok::<(NodeView, int), ErrorView>((w, 5int))));
    assert(p_mul_loop(sc, vars, t, w, 5) == (vars, Ok::<(NodeView, int), ErrorView>((w, 5int))));
    assert(p_mul(sc, vars, t, 0) == (vars, Ok::<(NodeView, int), ErrorView>((w, 5int))));
    assert(p_expr_loop(sc, vars, t, w, 5) == (vars, Ok::<(NodeView, int), ErrorView>((w, 5int))));
    assert(p_expr(sc, vars, t, 0) == (vars, Ok::<(NodeView, int), ErrorView>((w, 5int))));
    assert(p_assign(sc, vars, t, 0) == (vars, Ok::<(NodeView, int), ErrorView>((w, 5int))));
}

/// A sign in front of an operand applies to that operand alone: `-a` and
/// `+a` are the sign applied to `a`, and `-a * b` or `-a + b` is the
/// signed `a` combined with `b`.
pub proof fn law_unary_sign(
    sc: Scope,
    vars: Seq<Seq<char>>,
    a: i128,
    b: i128,
    sgn: TokenOp,
    o: TokenOp,
)
    requires
        add_op(sgn),
        add_op(o) || mul_op(o),
    ensures
        spec_parse(sc, vars, seq![TokenView::Op(sgn), TokenView::Num(a)]) == (
            vars,
            Ok::<NodeView, ErrorView>(NodeView::Unary(TokenView::Op(sgn), Box::new(plain(a)))),
        ),
        spec_parse(sc, vars, seq![TokenView::Op(sgn), TokenView::Num(a), TokenView::Op(o), TokenView::Num(b)])
            == (vars, Ok::<NodeView, ErrorView>(
            bin(o, NodeView::Unary(TokenView::Op(sgn), Box::new(plain(a))), plain(b)),
        )),
{
    let un = NodeView::Unary(TokenView::Op(sgn), Box::new(plain(a)));
    let t = seq![TokenView::Op(sgn), TokenView::Num(a)];
    lemma_atom(sc, vars, t, 1, a);
    assert(p_unary(sc, vars, t, 0) == (vars, Ok::<(NodeView, int), ErrorView>((un, 2int))));
    assert(p_exp(sc, vars, t, 0) == (vars, Ok::<(NodeView, int), ErrorView>((un, 2int))));
    assert(p_mul(sc, vars, t, 0) == (vars, Ok::<(NodeView, int), ErrorView>((un, 2int))));
    assert(p_expr(sc, vars, t, 0) == (vars, Ok::<(NodeView, int), ErrorView>((un, 2int))));
    assert(p_assign(sc, vars, t, 0) == (vars, Ok::<(NodeView, int), ErrorView>((un, 2int))));

    let u = seq![TokenView::Op(sgn), TokenView::Num(a), TokenView::Op(o), TokenView::Num(b)];
    lemma_atom(sc, vars, u, 1, a);
    lemma_atom(sc, vars, u, 3, b);
    let whole = bin(o, un, plain(b));
    assert(p_unary(sc, vars, u, 0) == (vars, Ok::<(NodeView, int), ErrorView>((un, 2int))));
    assert(u[2] != TokenView::Op(TokenOp::Caret));
    assert(p_exp(sc, vars, u, 0) == (vars, Ok::<(NodeView, int), ErrorView>((un, 2int))));
    assert(p_mul_loop(sc, vars, u, plain(b), 4) == (vars, Ok::<(NodeView, int), ErrorView>((plain(b), 4int))));
    assert(p_mul(sc, vars, u, 3) == (vars, Ok::<(NodeView, int), ErrorView>((plain(b), 4int))));
    assert(p_expr_loop(sc, vars, u, whole, 4) == (vars, Ok::<(NodeView, int), ErrorView>((whole, 4int))));
    if mul_op(o) {
        assert(p_mul_loop(sc, vars, u, whole, 4) == (vars, Ok::<(NodeView, int), ErrorView>((whole, 4int))));
        assert(p_mul_loop(sc, vars, u, un, 2) == (vars, Ok::<(NodeView, int), ErrorView>((whole, 4int))));
        assert(p_mul(sc, vars, u, 0) == (vars, Ok::<(NodeView, int), ErrorView>((whole, 4int))));
    } else {
        assert(p_mul_loop(sc, vars, u, un, 2) == (vars, Ok::<(NodeView, int), ErrorView>((un, 2int))));
        assert(p_mul(sc, vars, u, 0) == (vars, Ok::<(NodeView, int), ErrorView>((un, 2int))));
        assert(p_expr_loop(sc, vars, u, un, 2) == (vars, Ok::<(NodeView, int), ErrorView>((whole, 4int))));
    }
    assert(p_expr(sc, vars, u, 0) == (vars, Ok::<(NodeView, int), ErrorView>((whole, 4int))));
    assert(p_assign(sc, vars, u, 0) == (vars, Ok::<(NodeView, int), ErrorView>((whole, 4int))));
}

/// A name that is no constant, function or command.
pub open spec fn free_name(sc: Scope, x: Seq<char>) -> bool {
    &&& !sc.is_const(x)
    &&& sc.func_arity(x) is None
    &&& sc.user_func_body(x) is None
    &&& sc.cmd_arity(x) is None
}

/// `x = a` assigns: a free name, `=` and a number parse as the assignment
/// of the number to the variable `x`, which becomes known if it was not.
pub proof fn law_assignment(sc: Scope, vars: Seq<Seq<char>>, x: Seq<char>, a: i128)
    requires
        free_name(sc, x),
    ensures
        spec_parse(sc, vars, seq![TokenView::Ident(x), TokenView::Op(TokenOp::Equal), TokenView::Num(a)]) == (
            if vars.contains(x) {
                vars
            } else {
                vars.push(x)
            },
            Ok::<NodeView, ErrorView>(
                NodeView::BinOp(
                    TokenView::Op(TokenOp::Equal),
                    Box::new(NodeView::Var(TokenView::Ident(x))),
                    Box::new(plain(a)),
                ),
            ),
        ),
{
    let t = seq![TokenView::Ident(x), TokenView::Op(TokenOp::Equal), TokenView::Num(a)];
    let v1 = if vars.contains(x) {
        vars
    } else {
        vars.push(x)
    };
    let var = NodeView::Var(TokenView::Ident(x));
    let whole = NodeView::BinOp(TokenView::Op(TokenOp::Equal), Box::new(var), Box::new(plain(a)));
    assert(p_primary(sc, vars, t, 0) == (v1, Ok::<(NodeView, int), ErrorView>((var, 1int))));
    assert(p_unary(sc, vars, t, 0) == (v1, Ok::<(NodeView, int), ErrorView>((var, 1int))));
    assert(t[1] != TokenView::Op(TokenOp::Caret));
    assert(p_exp(sc, vars, t, 0) == (v1, Ok::<(NodeView, int), ErrorView>((var, 1int))));
    assert(p_mul(sc, vars, t, 0) == (v1, Ok::<(NodeView, int), ErrorView>((var, 1int))));
    assert(p_expr(sc, vars, t, 0) == (v1, Ok::<(NodeView, int), ErrorView>((var, 1int))));
    lemma_atom(sc, v1, t, 2, a);
    assert(p_mul(sc, v1, t, 2) == (v1, Ok::<(NodeView, int), ErrorView>((plain(a), 3int))));
    assert(p_expr(sc, v1, t, 2) == (v1, Ok::<(NodeView, int), ErrorView>((plain(a), 3int))));
    assert(p_assign(sc, vars, t, 0) == (v1, Ok::<(NodeView, int), ErrorView>((whole, 3int))));
}

/// A function call passes its argument: `f(a)`, for a function `f` of one
/// argument, parses as the call of `f` on `a`; called with one argument, a
/// function that takes another number of them is an error.
pub proof fn law_function_call(sc: Scope, vars: Seq<Seq<char>>, f: Seq<char>, a: i128)
    requires
        !sc.is_const(f),
        sc.func_arity(f) is Some,
    ensures
        ({
            let t = seq![
                TokenView::Ident(f),
                TokenView::Op(TokenOp::ParenLeft),
                TokenView::Num(a),
                TokenView::Op(TokenOp::ParenRight),
            ];
            let k = sc.func_arity(f).unwrap();
            &&& (k == 1 || k == 0) ==> spec_parse(sc, vars, t) == (
                vars,
                Ok::<NodeView, ErrorView>(NodeView::Func(TokenView::Ident(f), seq![plain(a)])),
            )
            &&& (k != 1 && k != 0) ==> spec_parse(sc, vars, t).1 is Err
        }),
{
    let t = seq![
        TokenView::Ident(f),
        TokenView::Op(TokenOp::ParenLeft),
        TokenView::Num(a),
        TokenView::Op(TokenOp::ParenRight),
    ];
    let k = sc.func_arity(f).unwrap();
    let call = NodeView::Func(TokenView::Ident(f), seq![plain(a)]);
    lemma_atom(sc, vars, t, 2, a);
    assert(p_mul(sc, vars, t, 2) == (vars, Ok::<(NodeView, int), ErrorView>((plain(a), 3int))));
    assert(p_expr(sc, vars, t, 2) == (vars, Ok::<(NodeView, int), ErrorView>((plain(a), 3int))));
    assert(Seq::<NodeView>::empty().push(plain(a)) =~= seq![plain(a)]);
    if k == 1 || k == 0 {
        assert(p_func_loop(sc, vars, f, k, t, 3, seq![plain(a)]) == (
            vars,
            Ok::<(NodeView, int), ErrorView>((call, 4int)),
        ));
        assert(p_func_loop(sc, vars, f, k, t, 2, Seq::empty()) == (
            vars,
            Ok::<(NodeView, int), ErrorView>((call, 4int)),
        ));
        assert(p_primary(sc, vars, t, 0) == (vars, Ok::<(NodeView, int), ErrorView>((call, 4int))));
        assert(p_unary(sc, vars, t, 0) == (vars, Ok::<(NodeView, int), ErrorView>((call, 4int))));
        assert(p_exp(sc, vars, t, 0) == (vars, Ok::<(NodeView, int), ErrorView>((call, 4int))));
        assert(p_mul(sc, vars, t, 0) == (vars, Ok::<(NodeView, int), ErrorView>((call, 4int))));
        assert(p_expr(sc, vars, t, 0) == (vars, Ok::<(NodeView, int), ErrorView>((call, 4int))));
        assert(p_assign(sc, vars, t, 0) == (vars, Ok::<(NodeView, int), ErrorView>((call, 4int))));
    } else {
        assert(p_func_loop(sc, vars, f, k, t, 3, seq![plain(a)]).1 is Err);
        assert(p_func_loop(sc, vars, f, k, t, 2, Seq::empty()).1 is Err);
        assert(p_primary(sc, vars, t, 0).1 is Err);
        assert(p_unary(sc, vars, t, 0).1 is Err);
        assert(p_exp(sc, vars, t, 0).1 is Err);
        assert(p_mul(sc, vars, t, 0).1 is Err);
        assert(p_expr(sc, vars, t, 0).1 is Err);
        assert(p_assign(sc, vars, t, 0).1 is Err);
    }
}

/// Units in `[ ]` after a number belong to that number: `a [u]`, for a
/// free name `u`, parses as `a` with the units `u` (and `u` becomes a known
/// name if it was not).
pub proof fn law_units_bracket(sc: Scope, vars: Seq<Seq<char>>, a: i128, u: Seq<char>)
    requires
        free_name(sc, u),
    ensures
        spec_parse(
            sc,
            vars,
            seq![
                TokenView::Num(a),
                TokenView::Op(TokenOp::SqBracketLeft),
                TokenView::Ident(u),
                TokenView::Op(TokenOp::SqBracketRight),
            ],
        ) == (
            if vars.contains(u) {
                vars
            } else {
                vars.push(u)
            },
            Ok::<NodeView, ErrorView>(
                NodeView::Num(
                    a,
                    Box::new(NodeView::Units(Box::new(NodeView::Var(TokenView::Ident(u))))),
                ),
            ),
        ),
{
    let t = seq![
        TokenView::Num(a),
        TokenView::Op(TokenOp::SqBracketLeft),
        TokenView::Ident(u),
        TokenView::Op(TokenOp::SqBracketRight),
    ];
    let v1 = if vars.contains(u) {
        vars
    } else {
        vars.push(u)
    };
    let var = NodeView::Var(TokenView::Ident(u));
    let units = NodeView::Units(Box::new(var));
    let num = NodeView::Num(a, Box::new(units));
    assert(p_primary(sc, vars, t, 2) == (v1, Ok::<(NodeView, int), ErrorView>((var, 3int))));
    assert(p_unary(sc, vars, t, 2) == (v1, Ok::<(NodeView, int), ErrorView>((var, 3int))));
    assert(t[3] != TokenView::Op(TokenOp::Caret));
    assert(p_exp(sc, vars, t, 2) == (v1, Ok::<(NodeView, int), ErrorView>((var, 3int))));
    assert(p_mul(sc, vars, t, 2) == (v1, Ok::<(NodeView, int), ErrorView>((var, 3int))));
    assert(p_expr(sc, vars, t, 2) == (v1, Ok::<(NodeView, int), ErrorView>((var, 3int))));
    assert(p_units_loop(sc, v1, t, 3, var) == (v1, Ok::<(NodeView, int), ErrorView>((units, 3int))));
    assert(p_units_loop(sc, vars, t, 2, NodeView::Empty) == (v1, Ok::<(NodeView, int), ErrorView>((units, 3int))));
    assert(p_postfix(t, 0) == (false, SiPrefix::One, false, 0int));
    assert(p_units(sc, vars, t, 0) == (v1, Ok::<(NodeView, int), ErrorView>((units, 3int))));
    assert(p_num(sc, vars, t, 0) == (v1, Ok::<(NodeView, int), ErrorView>((num, 4int))));
    assert(p_primary(sc, vars, t, 0) == (v1, Ok::<(NodeView, int), ErrorView>((num, 4int))));
    assert(p_unary(sc, vars, t, 0) == (v1, Ok::<(NodeView, int), ErrorView>((num, 4int))));
    assert(p_exp(sc, vars, t, 0) == (v1, Ok::<(NodeView, int), ErrorView>((num, 4int))));
    assert(p_mul(sc, vars, t, 0) == (v1, Ok::<(NodeView, int), ErrorView>((num, 4int))));
    assert(p_expr(sc, vars, t, 0) == (v1, Ok::<(NodeView, int), ErrorView>((num, 4int))));
    assert(p_assign(sc, vars, t, 0) == (v1, Ok::<(NodeView, int), ErrorView>((num, 4int))));
}

// ----------------------------------------------------------------------
// Parentheses
/// `x` holds no parenthesis.
pub open spec fn no_parens(x: Seq<char>) -> bool {
    forall|k: int| 0 <= k < x.len() ==> #[trigger] x[k] != '(' && x[k] != ')'
}

proof fn lemma_close_skip(s: Seq<char>, pos: int, q: int, count: int)
    requires
        0 <= pos <= q <= s.len(),
        forall|k: int| pos <= k < q ==> #[trigger] s[k] != '(' && s[k] != ')',
    ensures
        scan_close(s, pos, count) == scan_close(s, q, count),
    decreases q - pos,
{
    if pos < q {
        lemma_close_skip(s, pos + 1, q, count);
    }
}

proof fn lemma_open_skip(s: Seq<char>, pos: int, q: int, count: int)
    requires
        0 <= q <= pos < s.len(),
        forall|k: int| q < k <= pos ==> #[trigger] s[k] != '(' && s[k] != ')',
    ensures
        scan_open(s, pos, count) == scan_open(s, q, count),
    decreases pos - q,
{
    if q < pos {
        lemma_open_skip(s, pos - 1, q, count);
    }
}

/// A parenthesis finds its partner: in `(b)` the two match each other, and
/// in `(a(b)c)` (with `a`, `b`, `c` free of parentheses) the outer pair
/// match each other and so do the inner pair.
pub proof fn law_paren_match(a: Seq<char>, b: Seq<char>, c: Seq<char>)
    requires
        no_parens(a),
        no_parens(b),
        no_parens(c),
    ensures
        ({
            let s1 = seq!['('] + b + seq![')'];
            &&& match_paren(s1, 0) == Some((b.len() + 1) as int)
            &&& match_paren(s1, (b.len() + 1) as int) == Some(0int)
        }),
        ({
            let s2 = seq!['('] + a + seq!['('] + b + seq![')'] + c + seq![')'];
            let i = (a.len() + 1) as int;
            let j = (a.len() + b.len() + 2) as int;
            let e = (s2.len() - 1) as int;
            &&& match_paren(s2, 0) == Some(e)
            &&& match_paren(s2, e) == Some(0int)
            &&& match_paren(s2, i) == Some(j)
            &&& match_paren(s2, j) == Some(i)
        }),
{
    let s1 = seq!['('] + b + seq![')'];
    let n1 = b.len() as int + 1;
    assert forall|k: int| 1 <= k < n1 implies #[trigger] s1[k] != '(' && s1[k] != ')' by {
        assert(s1[k] == b[k - 1]);
    }
    assert(s1[0] == '(' && s1[n1] == ')');
    lemma_close_skip(s1, 1, n1, 0);
    lemma_open_skip(s1, n1 - 1, 0, 0);

    let s2 = seq!['('] + a + seq!['('] + b + seq![')'] + c + seq![')'];
    let i = (a.len() + 1) as int;
    let j = (a.len() + b.len() + 2) as int;
    let e = (s2.len() - 1) as int;
    assert(e == j + c.len() + 1);
    assert(s2[0] == '(' && s2[i] == '(' && s2[j] == ')' && s2[e] == ')');
    assert forall|k: int| 1 <= k < i implies #[trigger] s2[k] != '(' && s2[k] != ')' by {
        assert(s2[k] == a[k - 1]);
    }
    assert forall|k: int| i < k < j implies #[trigger] s2[k] != '(' && s2[k] != ')' by {
        assert(s2[k] == b[k - i - 1]);
    }
    assert forall|k: int| j < k < e implies #[trigger] s2[k] != '(' && s2[k] != ')' by {
        assert(s2[k] == c[k - j - 1]);
    }
    lemma_close_skip(s2, 1, i, 0);
    lemma_close_skip(s2, i + 1, j, 1);
    lemma_close_skip(s2, j + 1, e, 0);
    lemma_close_skip(s2, i + 1, j, 0);
    lemma_open_skip(s2, e - 1, j, 0);
    lemma_open_skip(s2, j - 1, i, 1);
    lemma_open_skip(s2, i - 1, 0, 0);
    lemma_open_skip(s2, j - 1, i, 0);
}

// ----------------------------------------------------------------------
// Enter
/// Enter submits the line and starts an empty one.  A line that mentions
/// `history` or `exit`, or is empty, is not recorded; a nonempty line
/// without `h` and `x` (so mentioning neither) becomes the newest history
/// entry, and the history position moves past it.
pub proof fn law_enter(s: EdState, a: Seq<char>, b: Seq<char>)
    ensures
        key_step_spec(s, Key::Enter).1 == ActionView::Submit(s.line),
        key_step_spec(s, Key::Enter).0.line == Seq::<char>::empty(),
        key_step_spec(s, Key::Enter).0.cur == 0,
        (s.line.len() == 0 || s.line == a + "history"@ + b || s.line == a + "exit"@ + b) ==> (
            key_step_spec(s, Key::Enter).0.hist == s.hist && key_step_spec(s, Key::Enter).0.hidx == s.hidx
        ),
        (s.line.len() > 0 && forall|i: int| 0 <= i < s.line.len() ==> #[trigger] s.line[i] != 'h'
            && s.line[i] != 'x') ==> (
            key_step_spec(s, Key::Enter).0.hist == s.hist.push(s.line)
            && key_step_spec(s, Key::Enter).0.hidx == s.hist.len() + 1
        ),
{
    reveal_strlit("history");
    reveal_strlit("exit");
    let l = s.line;
    if l == a + "history"@ + b {
        assert(l.subrange(a.len() as int, (a.len() + 7) as int) =~= "history"@);
        assert(contains_text(l, "history"@));
    }
    if l == a + "exit"@ + b {
        assert(l.subrange(a.len() as int, (a.len() + 4) as int) =~= "exit"@);
        assert(contains_text(l, "exit"@));
    }
    if l.len() > 0 && forall|i: int| 0 <= i < l.len() ==> #[trigger] l[i] != 'h' && l[i] != 'x' {
        assert(!contains_text(l, "history"@)) by {
            if contains_text(l, "history"@) {
                let i = choose|i: int| 0 <= i && i + 7 <= l.len() && #[trigger] l.subrange(i, i + 7) == "history"@;
                assert(l.subrange(i, i + 7)[0] == l[i]);
            }
        }
        assert(!contains_text(l, "exit"@)) by {
            if contains_text(l, "exit"@) {
                let i = choose|i: int| 0 <= i && i + 4 <= l.len() && #[trigger] l.subrange(i, i + 4) == "exit"@;
                assert(l.subrange(i, i + 4)[1] == l[i + 1]);
            }
        }
    }
}

// ----------------------------------------------------------------------
// Cursor keys
/// Right then Left puts the cursor back, when it was before the end; the
/// line stays.
pub proof fn law_right_then_left(s: EdState)
    requires
        0 <= s.cur < byte_len(s.line),
    ensures
        key_step_spec(key_step_spec(s, Key::Right).0, Key::Left).0 == s,
{
}

/// Delete removes what Right then Backspace removes, and leaves the cursor
/// where Right then Backspace leaves it: the character that starts at the
/// cursor.
pub proof fn law_delete_is_right_backspace(s: EdState)
    requires
        0 <= s.cur < byte_len(s.line),
        char_at_byte(s.line, s.cur) is Some,
    ensures
        key_step_spec(s, Key::Delete).0 == key_step_spec(key_step_spec(s, Key::Right).0, Key::Backspace).0,
        key_step_spec(s, Key::Delete).0.line.len() + 1 == s.line.len(),
{
    let k = char_at_byte(s.line, s.cur).unwrap();
    assert(0 <= k <= s.line.len() && byte_pos(s.line, k) == s.cur);
    assert(k != s.line.len());
}

// ----------------------------------------------------------------------
// Identifiers and digit separators
/// A letter, `_` or digit: a character of a name.
pub open spec fn name_char(c: char) -> bool {
    ('a' <= c && c <= 'z') || ('A' <= c && c <= 'Z') || c == '_' || ('0' <= c && c <= '9')
}

proof fn lemma_ident_to_end(s: Seq<char>, j: int)
    requires
        0 <= j <= s.len(),
        forall|i: int| 0 <= i < s.len() ==> #[trigger] name_char(s[i]),
    ensures
        ident_end(s, j) == s.len(),
    decreases s.len() - j,
{
    if j < s.len() {
        assert(name_char(s[j]));
        lemma_ident_to_end(s, j + 1);
    }
}

/// A name (letters, digits and `_`, not starting with a digit) lexes as one
/// identifier token holding the whole name.
pub proof fn law_identifier(s: Seq<char>)
    requires
        s.len() > 0,
        forall|i: int| 0 <= i < s.len() ==> #[trigger] name_char(s[i]),
        !('0' <= s[0] && s[0] <= '9'),
    ensures
        spec_lexer(s) == Ok::<Seq<TokenView>, ErrorView>(seq![TokenView::Ident(s)]),
{
    assert(name_char(s[0]));
    lemma_ident_to_end(s, 0);
    assert(s.subrange(0, s.len() as int) =~= s);
    assert(lex_from(s, s.len() as int, seq![TokenView::Ident(s)]) == Ok::<Seq<TokenView>, ErrorView>(seq![TokenView::Ident(s)]));
    assert(seq![TokenView::Ident(s)] =~= Seq::<TokenView>::empty().push(TokenView::Ident(s)));
}

/// The digits of `d` with the `_` separators taken out.
pub open spec fn without_separators(d: Seq<char>) -> Seq<char>
    decreases d.len(),
{
    if d.len() == 0 {
        Seq::empty()
    } else if d[0] == '_' {
        without_separators(d.drop_first())
    } else {
        seq![d[0]] + without_separators(d.drop_first())
    }
}

/// Every character of `d` is a digit below `r` or `_`.
pub open spec fn digits_or_separators(d: Seq<char>, r: int) -> bool {
    forall|i: int| 0 <= i < d.len() ==> #[trigger] digit_below(d[i], r) || d[i] == '_'
}

proof fn lemma_without_separators_digits(d: Seq<char>, r: int)
    requires
        digits_or_separators(d, r),
    ensures
        all_digits(without_separators(d), r),
    decreases d.len(),
{
    if d.len() > 0 {
        let t = d.drop_first();
        assert forall|i: int| 0 <= i < t.len() implies #[trigger] digit_below(t[i], r) || t[i] == '_' by {
            assert(t[i] == d[i + 1]);
        }
        lemma_without_separators_digits(t, r);
        let w = without_separators(t);
        if d[0] != '_' {
            assert(digit_below(d[0], r) || d[0] == '_');
            let v = seq![d[0]] + w;
            assert forall|i: int| 0 <= i < v.len() implies #[trigger] digit_below(v[i], r) by {
                if i > 0 {
                    assert(v[i] == w[i - 1]);
                }
            }
        }
    }
}

proof fn lemma_run_separated(chars: Seq<char>, j: int, mant: Seq<char>, err: Seq<char>, r: int)
    requires
        2 <= r <= 16,
        0 <= j <= chars.len(),
        forall|i: int| j <= i < chars.len() ==> #[trigger] digit_below(chars[i], r) || chars[i] == '_',
    ensures
        hex_run(chars, j, mant, err) == (
            mant + without_separators(chars.skip(j)),
            err + without_separators(chars.skip(j)),
            chars.len() as int,
        ),
    decreases chars.len() - j,
{
    if j < chars.len() {
        let t = chars.skip(j);
        assert(t[0] == chars[j]);
        assert(t.drop_first() =~= chars.skip(j + 1));
        if chars[j] == '_' {
            assert(!is_hex_char('_'));
            lemma_run_separated(chars, j + 1, mant, err, r);
        } else {
            assert(digit_below(chars[j], r) || chars[j] == '_');
            lemma_digit_value(chars[j], r);
            lemma_run_separated(chars, j + 1, mant.push(chars[j]), err.push(chars[j]), r);
            assert(mant.push(chars[j]) + without_separators(chars.skip(j + 1)) =~= mant + without_separators(t));
            assert(err.push(chars[j]) + without_separators(chars.skip(j + 1)) =~= err + without_separators(t));
        }
    } else {
        assert(chars.skip(j) =~= Seq::<char>::empty());
        assert(mant + Seq::<char>::empty() =~= mant);
        assert(err + Seq::<char>::empty() =~= err);
    }
}

proof fn lemma_scan_separated(chars: Seq<char>, j: int, mant: Seq<char>)
    requires
        0 <= j <= chars.len(),
        forall|i: int| j <= i < chars.len() ==> #[trigger] digit_below(chars[i], 10) || chars[i] == '_',
    ensures
        num_scan(chars, j, mant, false) == (
            mant + without_separators(chars.skip(j)),
            Seq::<char>::empty(),
            false,
            false,
            chars.len() as int,
        ),
    decreases chars.len() - j,
{
    if j < chars.len() {
        let t = chars.skip(j);
        assert(t[0] == chars[j]);
        assert(t.drop_first() =~= chars.skip(j + 1));
        if chars[j] == '_' {
            lemma_scan_separated(chars, j + 1, mant);
        } else {
            assert(digit_below(chars[j], 10) || chars[j] == '_');
            lemma_scan_separated(chars, j + 1, mant.push(chars[j]));
            assert(mant.push(chars[j]) + without_separators(chars.skip(j + 1)) =~= mant + without_separators(t));
        }
    } else {
        assert(chars.skip(j) =~= Seq::<char>::empty());
        assert(mant + Seq::<char>::empty() =~= mant);
    }
}

/// `_` separates digits without changing the number: a decimal literal that
/// starts with a digit other than `0` and holds digits and `_` lexes as the
/// value of its digits.
pub proof fn law_decimal_separators(d: Seq<char>)
    requires
        d.len() > 0,
        digits_or_separators(d, 10),
        '1' <= d[0] && d[0] <= '9',
        value_in(without_separators(d), 10) <= i128::MAX,
    ensures
        spec_lexer(d) == Ok::<Seq<TokenView>, ErrorView>(
            seq![TokenView::Num(value_in(without_separators(d), 10) as i128)],
        ),
{
    let w = without_separators(d);
    lemma_scan_separated(d, 0, Seq::empty());
    assert(d.skip(0) =~= d);
    assert(Seq::<char>::empty() + w =~= w);
    lemma_without_separators_digits(d, 10);
    assert(w.len() > 0 && w[0] == d[0]);
    lemma_parse_digits_plain(w, 10, w.len());
    assert(w.take(w.len() as int) =~= w);
    let v = value_in(w, 10);
    assert(spec_tok_num(d, 0) == Ok::<(TokenView, int), ErrorView>((TokenView::Num(v as i128), d.len() as int)));
    assert(lex_from(d, d.len() as int, seq![TokenView::Num(v as i128)]) == Ok::<Seq<TokenView>, ErrorView>(seq![TokenView::Num(v as i128)]));
    assert(seq![TokenView::Num(v as i128)] =~= Seq::<TokenView>::empty().push(TokenView::Num(v as i128)));
}

/// `_` separates hexadecimal digits without changing the number: `0x` and
/// hexadecimal digits (either case) and `_` lex as the value of the digits.
pub proof fn law_hex_separators(d: Seq<char>)
    requires
        digits_or_separators(d, 16),
        value_in(without_separators(d), 16) <= i128::MAX,
    ensures
        spec_lexer(seq!['0', 'x'] + d) == Ok::<Seq<TokenView>, ErrorView>(
            seq![TokenView::Num(value_in(without_separators(d), 16) as i128)],
        ),
{
    let p = seq!['0', 'x'];
    let chars = p + d;
    let w = without_separators(d);
    assert forall|i: int| p.len() <= i < chars.len() implies #[trigger] digit_below(chars[i], 16) || chars[i] == '_' by {
        assert(chars[i] == d[i - 2]);
    }
    lemma_run_separated(chars, 2, seq!['0'], p, 16);
    assert(chars.skip(2) =~= d);
    lemma_without_separators_digits(d, 16);
    lemma_parse_zero_digits(w, 16, w.len());
    assert(w.take(w.len() as int) =~= w);
    assert(chars[0] == '0');
    assert(chars[1] == 'x');
    let v = value_in(w, 16);
    assert(seq!['0', chars[1]] == p);
    assert(radix_literal(chars, 16, 2, p) == Ok::<(TokenView, int), ErrorView>((TokenView::Num(v as i128), chars.len() as int)));
    assert(spec_tok_num_int(chars, 1) == radix_literal(chars, 16, 2, p));
    assert(spec_tok_num(chars, 0) == spec_tok_num_int(chars, 1));
    assert(lex_from(chars, chars.len() as int, seq![TokenView::Num(v as i128)]) == Ok::<Seq<TokenView>, ErrorView>(seq![TokenView::Num(v as i128)]));
    assert(seq![TokenView::Num(v as i128)] =~= Seq::<TokenView>::empty().push(TokenView::Num(v as i128)));
}

} // verus!
