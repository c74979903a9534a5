//! Integers written by the output formatter read back through the lexer:
//! the digits, the radix prefix and the `_` separators it writes are what
//! the lexer takes for the same number.
use vstd::prelude::*;

use crate::env::{formatted_num, grouped};
use crate::lexer::{
    digit_value, hex_run, is_dec_digit, is_hex_char, lex_from, num_scan, parse_digits,
    parse_digits_prefix, spec_lexer, spec_tok_num, spec_tok_num_int, TokenOp, TokenView,
};
use crate::strings::{digit_char, digit_chars, int_text, radix_digits};

verus! {

/// `s` without its `_` characters.
pub open spec fn strip(s: Seq<char>) -> Seq<char>
    decreases s.len(),
{
    if s.len() == 0 {
        Seq::empty()
    } else if s.last() == '_' {
        strip(s.drop_last())
    } else {
        strip(s.drop_last()).push(s.last())
    }
}

proof fn lemma_strip_append(a: Seq<char>, b: Seq<char>)
    ensures
        strip(a + b) == strip(a) + strip(b),
    decreases b.len(),
{
    if b.len() == 0 {
        assert(a + b =~= a);
        assert(strip(b) =~= Seq::<char>::empty());
        assert(strip(a) + strip(b) =~= strip(a));
    } else {
        assert((a + b).drop_last() =~= a + b.drop_last());
        assert((a + b).last() == b.last());
        lemma_strip_append(a, b.drop_last());
        if b.last() == '_' {
        } else {
            assert(strip(a) + strip(b.drop_last()).push(b.last()) =~= (strip(a) + strip(
                b.drop_last(),
            )).push(b.last()));
        }
    }
}

proof fn lemma_strip_plain(s: Seq<char>)
    requires
        forall|k: int| 0 <= k < s.len() ==> #[trigger] s[k] != '_',
    ensures
        strip(s) == s,
    decreases s.len(),
{
    if s.len() > 0 {
        assert forall|k: int| 0 <= k < s.drop_last().len() implies #[trigger] s.drop_last()[k]
            != '_' by {
            assert(s.drop_last()[k] == s[k]);
        }
        lemma_strip_plain(s.drop_last());
        assert(s.drop_last().push(s.last()) =~= s);
    }
}

proof fn lemma_strip_underscore()
    ensures
        strip(seq!['_']) == Seq::<char>::empty(),
{
    let u = seq!['_'];
    assert(u.last() == '_');
    assert(u.drop_last() =~= Seq::<char>::empty());
    assert(strip(Seq::<char>::empty()) == Seq::<char>::empty());
}

/// Grouping with `_` separators leaves the other characters in order.
proof fn lemma_strip_grouped(x: Seq<char>, n: nat)
    ensures
        strip(grouped(x, seq!['_'], n)) == strip(x),
    decreases x.len(),
{
    if !(n == 0 || x.len() <= n) {
        let a = x.take(x.len() - n);
        let b = x.skip(x.len() - n);
        lemma_strip_grouped(a, n);
        lemma_strip_append(grouped(a, seq!['_'], n), seq!['_']);
        lemma_strip_append(grouped(a, seq!['_'], n) + seq!['_'], b);
        lemma_strip_underscore();
        lemma_strip_append(a, b);
        assert(a + b =~= x);
    }
}

/// A digit of radix ten (`dec`) or sixteen.
pub open spec fn digit_of(c: char, dec: bool) -> bool {
    if dec {
        is_dec_digit(c)
    } else {
        is_hex_char(c)
    }
}

/// When every character from position `from` on is a digit, every
/// character of the grouped text from `from` on is a digit or `_`.
proof fn lemma_grouped_chars(x: Seq<char>, n: nat, dec: bool, from: int)
    requires
        0 <= from <= 1,
        forall|k: int| from <= k < x.len() ==> digit_of(#[trigger] x[k], dec),
    ensures
        forall|k: int|
            from <= k < grouped(x, seq!['_'], n).len() ==> digit_of(
                #[trigger] grouped(x, seq!['_'], n)[k],
                dec,
            ) || grouped(x, seq!['_'], n)[k] == '_',
        grouped(x, seq!['_'], n).len() >= x.len(),
    decreases x.len(),
{
    if !(n == 0 || x.len() <= n) {
        let a = x.take(x.len() - n);
        let b = x.skip(x.len() - n);
        assert forall|k: int| from <= k < a.len() implies digit_of(#[trigger] a[k], dec) by {
            assert(a[k] == x[k]);
        }
        lemma_grouped_chars(a, n, dec, from);
        let g = grouped(a, seq!['_'], n);
        let t = g + seq!['_'] + b;
        assert forall|k: int| from <= k < t.len() implies digit_of(#[trigger] t[k], dec) || t[k]
            == '_' by {
            if k < g.len() {
                assert(t[k] == g[k]);
            } else if k == g.len() {
            } else {
                assert(t[k] == b[k - g.len() - 1]);
                assert(b[k - g.len() - 1] == x[x.len() - n + (k - g.len() - 1)]);
            }
        }
    }
}

/// The first group of a grouped text is the start of the text.
proof fn lemma_grouped_start(x: Seq<char>, n: nat, k: int)
    requires
        n > 0,
        0 <= k < x.len(),
        k <= (x.len() - 1) % (n as int),
    ensures
        k < grouped(x, seq!['_'], n).len(),
        grouped(x, seq!['_'], n)[k] == x[k],
    decreases x.len(),
{
    if x.len() > n {
        let a = x.take(x.len() - n);
        assert((x.len() - 1) % (n as int) == (a.len() - 1) % (n as int)) by {
            vstd::arithmetic::div_mod::lemma_mod_sub_multiples_vanish(x.len() - 1, n as int);
        }
        let al = a.len() as int;
        assert((al - 1) % (n as int) <= al - 1) by (nonlinear_arith)
            requires
                al >= 1,
                n > 0,
        ;
        lemma_grouped_start(a, n, k);
        assert(a[k] == x[k]);
    }
}

// ----------------------------------------------------------------------
// Digits
proof fn lemma_digit_value_of_char(d: nat, r: nat)
    requires
        d < r <= 16,
    ensures
        digit_value(digit_char(d), r as int) == Some(d as int),
        is_hex_char(digit_char(d)),
        d > 0 ==> digit_char(d) != '0',
        digit_char(d) != '_',
        is_dec_digit(digit_char(d)) == (d < 10),
{
    let cs = digit_chars();
    if d == 0 { assert(cs[0] == '0'); }
    else if d == 1 { assert(cs[1] == '1'); }
    else if d == 2 { assert(cs[2] == '2'); }
    else if d == 3 { assert(cs[3] == '3'); }
    else if d == 4 { assert(cs[4] == '4'); }
    else if d == 5 { assert(cs[5] == '5'); }
    else if d == 6 { assert(cs[6] == '6'); }
    else if d == 7 { assert(cs[7] == '7'); }
    else if d == 8 { assert(cs[8] == '8'); }
    else if d == 9 { assert(cs[9] == '9'); }
    else if d == 10 { assert(cs[10] == 'a'); }
    else if d == 11 { assert(cs[11] == 'b'); }
    else if d == 12 { assert(cs[12] == 'c'); }
    else if d == 13 { assert(cs[13] == 'd'); }
    else if d == 14 { assert(cs[14] == 'e'); }
    else { assert(cs[15] == 'f'); }
}

pub(crate) proof fn lemma_radix_digits_chars(n: nat, r: nat)
    requires
        2 <= r <= 16,
    ensures
        radix_digits(n, r).len() >= 1,
        forall|k: int|
            0 <= k < radix_digits(n, r).len() ==> is_hex_char(#[trigger] radix_digits(n, r)[k])
                && radix_digits(n, r)[k] != '_' && (r <= 10 ==> is_dec_digit(radix_digits(n, r)[k])),
        n > 0 ==> radix_digits(n, r)[0] != '0',
    decreases n,
{
    if n < r {
        lemma_digit_value_of_char(n, r);
    } else {
        assert(n / r < n && n % r < r && n / r > 0) by (nonlinear_arith)
            requires
                2 <= r,
                r <= n,
        ;
        lemma_radix_digits_chars(n / r, r);
        lemma_digit_value_of_char(n % r, r);
        let p = radix_digits(n / r, r);
        assert(radix_digits(n, r) == p.push(digit_char(n % r)));
        assert forall|k: int| 0 <= k < radix_digits(n, r).len() implies is_hex_char(
            #[trigger] radix_digits(n, r)[k],
        ) && radix_digits(n, r)[k] != '_' && (r <= 10 ==> is_dec_digit(radix_digits(n, r)[k])) by {
            if k < p.len() {
                assert(radix_digits(n, r)[k] == p[k]);
            }
        }
        assert(radix_digits(n, r)[0] == p[0]);
    }
}

proof fn lemma_parse_prefix_push(s: Seq<char>, x: char, r: int, k: nat)
    requires
        k <= s.len(),
    ensures
        parse_digits_prefix(s.push(x), r, k) == parse_digits_prefix(s, r, k),
    decreases k,
{
    if k > 0 {
        lemma_parse_prefix_push(s, x, r, (k - 1) as nat);
        assert(s.push(x)[k - 1] == s[k - 1]);
    }
}

proof fn lemma_parse_prefix_zero(t: Seq<char>, r: int, k: nat)
    requires
        2 <= r <= 16,
        k <= t.len(),
    ensures
        parse_digits_prefix(seq!['0'] + t, r, k + 1) == parse_digits_prefix(t, r, k),
    decreases k,
{
    let z = seq!['0'] + t;
    if k == 0 {
        assert(z[0] == '0');
        assert(digit_value('0', r) == Some(0int));
        assert(parse_digits_prefix(z, r, 0) == Ok::<int, crate::IntErrorKind>(0));
        assert(0 * r + 0 == 0);
        assert(parse_digits_prefix(z, r, 1) == match parse_digits_prefix(z, r, 0) {
            Err(e) => Err(e),
            Ok(v) => match digit_value(z[0], r) {
                None => Err(crate::IntErrorKind::InvalidDigit),
                Some(d) => if v * r + d <= i128::MAX {
                    Ok(v * r + d)
                } else {
                    Err(crate::IntErrorKind::PosOverflow)
                },
            },
        });
        assert(parse_digits_prefix(z, r, 1) == Ok::<int, crate::IntErrorKind>(0));
        assert(parse_digits_prefix(t, r, 0) == Ok::<int, crate::IntErrorKind>(0));
    } else {
        lemma_parse_prefix_zero(t, r, (k - 1) as nat);
        assert(z[k as int] == t[k - 1]);
        assert(parse_digits_prefix(z, r, k + 1) == match parse_digits_prefix(z, r, k) {
            Err(e) => Err(e),
            Ok(v) => match digit_value(z[k as int], r) {
                None => Err(crate::IntErrorKind::InvalidDigit),
                Some(d) => if v * r + d <= i128::MAX {
                    Ok(v * r + d)
                } else {
                    Err(crate::IntErrorKind::PosOverflow)
                },
            },
        });
    }
}

/// The digits of `n` in radix `r` read back as `n`.
proof fn lemma_parse_radix_digits(n: nat, r: nat)
    requires
        2 <= r <= 16,
        n <= i128::MAX,
    ensures
        parse_digits(radix_digits(n, r), r as int) == Ok::<int, crate::IntErrorKind>(n as int),
    decreases n,
{
    let s = radix_digits(n, r);
    if n < r {
        lemma_digit_value_of_char(n, r);
        assert(s == seq![digit_char(n)]);
        assert(parse_digits_prefix(s, r as int, 0) == Ok::<int, crate::IntErrorKind>(0));
        assert(s[0] == digit_char(n));
        assert(0 * (r as int) + n == n);
        assert(parse_digits_prefix(s, r as int, 1) == Ok::<int, crate::IntErrorKind>(n as int));
    } else {
        assert(n / r < n && n % r < r && (n / r) * r + n % r == n) by (nonlinear_arith)
            requires
                2 <= r,
                r <= n,
        ;
        let p = radix_digits(n / r, r);
        lemma_radix_digits_chars(n / r, r);
        lemma_parse_radix_digits(n / r, r);
        lemma_digit_value_of_char(n % r, r);
        assert(s == p.push(digit_char(n % r)));
        lemma_parse_prefix_push(p, digit_char(n % r), r as int, p.len());
        assert(s[s.len() - 1] == digit_char(n % r));
        assert(parse_digits_prefix(p, r as int, p.len()) == Ok::<int, crate::IntErrorKind>(
            (n / r) as int,
        ));
        assert(parse_digits_prefix(s, r as int, p.len()) == Ok::<int, crate::IntErrorKind>(
            (n / r) as int,
        ));
        assert(s.len() == p.len() + 1);
        assert(parse_digits_prefix(s, r as int, s.len()) == Ok::<int, crate::IntErrorKind>(
            n as int,
        ));
    }
}

// ----------------------------------------------------------------------
// Scanning digits
proof fn lemma_strip_front(c: char, rest: Seq<char>)
    ensures
        strip(seq![c] + rest) == if c == '_' {
            strip(rest)
        } else {
            seq![c] + strip(rest)
        },
{
    lemma_strip_append(seq![c], rest);
    let one = seq![c];
    assert(one.drop_last() =~= Seq::<char>::empty());
    assert(strip(Seq::<char>::empty()) == Seq::<char>::empty());
    if c != '_' {
        assert(strip(one) =~= seq![c]);
    } else {
        assert(strip(one) =~= Seq::<char>::empty());
    }
    assert(Seq::<char>::empty() + strip(rest) =~= strip(rest));
}

proof fn lemma_num_scan_run(chars: Seq<char>, j: int, mant: Seq<char>)
    requires
        0 <= j <= chars.len(),
        forall|k: int| j <= k < chars.len() ==> is_dec_digit(#[trigger] chars[k]) || chars[k] == '_',
    ensures
        num_scan(chars, j, mant, false) == (
            mant + strip(chars.skip(j)),
            Seq::<char>::empty(),
            false,
            false,
            chars.len() as int,
        ),
    decreases chars.len() - j,
{
    if j == chars.len() {
        assert(chars.skip(j) =~= Seq::<char>::empty());
        assert(strip(Seq::<char>::empty()) == Seq::<char>::empty());
        assert(mant + Seq::<char>::empty() =~= mant);
    } else {
        let c = chars[j];
        assert(chars.skip(j) =~= seq![c] + chars.skip(j + 1));
        lemma_strip_front(c, chars.skip(j + 1));
        if c == '_' {
            lemma_num_scan_run(chars, j + 1, mant);
        } else {
            lemma_num_scan_run(chars, j + 1, mant.push(c));
            assert(mant.push(c) + strip(chars.skip(j + 1)) =~= mant + (seq![c] + strip(
                chars.skip(j + 1),
            )));
        }
    }
}

proof fn lemma_hex_run_all(chars: Seq<char>, j: int, mant: Seq<char>, err: Seq<char>)
    requires
        0 <= j <= chars.len(),
        forall|k: int| j <= k < chars.len() ==> is_hex_char(#[trigger] chars[k]) || chars[k] == '_',
    ensures
        hex_run(chars, j, mant, err).0 == mant + strip(chars.skip(j)),
        hex_run(chars, j, mant, err).2 == chars.len(),
    decreases chars.len() - j,
{
    if j == chars.len() {
        assert(chars.skip(j) =~= Seq::<char>::empty());
        assert(strip(Seq::<char>::empty()) == Seq::<char>::empty());
        assert(mant + Seq::<char>::empty() =~= mant);
    } else {
        let c = chars[j];
        assert(chars.skip(j) =~= seq![c] + chars.skip(j + 1));
        lemma_strip_front(c, chars.skip(j + 1));
        if is_hex_char(c) {
            lemma_hex_run_all(chars, j + 1, mant.push(c), err.push(c));
            assert(mant.push(c) + strip(chars.skip(j + 1)) =~= mant + (seq![c] + strip(
                chars.skip(j + 1),
            )));
        } else {
            lemma_hex_run_all(chars, j + 1, mant, err);
        }
    }
}

/// The digits written, grouped or not.
pub open spec fn group_digits(t: Seq<char>, sep: usize) -> Seq<char> {
    if sep == 0 {
        t
    } else {
        grouped(t, seq!['_'], sep as nat)
    }
}

proof fn lemma_group_digits(t: Seq<char>, sep: usize, dec: bool, from: int)
    requires
        0 <= from <= 1,
        t.len() >= 1,
        forall|k: int| from <= k < t.len() ==> digit_of(#[trigger] t[k], dec),
        forall|k: int| 0 <= k < t.len() ==> #[trigger] t[k] != '_',
    ensures
        group_digits(t, sep).len() >= t.len(),
        group_digits(t, sep)[0] == t[0],
        strip(group_digits(t, sep)) == t,
        forall|k: int|
            from <= k < group_digits(t, sep).len() ==> digit_of(
                #[trigger] group_digits(t, sep)[k],
                dec,
            ) || group_digits(t, sep)[k] == '_',
{
    lemma_strip_plain(t);
    if sep > 0 {
        lemma_grouped_chars(t, sep as nat, dec, from);
        lemma_strip_grouped(t, sep as nat);
        assert(0 <= (t.len() - 1) % (sep as int)) by (nonlinear_arith)
            requires
                sep > 0,
        ;
        lemma_grouped_start(t, sep as nat, 0);
    }
}

proof fn lemma_lexes_decimal(n: i128, sep: usize)
    requires
        n >= 0,
    ensures
        spec_lexer(group_digits(radix_digits(n as nat, 10), sep)) == Ok::<
            Seq<TokenView>,
            crate::ErrorView,
        >(seq![TokenView::Num(n)]),
{
    let e: Seq<TokenView> = Seq::empty();
    let t = radix_digits(n as nat, 10);
    lemma_radix_digits_chars(n as nat, 10);
    lemma_parse_radix_digits(n as nat, 10);
    assert forall|k: int| 0 <= k < t.len() implies digit_of(#[trigger] t[k], true) by {}
    assert forall|k: int| 0 <= k < t.len() implies #[trigger] t[k] != '_' by {}
    lemma_group_digits(t, sep, true, 0);
    let text = group_digits(t, sep);
    assert(is_dec_digit(text[0]));
    if n == 0 {
        assert(t == seq!['0']);
        assert(text =~= seq!['0']);
        assert(spec_tok_num(text, 0) == Ok::<(TokenView, int), crate::ErrorView>(
            (TokenView::Num(0), 1),
        ));
        assert(lex_from(text, 0, e) == lex_from(text, 1, e.push(TokenView::Num(0))));
        assert(e.push(TokenView::Num(0)) =~= seq![TokenView::Num(n)]);
    } else {
        assert(text[0] != '0');
        assert forall|k: int| 0 <= k < text.len() implies is_dec_digit(#[trigger] text[k])
            || text[k] == '_' by {
            assert(digit_of(text[k], true) || text[k] == '_');
        }
        lemma_num_scan_run(text, 0, Seq::empty());
        assert(text.skip(0) =~= text);
        assert(Seq::<char>::empty() + strip(text) =~= t);
        assert(spec_tok_num(text, 0) == Ok::<(TokenView, int), crate::ErrorView>(
            (TokenView::Num(n), text.len() as int),
        ));
        assert(lex_from(text, 0, e) == lex_from(text, text.len() as int, e.push(TokenView::Num(n))));
        assert(e.push(TokenView::Num(n)) =~= seq![TokenView::Num(n)]);
    }
}

proof fn lemma_lexes_prefixed(n: i128, sep: usize, r: nat, mark: char)
    requires
        n >= 0,
        (r == 16 && mark == 'x') || (r == 2 && mark == 'b'),
    ensures
        spec_lexer(seq!['0', mark] + group_digits(radix_digits(n as nat, r), sep)) == Ok::<
            Seq<TokenView>,
            crate::ErrorView,
        >(seq![TokenView::Num(n)]),
{
    let e: Seq<TokenView> = Seq::empty();
    let t = radix_digits(n as nat, r);
    lemma_radix_digits_chars(n as nat, r);
    lemma_parse_radix_digits(n as nat, r);
    assert forall|k: int| 0 <= k < t.len() implies digit_of(#[trigger] t[k], false) by {}
    assert forall|k: int| 0 <= k < t.len() implies #[trigger] t[k] != '_' by {}
    lemma_group_digits(t, sep, false, 0);
    let g = group_digits(t, sep);
    let text = seq!['0', mark] + g;
    assert(text[0] == '0' && text[1] == mark);
    assert(text.skip(2) =~= g);
    assert forall|k: int| 2 <= k < text.len() implies is_hex_char(#[trigger] text[k]) || text[k]
        == '_' by {
        assert(text[k] == g[k - 2]);
        assert(digit_of(g[k - 2], false) || g[k - 2] == '_');
    }
    lemma_hex_run_all(text, 2, seq!['0'], seq!['0', mark]);
    lemma_parse_prefix_zero(t, r as int, t.len());
    assert(seq!['0'] + strip(text.skip(2)) =~= seq!['0'] + t);
    assert(parse_digits(seq!['0'] + t, r as int) == Ok::<int, crate::IntErrorKind>(n as int));
    assert(spec_tok_num_int(text, 1) == Ok::<(TokenView, int), crate::ErrorView>(
        (TokenView::Num(n), text.len() as int),
    ));
    assert(spec_tok_num(text, 0) == Ok::<(TokenView, int), crate::ErrorView>(
        (TokenView::Num(n), text.len() as int),
    ));
    assert(lex_from(text, 0, e) == lex_from(text, text.len() as int, e.push(TokenView::Num(n))));
    assert(e.push(TokenView::Num(n)) =~= seq![TokenView::Num(n)]);
}

proof fn lemma_lexes_negative(n: i128, sep: usize)
    requires
        i128::MIN < n < 0,
        sep == 0 || (radix_digits((-n) as nat, 10).len() as int) % (sep as int) != 0,
    ensures
        spec_lexer(group_digits(int_text(n as int), sep)) == Ok::<Seq<TokenView>, crate::ErrorView>(
            seq![TokenView::Op(TokenOp::Minus), TokenView::Num((-n) as i128)],
        ),
{
    let e: Seq<TokenView> = Seq::empty();
    let m: nat = (-n) as nat;
    let d = radix_digits(m, 10);
    let t = seq!['-'] + d;
    assert(int_text(n as int) == t);
    lemma_radix_digits_chars(m, 10);
    lemma_parse_radix_digits(m, 10);
    assert forall|k: int| 1 <= k < t.len() implies digit_of(#[trigger] t[k], true) by {
        assert(t[k] == d[k - 1]);
    }
    assert forall|k: int| 0 <= k < t.len() implies #[trigger] t[k] != '_' by {
        if k > 0 {
            assert(t[k] == d[k - 1]);
        }
    }
    lemma_group_digits(t, sep, true, 1);
    let g = group_digits(t, sep);
    // the sign is followed by the first digit
    if sep > 0 {
        assert(1 <= (t.len() - 1) % (sep as int));
        lemma_grouped_start(t, sep as nat, 1);
    }
    assert(g[1] == t[1]);
    assert(t[1] == d[0]);
    assert(g[0] == '-');
    assert(g =~= seq![g[0]] + g.skip(1));
    lemma_strip_front('-', g.skip(1));
    assert(strip(g.skip(1)) =~= d) by {
        assert(seq!['-'] + strip(g.skip(1)) == seq!['-'] + d);
        assert(strip(g.skip(1)) =~= (seq!['-'] + strip(g.skip(1))).skip(1));
        assert(d =~= (seq!['-'] + d).skip(1));
    }
    assert forall|k: int| 1 <= k < g.len() implies is_dec_digit(#[trigger] g[k]) || g[k] == '_' by {
        assert(digit_of(g[k], true) || g[k] == '_');
    }
    lemma_num_scan_run(g, 1, Seq::empty());
    assert(Seq::<char>::empty() + strip(g.skip(1)) =~= d);
    assert(spec_tok_num(g, 1) == Ok::<(TokenView, int), crate::ErrorView>(
        (TokenView::Num(m as i128), g.len() as int),
    ));
    let e1 = e.push(TokenView::Op(TokenOp::Minus));
    assert(lex_from(g, 0, e) == lex_from(g, 1, e1));
    assert(lex_from(g, 1, e1) == lex_from(g, g.len() as int, e1.push(TokenView::Num(m as i128))));
    assert(e1.push(TokenView::Num(m as i128)) =~= seq![
        TokenView::Op(TokenOp::Minus),
        TokenView::Num((-n) as i128),
    ]);
}

/// An integer the formatter writes is read back by the lexer as the same
/// number: in radix two and sixteen (with their prefixes) when it is not
/// negative, in decimal as a minus sign and the magnitude when it is
/// negative (unless grouping puts a separator right after the sign, or the
/// magnitude does not fit); `_` separators are skipped.
pub proof fn lemma_formatted_num_lexes(radix: u8, sep: usize, n: i128)
    requires
        n >= 0 || (radix != 2 && radix != 16 && n > i128::MIN && (sep == 0 || (radix_digits(
            (-n) as nat,
            10,
        ).len() as int) % (sep as int) != 0)),
    ensures
        spec_lexer(formatted_num(radix, sep, n as int)) == Ok::<Seq<TokenView>, crate::ErrorView>(
            if n >= 0 {
                seq![TokenView::Num(n)]
            } else {
                seq![TokenView::Op(TokenOp::Minus), TokenView::Num((-n) as i128)]
            },
        ),
{
    let text = formatted_num(radix, sep, n as int);
    if n >= 0 {
        if radix == 2 {
            assert(text =~= seq!['0', 'b'] + group_digits(radix_digits(n as nat, 2), sep));
            lemma_lexes_prefixed(n, sep, 2, 'b');
        } else if radix == 16 {
            assert(text =~= seq!['0', 'x'] + group_digits(radix_digits(n as nat, 16), sep));
            lemma_lexes_prefixed(n, sep, 16, 'x');
        } else {
            assert(text =~= group_digits(radix_digits(n as nat, 10), sep));
            lemma_lexes_decimal(n, sep);
        }
    } else {
        assert(text =~= group_digits(int_text(n as int), sep));
        lemma_lexes_negative(n, sep);
    }
}

} // verus!
