//! Character sequences and the textual form of integers and strings.
use vstd::prelude::*;

use crate::lexer::is_ident_char;
use vstd::std_specs::iter::IteratorSpec;

verus! {

/// The characters of `s`, in order.
pub(crate) fn chars_of(s: &str) -> (v: Vec<char>)
    ensures
        v@ == s@,
{
    broadcast use vstd::string::axiom_spec_iter, vstd::string::next_postcondition;

    let mut it = s.chars();
    let mut v: Vec<char> = Vec::new();
    loop
        invariant
            v@ + it.remaining() == s@,
            it.obeys_prophetic_iter_laws(),
            it.decrease() is Some,
        ensures
            v@ == s@,
        decreases it.decrease()->0,
    {
        let ghost before = it.remaining();
        match it.next() {
            Some(c) => {
                v.push(c);
                assert(v@ + it.remaining() =~= s@);
            },
            None => {
                assert(v@ + it.remaining() == v@ + before);
                assert(before.len() == 0);
                assert(v@ + before =~= v@);
                break;
            },
        }
    }
    v
}

/// The string made of the characters of `v`, in order.
///
/// Trusted: `<String as FromIterator<&char>>::from_iter`, which the
/// standard library documents as appending every character the iterator
/// yields, in order; the slice's iterator yields its elements in order.
#[verifier::external_body]
pub(crate) fn string_from_chars(v: &[char]) -> (s: String)
    ensures
        s@ == v@,
{
    String::from_iter(v.iter())
}

/// The text the standard library's `Debug` writes for a string.
pub uninterp spec fn debug_str(s: Seq<char>) -> Seq<char>;

/// Trusted: `<str as Debug>::fmt` (through `format!("{:?}", s)`), which the
/// standard library documents as the string in double quotes with special
/// characters escaped; letters, digits and `_` are never escaped.  Beyond
/// that case the text is only named.
#[verifier::external_body]
pub(crate) fn debug_string(s: &str) -> (r: String)
    ensures
        r@ == debug_str(s@),
        (forall|i: int| 0 <= i < s@.len() ==> is_ident_char(#[trigger] s@[i])) ==> r@ == seq![
            '"',
        ] + s@ + seq!['"'],
{
    format!("{:?}", s)
}

/// The digit characters used for bases up to sixteen, lower case.
pub open spec fn digit_chars() -> Seq<char> {
    seq!['0', '1', '2', '3', '4', '5', '6', '7', '8', '9', 'a', 'b', 'c', 'd', 'e', 'f']
}

/// The digit character for a value below sixteen.
pub open spec fn digit_char(d: nat) -> char {
    digit_chars()[d as int]
}

/// The digits of `n` written in base `r`, most significant first, without
/// leading zeros (`0` is written as one digit).
pub open spec fn radix_digits(n: nat, r: nat) -> Seq<char>
    recommends
        2 <= r <= 16,
    decreases n,
{
    if r < 2 || n < r {
        seq![digit_char(n)]
    } else {
        proof {
            assert(n / r < n) by (nonlinear_arith)
                requires
                    2 <= r,
                    r <= n,
            ;
        }
        radix_digits(n / r, r).push(digit_char(n % r))
    }
}

/// The decimal text of an integer, with a leading `-` for negative values.
pub open spec fn int_text(n: int) -> Seq<char> {
    if n < 0 {
        seq!['-'] + radix_digits((-n) as nat, 10)
    } else {
        radix_digits(n as nat, 10)
    }
}

proof fn lemma_div_smaller(n: u128, r: u128)
    requires
        2 <= r,
        r <= n,
    ensures
        n / r < n,
        n % r < r,
{
    assert(n / r < n) by (nonlinear_arith)
        requires
            2 <= r,
            r <= n,
    ;
}

fn digit_char_exec(d: u128) -> (c: char)
    requires
        d < 16,
    ensures
        c == digit_char(d as nat),
{
    match d {
        0 => '0',
        1 => '1',
        2 => '2',
        3 => '3',
        4 => '4',
        5 => '5',
        6 => '6',
        7 => '7',
        8 => '8',
        9 => '9',
        10 => 'a',
        11 => 'b',
        12 => 'c',
        13 => 'd',
        14 => 'e',
        _ => 'f',
    }
}

/// Appends the base-`r` digits of `n` to `out`.
pub(crate) fn push_radix_digits(n: u128, r: u128, out: &mut Vec<char>)
    requires
        2 <= r <= 16,
    ensures
        final(out)@ == old(out)@ + radix_digits(n as nat, r as nat),
    decreases n,
{
    if n >= r {
        proof {
            lemma_div_smaller(n, r);
        }
        push_radix_digits(n / r, r, out);
    }
    let c = digit_char_exec(n % r);
    out.push(c);
    proof {
        reveal_with_fuel(radix_digits, 2);
        if n >= r {
            assert(radix_digits(n as nat, r as nat) == radix_digits((n / r) as nat, r as nat).push(
                c,
            ));
        } else {
            assert(n % r == n) by (nonlinear_arith)
                requires
                    n < r,
            ;
            assert(radix_digits(n as nat, r as nat) == seq![c]);
        }
        assert(final(out)@ =~= old(out)@ + radix_digits(n as nat, r as nat));
    }
}

/// Appends the decimal text of `n` to `out`.
pub(crate) fn push_int_text(n: i128, out: &mut Vec<char>)
    ensures
        final(out)@ == old(out)@ + int_text(n as int),
{
    if n < 0 {
        out.push('-');
        let m: i128 = -(n + 1);
        let mag: u128 = (m as u128) + 1;
        assert(mag as int == -(n as int));
        push_radix_digits(mag, 10, out);
        assert(final(out)@ =~= old(out)@ + int_text(n as int));
    } else {
        push_radix_digits(n as u128, 10, out);
    }
}

/// Appends the characters of `s` to `out`.
pub(crate) fn push_str(out: &mut Vec<char>, s: &str)
    ensures
        final(out)@ == old(out)@ + s@,
{
    let v = chars_of(s);
    push_all(out, &v);
}

/// Appends all characters of `s` to `out`.
pub(crate) fn push_all(out: &mut Vec<char>, s: &[char])
    ensures
        final(out)@ == old(out)@ + s@,
{
    let mut i: usize = 0;
    while i < s.len()
        invariant
            0 <= i <= s.len(),
            out@ == old(out)@ + s@.subrange(0, i as int),
        decreases s.len() - i,
    {
        out.push(s[i]);
        i = i + 1;
        assert(out@ =~= old(out)@ + s@.subrange(0, i as int));
    }
    assert(s@.subrange(0, s.len() as int) =~= s@);
}

} // verus!
