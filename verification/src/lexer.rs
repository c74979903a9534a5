//! The lexer: one input line to a sequence of tokens.
//!
//! A floating point literal is kept as the exact text that denotes it (for
//! example `1.1e-2`); the lexer checks that the text follows the decimal
//! float grammar of the standard library, so that converting it to a float
//! cannot fail.
use vstd::prelude::*;

use crate::strings::{
    chars_of, debug_str, debug_string, int_text, push_all, push_int_text, push_str,
    string_from_chars,
};
use crate::{ErrorView, FloatErrorKind, IntErrorKind, MyError};

verus! {

/// Operators and punctuation.
#[derive(Debug, Clone, Copy, PartialEq, Eq, Structural)]
pub enum TokenOp {
    Plus,
    Minus,
    Mul,
    Div,
    Mod,
    Para,
    ParenLeft,
    ParenRight,
    Caret,
    Comma,
    Equal,
    SqBracketLeft,
    SqBracketRight,
    NoOp,
}

/// A token of the input line.  `FNum` holds the text of a float literal.
#[derive(Debug, Clone, PartialEq)]
pub enum Token {
    Num(i128),
    FNum(String),
    Op(TokenOp),
    Ident(String),
}

/// The mathematical content of a `Token`.
pub enum TokenView {
    Num(i128),
    FNum(Seq<char>),
    Op(TokenOp),
    Ident(Seq<char>),
}

impl View for Token {
    type V = TokenView;

    open spec fn view(&self) -> TokenView {
        match self {
            Token::Num(n) => TokenView::Num(*n),
            Token::FNum(s) => TokenView::FNum(s@),
            Token::Op(o) => TokenView::Op(*o),
            Token::Ident(s) => TokenView::Ident(s@),
        }
    }
}

impl Token {
    /// A copy of the token.
    pub fn duplicate(&self) -> (t: Token)
        ensures
            t@ == self@,
    {
        match self {
            Token::Num(n) => Token::Num(*n),
            Token::FNum(s) => Token::FNum(s.clone()),
            Token::Op(o) => Token::Op(*o),
            Token::Ident(s) => Token::Ident(s.clone()),
        }
    }
}

pub open spec fn tokens_view(s: Seq<Token>) -> Seq<TokenView> {
    s.map_values(|t: Token| t@)
}

pub open spec fn tok_result_view(r: Result<(Token, usize), MyError>) -> Result<(TokenView, int), ErrorView> {
    match r {
        Ok((t, i)) => Ok((t@, i as int)),
        Err(e) => Err(e@),
    }
}

pub open spec fn lex_result_view(r: Result<Vec<Token>, MyError>) -> Result<Seq<TokenView>, ErrorView> {
    match r {
        Ok(v) => Ok(tokens_view(v@)),
        Err(e) => Err(e@),
    }
}

// ----------------------------------------------------------------------
// Tokens in error messages
/// The name `Debug` writes for an operator (`NoOp` is written `None`).
pub open spec fn op_name(o: TokenOp) -> Seq<char> {
    match o {
        TokenOp::Plus => "Plus"@,
        TokenOp::Minus => "Minus"@,
        TokenOp::Mul => "Mul"@,
        TokenOp::Div => "Div"@,
        TokenOp::Mod => "Mod"@,
        TokenOp::Para => "Para"@,
        TokenOp::ParenLeft => "ParenLeft"@,
        TokenOp::ParenRight => "ParenRight"@,
        TokenOp::Caret => "Caret"@,
        TokenOp::Comma => "Comma"@,
        TokenOp::Equal => "Equal"@,
        TokenOp::SqBracketLeft => "SqBracketLeft"@,
        TokenOp::SqBracketRight => "SqBracketRight"@,
        TokenOp::NoOp => "None"@,
    }
}

/// A token as error messages show it, in the form of `Debug`; a float
/// literal shows its text.
pub open spec fn token_text(t: TokenView) -> Seq<char> {
    match t {
        TokenView::Num(n) => "Num("@ + int_text(n as int) + ")"@,
        TokenView::FNum(s) => "FNum("@ + s + ")"@,
        TokenView::Op(o) => "Op("@ + op_name(o) + ")"@,
        TokenView::Ident(s) => "Ident("@ + debug_str(s) + ")"@,
    }
}

/// The tokens as error messages show them, separated by `, `.
pub open spec fn token_items(tok: Seq<TokenView>) -> Seq<char>
    decreases tok.len(),
{
    if tok.len() == 0 {
        Seq::empty()
    } else if tok.len() == 1 {
        token_text(tok[0])
    } else {
        token_items(tok.drop_last()) + ", "@ + token_text(tok.last())
    }
}

/// The token list as error messages show it: `[Num(1), Op(Plus)]`.
pub open spec fn tokens_text(tok: Seq<TokenView>) -> Seq<char> {
    "["@ + token_items(tok) + "]"@
}

/// Appends the `Debug` name of `o`.
fn push_op_name(out: &mut Vec<char>, o: TokenOp)
    ensures
        final(out)@ == old(out)@ + op_name(o),
{
    match o {
        TokenOp::Plus => push_str(out, "Plus"),
        TokenOp::Minus => push_str(out, "Minus"),
        TokenOp::Mul => push_str(out, "Mul"),
        TokenOp::Div => push_str(out, "Div"),
        TokenOp::Mod => push_str(out, "Mod"),
        TokenOp::Para => push_str(out, "Para"),
        TokenOp::ParenLeft => push_str(out, "ParenLeft"),
        TokenOp::ParenRight => push_str(out, "ParenRight"),
        TokenOp::Caret => push_str(out, "Caret"),
        TokenOp::Comma => push_str(out, "Comma"),
        TokenOp::Equal => push_str(out, "Equal"),
        TokenOp::SqBracketLeft => push_str(out, "SqBracketLeft"),
        TokenOp::SqBracketRight => push_str(out, "SqBracketRight"),
        TokenOp::NoOp => push_str(out, "None"),
    }
}

/// Appends the text of `t` in error messages.
fn push_token_text(out: &mut Vec<char>, t: &Token)
    ensures
        final(out)@ == old(out)@ + token_text(t@),
{
    let ghost o0 = out@;
    match t {
        Token::Num(n) => {
            push_str(out, "Num(");
            push_int_text(*n, out);
        },
        Token::FNum(s) => {
            push_str(out, "FNum(");
            let cs = chars_of(s.as_str());
            push_all(out, &cs);
        },
        Token::Op(o) => {
            push_str(out, "Op(");
            push_op_name(out, *o);
        },
        Token::Ident(s) => {
            push_str(out, "Ident(");
            let d = debug_string(s.as_str());
            let cs = chars_of(d.as_str());
            push_all(out, &cs);
        },
    }
    push_str(out, ")");
    assert(out@ =~= o0 + token_text(t@));
}

/// Appends the text of a token list in error messages.
pub(crate) fn push_tokens_text(out: &mut Vec<char>, tok: &[Token])
    ensures
        final(out)@ == old(out)@ + tokens_text(tokens_view(tok@)),
{
    let ghost o0 = out@;
    let ghost tv = tokens_view(tok@);
    push_str(out, "[");
    let mut i: usize = 0;
    while i < tok.len()
        invariant
            0 <= i <= tok.len(),
            tv == tokens_view(tok@),
            out@ == o0 + "["@ + token_items(tv.take(i as int)),
        decreases tok.len() - i,
    {
        let ghost before = out@;
        if i > 0 {
            push_str(out, ", ");
        }
        push_token_text(out, &tok[i]);
        proof {
            let t1 = tv.take(i + 1);
            assert(t1.drop_last() =~= tv.take(i as int));
            assert(t1.last() == tok@[i as int]@);
            if i == 0 {
                assert(tv.take(0) =~= Seq::<TokenView>::empty());
            }
        }
        i = i + 1;
        assert(out@ =~= o0 + "["@ + token_items(tv.take(i as int)));
    }
    push_str(out, "]");
    assert(tv.take(tok.len() as int) =~= tv);
    assert(out@ =~= o0 + tokens_text(tv));
}

// ----------------------------------------------------------------------
// Character classes
pub open spec fn is_dec_digit(c: char) -> bool {
    '0' <= c && c <= '9'
}

pub open spec fn is_lower(c: char) -> bool {
    'a' <= c && c <= 'z'
}

pub open spec fn is_upper(c: char) -> bool {
    'A' <= c && c <= 'Z'
}

pub open spec fn is_hex_char(c: char) -> bool {
    is_dec_digit(c) || ('a' <= c && c <= 'f') || ('A' <= c && c <= 'F')
}

pub open spec fn is_ident_start(c: char) -> bool {
    is_lower(c) || is_upper(c) || c == '_'
}

pub open spec fn is_ident_char(c: char) -> bool {
    is_ident_start(c) || is_dec_digit(c)
}

fn is_dec_digit_exec(c: char) -> (b: bool)
    ensures
        b == is_dec_digit(c),
{
    '0' <= c && c <= '9'
}

fn is_hex_char_exec(c: char) -> (b: bool)
    ensures
        b == is_hex_char(c),
{
    ('0' <= c && c <= '9') || ('a' <= c && c <= 'f') || ('A' <= c && c <= 'F')
}

fn is_ident_start_exec(c: char) -> (b: bool)
    ensures
        b == is_ident_start(c),
{
    ('a' <= c && c <= 'z') || ('A' <= c && c <= 'Z') || c == '_'
}

fn is_ident_char_exec(c: char) -> (b: bool)
    ensures
        b == is_ident_char(c),
{
    ('a' <= c && c <= 'z') || ('A' <= c && c <= 'Z') || c == '_' || ('0' <= c && c <= '9')
}

// ----------------------------------------------------------------------
// Integer values of digit strings
/// The value of a digit in a radix (letters count from ten), if it is one.
pub open spec fn digit_value(c: char, radix: int) -> Option<int> {
    let v = if is_dec_digit(c) {
        c as int - '0' as int
    } else if is_lower(c) {
        c as int - 'a' as int + 10
    } else if is_upper(c) {
        c as int - 'A' as int + 10
    } else {
        36
    };
    if v < radix {
        Some(v)
    } else {
        None
    }
}

/// Reads the first `n` characters of `s` as digits in `radix`, left to right;
/// the first invalid digit or the first value above `i128::MAX` stops it.
pub open spec fn parse_digits_prefix(s: Seq<char>, radix: int, n: nat) -> Result<int, IntErrorKind>
    decreases n,
{
    if n == 0 {
        Ok(0)
    } else {
        match parse_digits_prefix(s, radix, (n - 1) as nat) {
            Err(k) => Err(k),
            Ok(v) => match digit_value(s[n - 1], radix) {
                None => Err(IntErrorKind::InvalidDigit),
                Some(d) => if v * radix + d <= i128::MAX {
                    Ok(v * radix + d)
                } else {
                    Err(IntErrorKind::PosOverflow)
                },
            },
        }
    }
}

/// The value of a string of digits in `radix`, as an `i128`.
pub open spec fn parse_digits(s: Seq<char>, radix: int) -> Result<int, IntErrorKind> {
    if s.len() == 0 {
        Err(IntErrorKind::Empty)
    } else {
        parse_digits_prefix(s, radix, s.len())
    }
}

proof fn lemma_parse_prefix_range(s: Seq<char>, radix: int, n: nat)
    requires
        2 <= radix,
        n <= s.len(),
    ensures
        parse_digits_prefix(s, radix, n) matches Ok(v) ==> 0 <= v <= i128::MAX,
    decreases n,
{
    if n > 0 {
        lemma_parse_prefix_range(s, radix, (n - 1) as nat);
        if let Ok(v) = parse_digits_prefix(s, radix, (n - 1) as nat) {
            assert(v * radix >= 0) by (nonlinear_arith)
                requires
                    v >= 0,
                    radix >= 2,
            ;
        }
    }
}

proof fn lemma_parse_err_sticky(s: Seq<char>, radix: int, n: nat, m: nat)
    requires
        n <= m,
        parse_digits_prefix(s, radix, n) is Err,
    ensures
        parse_digits_prefix(s, radix, m) == parse_digits_prefix(s, radix, n),
    decreases m,
{
    if m > n {
        lemma_parse_err_sticky(s, radix, n, (m - 1) as nat);
    }
}

fn digit_value_exec(c: char, radix: u32) -> (r: Option<u32>)
    requires
        2 <= radix <= 16,
    ensures
        match r {
            Some(d) => digit_value(c, radix as int) == Some(d as int),
            None => digit_value(c, radix as int) is None,
        },
{
    let v: u32 = if '0' <= c && c <= '9' {
        (c as u32) - ('0' as u32)
    } else if 'a' <= c && c <= 'z' {
        (c as u32) - ('a' as u32) + 10
    } else if 'A' <= c && c <= 'Z' {
        (c as u32) - ('A' as u32) + 10
    } else {
        36
    };
    if v < radix {
        Some(v)
    } else {
        None
    }
}

fn parse_digits_exec(s: &[char], radix: u32) -> (r: Result<i128, IntErrorKind>)
    requires
        2 <= radix <= 16,
    ensures
        match r {
            Ok(v) => parse_digits(s@, radix as int) == Ok::<int, IntErrorKind>(v as int),
            Err(k) => parse_digits(s@, radix as int) == Err::<int, IntErrorKind>(k),
        },
{
    if s.len() == 0 {
        return Err(IntErrorKind::Empty);
    }
    let mut v: i128 = 0;
    let mut k: usize = 0;
    while k < s.len()
        invariant
            2 <= radix <= 16,
            0 < s.len(),
            0 <= k <= s.len(),
            0 <= v,
            parse_digits_prefix(s@, radix as int, k as nat) == Ok::<int, IntErrorKind>(v as int),
        decreases s.len() - k,
    {
        let d = digit_value_exec(s[k], radix);
        match d {
            None => {
                proof {
                    assert(parse_digits_prefix(s@, radix as int, (k + 1) as nat) == Err::<
                        int,
                        IntErrorKind,
                    >(IntErrorKind::InvalidDigit));
                    lemma_parse_err_sticky(s@, radix as int, (k + 1) as nat, s.len() as nat);
                }
                return Err(IntErrorKind::InvalidDigit);
            },
            Some(dv) => {
                let r: i128 = radix as i128;
                match v.checked_mul(r) {
                    None => {
                        proof {
                            assert(v * radix + dv > i128::MAX);
                            assert(parse_digits_prefix(s@, radix as int, (k + 1) as nat) == Err::<
                                int,
                                IntErrorKind,
                            >(IntErrorKind::PosOverflow));
                            lemma_parse_err_sticky(
                                s@,
                                radix as int,
                                (k + 1) as nat,
                                s.len() as nat,
                            );
                        }
                        return Err(IntErrorKind::PosOverflow);
                    },
                    Some(vm) => {
                        match vm.checked_add(dv as i128) {
                            None => {
                                proof {
                                    assert(parse_digits_prefix(
                                        s@,
                                        radix as int,
                                        (k + 1) as nat,
                                    ) == Err::<int, IntErrorKind>(IntErrorKind::PosOverflow));
                                    lemma_parse_err_sticky(
                                        s@,
                                        radix as int,
                                        (k + 1) as nat,
                                        s.len() as nat,
                                    );
                                }
                                return Err(IntErrorKind::PosOverflow);
                            },
                            Some(nv) => {
                                assert(nv >= 0) by (nonlinear_arith)
                                    requires
                                        v >= 0,
                                        r >= 2,
                                        vm == v * r,
                                        nv == vm + dv,
                                        dv >= 0,
                                ;
                                v = nv;
                            },
                        }
                    },
                }
            },
        }
        k = k + 1;
    }
    Ok(v)
}

// ----------------------------------------------------------------------
// Scanners
/// The end of the run of decimal digits that starts at `j`.
pub open spec fn digits_end(chars: Seq<char>, j: int) -> int
    decreases chars.len() - j,
{
    if 0 <= j < chars.len() && is_dec_digit(chars[j]) {
        digits_end(chars, j + 1)
    } else {
        j
    }
}

proof fn lemma_digits_end(chars: Seq<char>, j: int)
    requires
        0 <= j <= chars.len(),
    ensures
        j <= digits_end(chars, j) <= chars.len(),
        forall|k: int| j <= k < digits_end(chars, j) ==> is_dec_digit(#[trigger] chars[k]),
    decreases chars.len() - j,
{
    if j < chars.len() && is_dec_digit(chars[j]) {
        lemma_digits_end(chars, j + 1);
    }
}

/// `tok_get_num`: a `-` or a digit, then the digits that follow it.
pub open spec fn spec_tok_get_num(chars: Seq<char>, i: int) -> (Seq<char>, int) {
    if 0 <= i < chars.len() && (chars[i] == '-' || is_dec_digit(chars[i])) {
        let e = digits_end(chars, i + 1);
        (chars.subrange(i, e), e)
    } else {
        (Seq::empty(), i)
    }
}

fn get_num_chars(chars: &[char], index: usize) -> (r: (Vec<char>, usize))
    ensures
        r.0@ == spec_tok_get_num(chars@, index as int).0,
        r.1 as int == spec_tok_get_num(chars@, index as int).1,
{
    let mut ret: Vec<char> = Vec::new();
    if index < chars.len() {
        let c = chars[index];
        if c == '-' || is_dec_digit_exec(c) {
            ret.push(c);
            let mut i = index + 1;
            while i < chars.len() && is_dec_digit_exec(chars[i])
                invariant
                    index < i <= chars.len(),
                    ret@ == chars@.subrange(index as int, i as int),
                    digits_end(chars@, i as int) == digits_end(chars@, index + 1),
                decreases chars.len() - i,
            {
                ret.push(chars[i]);
                i = i + 1;
                assert(ret@ =~= chars@.subrange(index as int, i as int));
            }
            return (ret, i);
        }
    }
    assert(ret@ =~= Seq::<char>::empty());
    (ret, index)
}

/// Cuts a `-` or digit followed by digits out of `chars` at `index`.
pub fn tok_get_num(chars: &[char], index: usize) -> (r: (String, usize))
    ensures
        r.0@ == spec_tok_get_num(chars@, index as int).0,
        r.1 as int == spec_tok_get_num(chars@, index as int).1,
{
    let (v, i) = get_num_chars(chars, index);
    (string_from_chars(&v), i)
}

/// Collects hexadecimal characters, skipping `_`, from `j` on.
pub open spec fn hex_run(chars: Seq<char>, j: int, mant: Seq<char>, err: Seq<char>) -> (
    Seq<char>,
    Seq<char>,
    int,
)
    decreases chars.len() - j,
{
    if 0 <= j < chars.len() {
        if is_hex_char(chars[j]) {
            hex_run(chars, j + 1, mant.push(chars[j]), err.push(chars[j]))
        } else if chars[j] == '_' {
            hex_run(chars, j + 1, mant, err)
        } else {
            (mant, err, j)
        }
    } else {
        (mant, err, j)
    }
}

proof fn lemma_hex_run(chars: Seq<char>, j: int, mant: Seq<char>, err: Seq<char>)
    requires
        0 <= j <= chars.len(),
    ensures
        j <= hex_run(chars, j, mant, err).2 <= chars.len(),
    decreases chars.len() - j,
{
    if j < chars.len() {
        if is_hex_char(chars[j]) {
            lemma_hex_run(chars, j + 1, mant.push(chars[j]), err.push(chars[j]));
        } else if chars[j] == '_' {
            lemma_hex_run(chars, j + 1, mant, err);
        }
    }
}

/// The token of an integer literal whose digits (after a leading `0`) start at
/// `start`; `err` is the literal's text used in an error.
pub open spec fn radix_literal(chars: Seq<char>, radix: int, start: int, err: Seq<char>) -> Result<
    (TokenView, int),
    ErrorView,
> {
    let (m, e, j) = hex_run(chars, start, seq!['0'], err);
    match parse_digits(m, radix) {
        Ok(v) => Ok((TokenView::Num(v as i128), j)),
        Err(k) => Err(ErrorView::LexerIntError(e, k)),
    }
}

/// `tok_num_int`: the radix marker at `i` (`x` hexadecimal, `b` binary, an
/// octal digit octal) and the digits after it.
pub open spec fn spec_tok_num_int(chars: Seq<char>, i: int) -> Result<(TokenView, int), ErrorView> {
    if 0 <= i < chars.len() {
        let c = chars[i];
        if c == 'x' || c == 'X' {
            radix_literal(chars, 16, i + 1, seq!['0', c])
        } else if c == 'b' || c == 'B' {
            radix_literal(chars, 2, i + 1, seq!['0', c])
        } else if '0' <= c && c <= '7' {
            radix_literal(chars, 8, i, seq!['0'])
        } else {
            Ok((TokenView::Num(0), i))
        }
    } else {
        Ok((TokenView::Num(0), i))
    }
}

fn radix_literal_exec(chars: &[char], radix: u32, start: usize, err0: Vec<char>) -> (r: Result<
    (Token, usize),
    MyError,
>)
    requires
        2 <= radix <= 16,
        start <= chars.len(),
    ensures
        tok_result_view(r) == radix_literal(chars@, radix as int, start as int, err0@),
{
    let mut mant: Vec<char> = Vec::new();
    mant.push('0');
    let mut err = err0;
    let mut j = start;
    assert(mant@ =~= seq!['0']);
    while j < chars.len() && (is_hex_char_exec(chars[j]) || chars[j] == '_')
        invariant
            start <= j <= chars.len(),
            hex_run(chars@, j as int, mant@, err@) == hex_run(
                chars@,
                start as int,
                seq!['0'],
                err0@,
            ),
        decreases chars.len() - j,
    {
        if is_hex_char_exec(chars[j]) {
            mant.push(chars[j]);
            err.push(chars[j]);
        }
        j = j + 1;
    }
    let p = parse_digits_exec(&mant, radix);
    match p {
        Ok(v) => Ok((Token::Num(v), j)),
        Err(k) => Err(MyError::LexerIntError(string_from_chars(&err), k)),
    }
}

/// Eats an integer written in hexadecimal (`x`), binary (`b`) or octal,
/// starting at the character after the leading `0`.
pub fn tok_num_int(chars: &[char], index: usize) -> (r: Result<(Token, usize), MyError>)
    ensures
        tok_result_view(r) == spec_tok_num_int(chars@, index as int),
{
    if index < chars.len() {
        let c = chars[index];
        if c == 'x' || c == 'X' {
            let mut e: Vec<char> = Vec::new();
            e.push('0');
            e.push(c);
            assert(e@ =~= seq!['0', c]);
            return radix_literal_exec(chars, 16, index + 1, e);
        } else if c == 'b' || c == 'B' {
            let mut e: Vec<char> = Vec::new();
            e.push('0');
            e.push(c);
            assert(e@ =~= seq!['0', c]);
            return radix_literal_exec(chars, 2, index + 1, e);
        } else if '0' <= c && c <= '7' {
            let mut e: Vec<char> = Vec::new();
            e.push('0');
            assert(e@ =~= seq!['0']);
            return radix_literal_exec(chars, 8, index, e);
        }
    }
    Ok((Token::Num(0), index))
}

// ----------------------------------------------------------------------
// Decimal numbers and floats
/// Counts the occurrences of `c` in `s`.
pub open spec fn count_in(s: Seq<char>, c: char) -> nat
    decreases s.len(),
{
    if s.len() == 0 {
        0
    } else {
        count_in(s.drop_last(), c) + if s.last() == c {
            1nat
        } else {
            0nat
        }
    }
}

pub open spec fn is_sign(c: char) -> bool {
    c == '+' || c == '-'
}

pub open spec fn is_exp_mark(c: char) -> bool {
    c == 'e' || c == 'E'
}

/// The first index at or after `k` that holds `e` or `E`, or the length.
pub open spec fn exp_start(t: Seq<char>, k: int) -> int
    decreases t.len() - k,
{
    if 0 <= k < t.len() && !is_exp_mark(t[k]) {
        exp_start(t, k + 1)
    } else {
        k
    }
}

/// Digits with at most one `.`, and at least one digit.
pub open spec fn is_float_mantissa(m: Seq<char>) -> bool {
    &&& forall|k: int| 0 <= k < m.len() ==> is_dec_digit(#[trigger] m[k]) || m[k] == '.'
    &&& count_in(m, '.') <= 1
    &&& count_in(m, '.') < m.len()
}

/// `e` or `E`, an optional sign, and at least one digit.
pub open spec fn is_float_exponent(x: Seq<char>) -> bool {
    &&& x.len() >= 2
    &&& is_exp_mark(x[0])
    &&& {
        let q: int = if is_sign(x[1]) {
            2
        } else {
            1
        };
        q < x.len() && forall|k: int| q <= k < x.len() ==> is_dec_digit(#[trigger] x[k])
    }
}

/// The decimal float grammar of the standard library's `f64::from_str`:
/// an optional sign, a mantissa (`Digit+`, `Digit+ '.' Digit*` or
/// `Digit* '.' Digit+`) and an optional exponent (`e`, optional sign,
/// `Digit+`).  The named forms `inf`, `infinity` and `nan` are not decimal
/// literals and are not produced by the lexer.
pub open spec fn is_float_literal(t: Seq<char>) -> bool {
    let s: int = if t.len() > 0 && is_sign(t[0]) {
        1
    } else {
        0
    };
    let p = exp_start(t, s);
    &&& is_float_mantissa(t.subrange(s, p))
    &&& (p == t.len() || is_float_exponent(t.subrange(p, t.len() as int)))
}

proof fn lemma_exp_start(t: Seq<char>, k: int)
    requires
        0 <= k <= t.len(),
    ensures
        k <= exp_start(t, k) <= t.len(),
        exp_start(t, k) < t.len() ==> is_exp_mark(t[exp_start(t, k)]),
    decreases t.len() - k,
{
    if k < t.len() && !is_exp_mark(t[k]) {
        lemma_exp_start(t, k + 1);
    }
}

fn is_float_literal_exec(t: &[char]) -> (b: bool)
    ensures
        b == is_float_literal(t@),
{
    let ghost tv = t@;
    let s: usize = if t.len() > 0 && (t[0] == '+' || t[0] == '-') {
        1
    } else {
        0
    };
    let mut p: usize = s;
    while p < t.len() && !(t[p] == 'e' || t[p] == 'E')
        invariant
            tv == t@,
            s <= p <= t.len(),
            exp_start(tv, p as int) == exp_start(tv, s as int),
        decreases t.len() - p,
    {
        p = p + 1;
    }
    assert(exp_start(tv, p as int) == p);
    // the mantissa t[s..p]
    let mut k: usize = s;
    let mut dots: usize = 0;
    let mut ok = true;
    while k < p
        invariant
            tv == t@,
            s <= k <= p <= t.len(),
            dots as nat == count_in(tv.subrange(s as int, k as int), '.'),
            dots <= k - s,
            ok == (forall|q: int| s <= q < k ==> is_dec_digit(#[trigger] tv[q]) || tv[q] == '.'),
        decreases p - k,
    {
        let c = t[k];
        let ghost prev = tv.subrange(s as int, k as int);
        assert(tv.subrange(s as int, (k + 1) as int).drop_last() =~= prev);
        if c == '.' {
            dots = dots + 1;
        } else if !is_dec_digit_exec(c) {
            ok = false;
        }
        k = k + 1;
    }
    let m_ok = ok && dots <= 1 && dots < p - s;
    assert(m_ok == is_float_mantissa(tv.subrange(s as int, p as int))) by {
        let m = tv.subrange(s as int, p as int);
        assert(forall|q: int| 0 <= q < m.len() ==> m[q] == tv[q + s]);
        if ok {
            assert forall|q: int| 0 <= q < m.len() implies is_dec_digit(#[trigger] m[q]) || m[q]
                == '.' by {
                assert(m[q] == tv[q + s]);
            }
        } else {
            let w = choose|q: int| s <= q < p && !(is_dec_digit(#[trigger] tv[q]) || tv[q] == '.');
            assert(m[w - s] == tv[w]);
        }
    }
    if !m_ok {
        return false;
    }
    if p == t.len() {
        return true;
    }
    // the exponent t[p..]
    let ghost x = tv.subrange(p as int, tv.len() as int);
    if t.len() - p < 2 {
        return false;
    }
    let q: usize = if t[p + 1] == '+' || t[p + 1] == '-' {
        p + 2
    } else {
        p + 1
    };
    if q >= t.len() {
        return false;
    }
    let mut j: usize = q;
    let mut all = true;
    while j < t.len()
        invariant
            tv == t@,
            q <= j <= t.len(),
            all == (forall|w: int| q <= w < j ==> is_dec_digit(#[trigger] tv[w])),
        decreases t.len() - j,
    {
        if !is_dec_digit_exec(t[j]) {
            all = false;
        }
        j = j + 1;
    }
    assert(all == is_float_exponent(x)) by {
        assert(x[0] == tv[p as int]);
        assert(x[1] == tv[p + 1]);
        assert(forall|w: int| 0 <= w < x.len() ==> x[w] == tv[w + p]);
        if all {
            assert forall|w: int| (q - p) <= w < x.len() implies is_dec_digit(#[trigger] x[w]) by {
                assert(x[w] == tv[w + p]);
            }
        } else {
            let w = choose|w: int| q <= w < t.len() && !is_dec_digit(#[trigger] tv[w]);
            assert(x[w - p] == tv[w]);
        }
    }
    all
}

/// The state at the end of the scan of a decimal number: the mantissa text,
/// the exponent text, whether it is a float, whether it has an exponent, and
/// the index after it.
pub open spec fn num_scan(chars: Seq<char>, j: int, mant: Seq<char>, has_dot: bool) -> (
    Seq<char>,
    Seq<char>,
    bool,
    bool,
    int,
)
    decreases chars.len() - j,
{
    if 0 <= j < chars.len() {
        let c = chars[j];
        if is_dec_digit(c) {
            num_scan(chars, j + 1, mant.push(c), has_dot)
        } else if c == '_' {
            num_scan(chars, j + 1, mant, has_dot)
        } else if c == '.' {
            num_scan(chars, j + 1, mant.push('.'), true)
        } else if is_exp_mark(c) {
            if j + 1 < chars.len() {
                let (a, b) = spec_tok_get_num(chars, j + 1);
                (mant, a, true, true, b)
            } else {
                (mant, Seq::empty(), true, true, j + 1)
            }
        } else {
            (mant, Seq::empty(), has_dot, false, j)
        }
    } else {
        (mant, Seq::empty(), has_dot, false, j)
    }
}

proof fn lemma_num_scan(chars: Seq<char>, j: int, mant: Seq<char>, has_dot: bool)
    requires
        0 <= j <= chars.len(),
    ensures
        j <= num_scan(chars, j, mant, has_dot).4 <= chars.len(),
        j < chars.len() && (is_dec_digit(chars[j]) || chars[j] == '.' || chars[j] == '_'
            || is_exp_mark(chars[j])) ==> j < num_scan(chars, j, mant, has_dot).4,
    decreases chars.len() - j,
{
    if j < chars.len() {
        let c = chars[j];
        if is_dec_digit(c) {
            lemma_num_scan(chars, j + 1, mant.push(c), has_dot);
        } else if c == '_' {
            lemma_num_scan(chars, j + 1, mant, has_dot);
        } else if c == '.' {
            lemma_num_scan(chars, j + 1, mant.push('.'), true);
        } else if is_exp_mark(c) {
            if j + 1 < chars.len() {
                if chars[j + 1] == '-' || is_dec_digit(chars[j + 1]) {
                    lemma_digits_end(chars, j + 2);
                }
            }
        }
    }
}

/// The token for the end state of a decimal number scan.
pub open spec fn finish_num(scan: (Seq<char>, Seq<char>, bool, bool, int)) -> Result<
    (TokenView, int),
    ErrorView,
> {
    let (m, e, has_dot, has_exp, k) = scan;
    if !has_dot {
        match parse_digits(m, 10) {
            Ok(v) => Ok((TokenView::Num(v as i128), k)),
            Err(kind) => Err(ErrorView::LexerIntError(m, kind)),
        }
    } else {
        let text = if has_exp {
            m.push('e') + e
        } else {
            m
        };
        if is_float_literal(text) {
            Ok((TokenView::FNum(text), k))
        } else {
            Err(
                ErrorView::LexerFloatError(
                    text,
                    if text.len() == 0 {
                        FloatErrorKind::Empty
                    } else {
                        FloatErrorKind::Invalid
                    },
                ),
            )
        }
    }
}

/// `tok_num`: a number that starts at `i`; a leading `0` followed by a digit,
/// a hexadecimal letter or `x` is handed to `spec_tok_num_int`.
pub open spec fn spec_tok_num(chars: Seq<char>, i: int) -> Result<(TokenView, int), ErrorView> {
    if 0 <= i < chars.len() && chars[i] == '0' {
        if i + 1 < chars.len() {
            let c = chars[i + 1];
            if is_hex_char(c) || c == 'x' || c == 'X' {
                spec_tok_num_int(chars, i + 1)
            } else if c == '.' {
                finish_num(num_scan(chars, i + 2, seq!['0', '.'], true))
            } else {
                Ok((TokenView::Num(0), i + 1))
            }
        } else {
            Ok((TokenView::Num(0), i + 1))
        }
    } else {
        finish_num(num_scan(chars, i, Seq::empty(), false))
    }
}

fn finish_num_exec(
    mant: Vec<char>,
    exponent: Vec<char>,
    has_dot: bool,
    has_exp: bool,
    k: usize,
) -> (r: Result<(Token, usize), MyError>)
    ensures
        tok_result_view(r) == finish_num((mant@, exponent@, has_dot, has_exp, k as int)),
{
    if !has_dot {
        let p = parse_digits_exec(&mant, 10);
        match p {
            Ok(v) => {
                return Ok((Token::Num(v), k));
            },
            Err(kind) => {
                return Err(MyError::LexerIntError(string_from_chars(&mant), kind));
            },
        }
    }
    let mut text = mant;
    if has_exp {
        text.push('e');
        let ghost t0 = text@;
        push_all(&mut text, &exponent);
        assert(text@ == t0 + exponent@);
    }
    if is_float_literal_exec(&text) {
        Ok((Token::FNum(string_from_chars(&text)), k))
    } else {
        let kind = if text.len() == 0 {
            FloatErrorKind::Empty
        } else {
            FloatErrorKind::Invalid
        };
        Err(MyError::LexerFloatError(string_from_chars(&text), kind))
    }
}

fn num_scan_exec(chars: &[char], j0: usize, mant0: Vec<char>, has_dot0: bool) -> (r: Result<
    (Token, usize),
    MyError,
>)
    requires
        j0 <= chars.len(),
    ensures
        tok_result_view(r) == finish_num(num_scan(chars@, j0 as int, mant0@, has_dot0)),
{
    let ghost goal = num_scan(chars@, j0 as int, mant0@, has_dot0);
    let mut mant = mant0;
    let mut has_dot = has_dot0;
    let mut i = j0;
    while i < chars.len() && (is_dec_digit_exec(chars[i]) || chars[i] == '_' || chars[i] == '.')
        invariant
            j0 <= i <= chars.len(),
            num_scan(chars@, i as int, mant@, has_dot) == goal,
        decreases chars.len() - i,
    {
        let c = chars[i];
        if c == '.' {
            mant.push('.');
            has_dot = true;
        } else if c != '_' {
            mant.push(c);
        }
        i = i + 1;
    }
    if i < chars.len() && (chars[i] == 'e' || chars[i] == 'E') {
        if i + 1 < chars.len() {
            let (a, b) = get_num_chars(chars, i + 1);
            return finish_num_exec(mant, a, true, true, b);
        } else {
            let e: Vec<char> = Vec::new();
            assert(e@ =~= Seq::<char>::empty());
            return finish_num_exec(mant, e, true, true, i + 1);
        }
    }
    let e: Vec<char> = Vec::new();
    assert(e@ =~= Seq::<char>::empty());
    finish_num_exec(mant, e, has_dot, false, i)
}

/// Eats a number at `index`: an integer (decimal, or after a leading `0`
/// hexadecimal, binary or octal) or a float literal.
pub fn tok_num(chars: &[char], index: usize) -> (r: Result<(Token, usize), MyError>)
    requires
        index < chars.len(),
    ensures
        tok_result_view(r) == spec_tok_num(chars@, index as int),
{
    if chars[index] == '0' {
        if index + 1 < chars.len() {
            let c = chars[index + 1];
            if is_hex_char_exec(c) || c == 'x' || c == 'X' {
                return tok_num_int(chars, index + 1);
            } else if c == '.' {
                let mut m: Vec<char> = Vec::new();
                m.push('0');
                m.push('.');
                assert(m@ =~= seq!['0', '.']);
                return num_scan_exec(chars, index + 2, m, true);
            } else {
                return Ok((Token::Num(0), index + 1));
            }
        } else {
            return Ok((Token::Num(0), index + 1));
        }
    }
    let m: Vec<char> = Vec::new();
    assert(m@ =~= Seq::<char>::empty());
    num_scan_exec(chars, index, m, false)
}

/// A number literal that starts with a digit is read as one number token,
/// and reading it moves past at least that digit and never past the end.
pub proof fn lemma_tok_num_progress(chars: Seq<char>, i: int)
    requires
        0 <= i < chars.len(),
        is_dec_digit(chars[i]),
    ensures
        spec_tok_num(chars, i) matches Ok((t, j)) ==> i < j <= chars.len() && (t is Num
            || t is FNum),
{
    if chars[i] == '0' {
        if i + 1 < chars.len() {
            let c = chars[i + 1];
            if is_hex_char(c) || c == 'x' || c == 'X' {
                let k = i + 1;
                let d = chars[k];
                if d == 'x' || d == 'X' || d == 'b' || d == 'B' {
                    lemma_hex_run(chars, k + 1, seq!['0'], seq!['0', d]);
                } else if '0' <= d && d <= '7' {
                    lemma_hex_run(chars, k, seq!['0'], seq!['0']);
                }
            } else if c == '.' {
                lemma_num_scan(chars, i + 2, seq!['0', '.'], true);
            }
        }
    } else {
        lemma_num_scan(chars, i, Seq::empty(), false);
    }
}

// ----------------------------------------------------------------------
// Identifiers
/// The end of the run of identifier characters that starts at `j`.
pub open spec fn ident_end(chars: Seq<char>, j: int) -> int
    decreases chars.len() - j,
{
    if 0 <= j < chars.len() && is_ident_char(chars[j]) {
        ident_end(chars, j + 1)
    } else {
        j
    }
}

proof fn lemma_ident_end(chars: Seq<char>, j: int)
    requires
        0 <= j <= chars.len(),
    ensures
        j <= ident_end(chars, j) <= chars.len(),
        j < chars.len() && is_ident_char(chars[j]) ==> j < ident_end(chars, j),
    decreases chars.len() - j,
{
    if j < chars.len() && is_ident_char(chars[j]) {
        lemma_ident_end(chars, j + 1);
    }
}

pub open spec fn spec_tok_ident(chars: Seq<char>, i: int) -> (TokenView, int) {
    if i > chars.len() {
        (TokenView::Ident(Seq::empty()), i)
    } else {
        let e = ident_end(chars, i);
        (TokenView::Ident(chars.subrange(i, e)), e)
    }
}

/// Eats an identifier: letters, digits and `_` from `index` on.
pub fn tok_ident(chars: &[char], index: usize) -> (r: (Token, usize))
    ensures
        r.0@ == spec_tok_ident(chars@, index as int).0,
        r.1 as int == spec_tok_ident(chars@, index as int).1,
{
    let mut ret: Vec<char> = Vec::new();
    if index > chars.len() {
        return (Token::Ident(string_from_chars(&ret)), index);
    }
    let mut i = index;
    while i < chars.len() && is_ident_char_exec(chars[i])
        invariant
            index <= i <= chars.len(),
            ret@ == chars@.subrange(index as int, i as int),
            ident_end(chars@, i as int) == ident_end(chars@, index as int),
        decreases chars.len() - i,
    {
        ret.push(chars[i]);
        i = i + 1;
        assert(ret@ =~= chars@.subrange(index as int, i as int));
    }
    (Token::Ident(string_from_chars(&ret)), i)
}

// ----------------------------------------------------------------------
// The lexer
/// The one-character operators.
pub open spec fn single_op(c: char) -> Option<TokenOp> {
    if c == '+' {
        Some(TokenOp::Plus)
    } else if c == '-' {
        Some(TokenOp::Minus)
    } else if c == '*' {
        Some(TokenOp::Mul)
    } else if c == '%' {
        Some(TokenOp::Mod)
    } else if c == '(' {
        Some(TokenOp::ParenLeft)
    } else if c == ')' {
        Some(TokenOp::ParenRight)
    } else if c == '^' {
        Some(TokenOp::Caret)
    } else if c == ',' {
        Some(TokenOp::Comma)
    } else if c == '=' {
        Some(TokenOp::Equal)
    } else if c == '[' {
        Some(TokenOp::SqBracketLeft)
    } else if c == ']' {
        Some(TokenOp::SqBracketRight)
    } else {
        None
    }
}

fn single_op_exec(c: char) -> (r: Option<TokenOp>)
    ensures
        r == single_op(c),
{
    if c == '+' {
        Some(TokenOp::Plus)
    } else if c == '-' {
        Some(TokenOp::Minus)
    } else if c == '*' {
        Some(TokenOp::Mul)
    } else if c == '%' {
        Some(TokenOp::Mod)
    } else if c == '(' {
        Some(TokenOp::ParenLeft)
    } else if c == ')' {
        Some(TokenOp::ParenRight)
    } else if c == '^' {
        Some(TokenOp::Caret)
    } else if c == ',' {
        Some(TokenOp::Comma)
    } else if c == '=' {
        Some(TokenOp::Equal)
    } else if c == '[' {
        Some(TokenOp::SqBracketLeft)
    } else if c == ']' {
        Some(TokenOp::SqBracketRight)
    } else {
        None
    }
}

/// Lexes `chars` from `i` on, after the tokens `acc`: numbers, operators
/// (`//` is one token), identifiers; `#` ends the line (a comment) and any
/// other character is skipped.
pub open spec fn lex_from(chars: Seq<char>, i: int, acc: Seq<TokenView>) -> Result<
    Seq<TokenView>,
    ErrorView,
>
    decreases chars.len() - i,
{
    if i < 0 || i >= chars.len() {
        Ok(acc)
    } else {
        let c = chars[i];
        if is_dec_digit(c) {
            match spec_tok_num(chars, i) {
                Ok((t, j)) => if i < j <= chars.len() {
                    lex_from(chars, j, acc.push(t))
                } else {
                    Ok(acc)
                },
                Err(e) => Err(e),
            }
        } else if c == '/' {
            if i + 1 < chars.len() && chars[i + 1] == '/' {
                lex_from(chars, i + 2, acc.push(TokenView::Op(TokenOp::Para)))
            } else {
                lex_from(chars, i + 1, acc.push(TokenView::Op(TokenOp::Div)))
            }
        } else if single_op(c) is Some {
            lex_from(chars, i + 1, acc.push(TokenView::Op(single_op(c).unwrap())))
        } else if is_ident_start(c) {
            let (t, j) = spec_tok_ident(chars, i);
            if i < j <= chars.len() {
                lex_from(chars, j, acc.push(t))
            } else {
                Ok(acc)
            }
        } else if c == '#' {
            Ok(acc)
        } else {
            lex_from(chars, i + 1, acc)
        }
    }
}

proof fn lemma_lex_from_len(chars: Seq<char>, i: int, acc: Seq<TokenView>)
    requires
        0 <= i,
    ensures
        lex_from(chars, i, acc) matches Ok(r) ==> r.len() <= acc.len() + if i <= chars.len() {
            chars.len() - i
        } else {
            0
        },
    decreases chars.len() - i,
{
    if 0 <= i < chars.len() {
        let c = chars[i];
        if is_dec_digit(c) {
            if let Ok((t, j)) = spec_tok_num(chars, i) {
                if i < j <= chars.len() {
                    lemma_lex_from_len(chars, j, acc.push(t));
                }
            }
        } else if c == '/' {
            if i + 1 < chars.len() && chars[i + 1] == '/' {
                lemma_lex_from_len(chars, i + 2, acc.push(TokenView::Op(TokenOp::Para)));
            } else {
                lemma_lex_from_len(chars, i + 1, acc.push(TokenView::Op(TokenOp::Div)));
            }
        } else if single_op(c) is Some {
            lemma_lex_from_len(chars, i + 1, acc.push(TokenView::Op(single_op(c).unwrap())));
        } else if is_ident_start(c) {
            let (t, j) = spec_tok_ident(chars, i);
            if i < j <= chars.len() {
                lemma_lex_from_len(chars, j, acc.push(t));
            }
        } else if c != '#' {
            lemma_lex_from_len(chars, i + 1, acc);
        }
    }
}

/// A line never gives more tokens than it has characters.
pub proof fn lemma_lexer_len(chars: Seq<char>)
    ensures
        spec_lexer(chars) matches Ok(r) ==> r.len() <= chars.len(),
{
    lemma_lex_from_len(chars, 0, Seq::empty());
}

/// The tokens of a line, or the error of its first malformed number.
pub open spec fn spec_lexer(chars: Seq<char>) -> Result<Seq<TokenView>, ErrorView> {
    lex_from(chars, 0, Seq::empty())
}

/// Splits a line into tokens.
pub fn lexer(s: String) -> (r: Result<Vec<Token>, MyError>)
    ensures
        lex_result_view(r) == spec_lexer(s@),
{
    let mut ret: Vec<Token> = Vec::new();
    let chars = chars_of(s.as_str());
    let ghost cv = chars@;
    let mut i: usize = 0;
    assert(tokens_view(ret@) =~= Seq::<TokenView>::empty());
    while i < chars.len()
        invariant
            0 <= i <= chars.len(),
            cv == chars@,
            cv == s@,
            lex_from(cv, i as int, tokens_view(ret@)) == spec_lexer(cv),
        decreases chars.len() - i,
    {
        let c = chars[i];
        let ghost before = tokens_view(ret@);
        if is_dec_digit_exec(c) {
            let r = tok_num(&chars, i);
            proof {
                lemma_tok_num_progress(cv, i as int);
            }
            match r {
                Ok((tk, j)) => {
                    ret.push(tk);
                    assert(tokens_view(ret@) =~= before.push(tk@));
                    i = j;
                },
                Err(e) => {
                    return Err(e);
                },
            }
        } else if c == '/' {
            if i + 1 < chars.len() && chars[i + 1] == '/' {
                ret.push(Token::Op(TokenOp::Para));
                assert(tokens_view(ret@) =~= before.push(TokenView::Op(TokenOp::Para)));
                i = i + 2;
            } else {
                ret.push(Token::Op(TokenOp::Div));
                assert(tokens_view(ret@) =~= before.push(TokenView::Op(TokenOp::Div)));
                i = i + 1;
            }
        } else if let Some(op) = single_op_exec(c) {
            ret.push(Token::Op(op));
            assert(tokens_view(ret@) =~= before.push(TokenView::Op(op)));
            i = i + 1;
        } else if is_ident_start_exec(c) {
            proof {
                lemma_ident_end(cv, i as int);
            }
            let (tk, j) = tok_ident(&chars, i);
            ret.push(tk);
            assert(tokens_view(ret@) =~= before.push(tk@));
            i = j;
        } else if c == '#' {
            return Ok(ret);
        } else {
            i = i + 1;
        }
    }
    Ok(ret)
}

// ----------------------------------------------------------------------
// Comments
/// `a` and `b` hold the same characters before position `p`, where `a`
/// holds a `#` and `b` holds a `#` or ends.
pub open spec fn agree_upto(a: Seq<char>, b: Seq<char>, p: int) -> bool {
    &&& 0 <= p < a.len()
    &&& p <= b.len()
    &&& a[p] == '#'
    &&& (p < b.len() ==> b[p] == '#')
    &&& forall|k: int| 0 <= k < p ==> a[k] == b[k]
}

proof fn lemma_agree_digits_end(a: Seq<char>, b: Seq<char>, p: int, j: int)
    requires
        agree_upto(a, b, p),
        0 <= j <= p,
    ensures
        digits_end(a, j) == digits_end(b, j),
        digits_end(a, j) <= p,
    decreases p - j,
{
    if j < p {
        assert(a[j] == b[j]);
    }
    if j < p && is_dec_digit(a[j]) {
        lemma_agree_digits_end(a, b, p, j + 1);
    }
}

proof fn lemma_agree_hex_run(
    a: Seq<char>,
    b: Seq<char>,
    p: int,
    j: int,
    mant: Seq<char>,
    err: Seq<char>,
)
    requires
        agree_upto(a, b, p),
        0 <= j <= p,
    ensures
        hex_run(a, j, mant, err) == hex_run(b, j, mant, err),
        hex_run(a, j, mant, err).2 <= p,
    decreases p - j,
{
    if j < p {
        assert(a[j] == b[j]);
    }
    if j < p {
        if is_hex_char(a[j]) {
            lemma_agree_hex_run(a, b, p, j + 1, mant.push(a[j]), err.push(a[j]));
        } else if a[j] == '_' {
            lemma_agree_hex_run(a, b, p, j + 1, mant, err);
        }
    }
}

proof fn lemma_agree_get_num(a: Seq<char>, b: Seq<char>, p: int, i: int)
    requires
        agree_upto(a, b, p),
        0 <= i <= p,
    ensures
        spec_tok_get_num(a, i) == spec_tok_get_num(b, i),
        spec_tok_get_num(a, i).1 <= p,
{
    if i < p {
        assert(a[i] == b[i]);
    }
    if a[i] == '-' || is_dec_digit(a[i]) {
        lemma_agree_digits_end(a, b, p, i + 1);
        lemma_digits_end(a, i + 1);
        let e = digits_end(a, i + 1);
        assert forall|k: int| 0 <= k < e - i implies a.subrange(i, e)[k] == b.subrange(i, e)[k] by {
            assert(a[i + k] == b[i + k]);
        }
        assert(a.subrange(i, e) =~= b.subrange(i, e));
    }
}

proof fn lemma_agree_num_scan(
    a: Seq<char>,
    b: Seq<char>,
    p: int,
    j: int,
    mant: Seq<char>,
    has_dot: bool,
)
    requires
        agree_upto(a, b, p),
        0 <= j <= p,
    ensures
        num_scan(a, j, mant, has_dot) == num_scan(b, j, mant, has_dot),
        num_scan(a, j, mant, has_dot).4 <= p,
    decreases p - j,
{
    if j < p {
        assert(a[j] == b[j]);
    }
    if j < p {
        let c = a[j];
        if is_dec_digit(c) {
            lemma_agree_num_scan(a, b, p, j + 1, mant.push(c), has_dot);
        } else if c == '_' {
            lemma_agree_num_scan(a, b, p, j + 1, mant, has_dot);
        } else if c == '.' {
            lemma_agree_num_scan(a, b, p, j + 1, mant.push('.'), true);
        } else if is_exp_mark(c) {
            lemma_agree_get_num(a, b, p, j + 1);
        }
    }
}

proof fn lemma_agree_tok_num_int(a: Seq<char>, b: Seq<char>, p: int, i: int)
    requires
        agree_upto(a, b, p),
        0 <= i <= p,
    ensures
        spec_tok_num_int(a, i) == spec_tok_num_int(b, i),
        spec_tok_num_int(a, i) matches Ok((_, j)) ==> j <= p,
{
    if i < p {
        assert(a[i] == b[i]);
    }
    let c = a[i];
    if c == 'x' || c == 'X' || c == 'b' || c == 'B' {
        lemma_agree_hex_run(a, b, p, i + 1, seq!['0'], seq!['0', c]);
    } else if '0' <= c && c <= '7' {
        lemma_agree_hex_run(a, b, p, i, seq!['0'], seq!['0']);
    }
}

proof fn lemma_agree_tok_num(a: Seq<char>, b: Seq<char>, p: int, i: int)
    requires
        agree_upto(a, b, p),
        0 <= i < p,
    ensures
        spec_tok_num(a, i) == spec_tok_num(b, i),
        spec_tok_num(a, i) matches Ok((_, j)) ==> j <= p,
{
    if i < p {
        assert(a[i] == b[i]);
    }
    if i + 1 < p {
        if i + 1 < p {
            assert(a[i + 1] == b[i + 1]);
        }
    }
    if a[i] == '0' {
        let c = a[i + 1];
        if is_hex_char(c) || c == 'x' || c == 'X' {
            lemma_agree_tok_num_int(a, b, p, i + 1);
        } else if c == '.' {
            lemma_agree_num_scan(a, b, p, i + 2, seq!['0', '.'], true);
        }
    } else {
        lemma_agree_num_scan(a, b, p, i, Seq::empty(), false);
    }
}

proof fn lemma_agree_ident_end(a: Seq<char>, b: Seq<char>, p: int, j: int)
    requires
        agree_upto(a, b, p),
        0 <= j <= p,
    ensures
        ident_end(a, j) == ident_end(b, j),
        ident_end(a, j) <= p,
    decreases p - j,
{
    if j < p {
        assert(a[j] == b[j]);
    }
    if j < p && is_ident_char(a[j]) {
        lemma_agree_ident_end(a, b, p, j + 1);
    }
}

proof fn lemma_agree_lex_from(a: Seq<char>, b: Seq<char>, p: int, i: int, acc: Seq<TokenView>)
    requires
        agree_upto(a, b, p),
        0 <= i <= p,
    ensures
        lex_from(a, i, acc) == lex_from(b, i, acc),
    decreases p - i,
{
    if i < p {
        assert(a[i] == b[i]);
    }
    if i < p {
        let c = a[i];
        if i + 1 < p {
        if i + 1 < p {
            assert(a[i + 1] == b[i + 1]);
        }
    }
        if is_dec_digit(c) {
            lemma_agree_tok_num(a, b, p, i);
            if let Ok((t, j)) = spec_tok_num(a, i) {
                if i < j {
                    lemma_agree_lex_from(a, b, p, j, acc.push(t));
                }
            }
        } else if c == '/' {
            if a[i + 1] == '/' {
                lemma_agree_lex_from(a, b, p, i + 2, acc.push(TokenView::Op(TokenOp::Para)));
            } else {
                lemma_agree_lex_from(a, b, p, i + 1, acc.push(TokenView::Op(TokenOp::Div)));
            }
        } else if single_op(c) is Some {
            lemma_agree_lex_from(a, b, p, i + 1, acc.push(TokenView::Op(single_op(c).unwrap())));
        } else if is_ident_start(c) {
            lemma_agree_ident_end(a, b, p, i);
            lemma_ident_end(a, i);
            let e = ident_end(a, i);
            assert forall|k: int| 0 <= k < e - i implies a.subrange(i, e)[k] == b.subrange(i, e)[k] by {
                assert(a[i + k] == b[i + k]);
            }
            assert(a.subrange(i, e) =~= b.subrange(i, e));
            let (t, j) = spec_tok_ident(a, i);
            if i < j {
                lemma_agree_lex_from(a, b, p, j, acc.push(t));
            }
        } else if c != '#' {
            lemma_agree_lex_from(a, b, p, i + 1, acc);
        }
    }
}

/// `#` starts a comment: what follows it on the line does not change the
/// tokens (or the error) of the line.
pub proof fn lemma_comment(s: Seq<char>, t: Seq<char>)
    ensures
        spec_lexer(s + seq!['#'] + t) == spec_lexer(s + seq!['#']),
{
    let a = s + seq!['#'] + t;
    let b = s + seq!['#'];
    let p = s.len() as int;
    assert(a[p] == '#');
    assert forall|k: int| 0 <= k <= p implies a[k] == b[k] by {
        if k < p {
            assert(a[k] == s[k]);
            assert(b[k] == s[k]);
        }
    }
    lemma_agree_lex_from(a, b, p, 0, Seq::empty());
}

/// A comment changes nothing: a line with `#` and any text after it lexes
/// as the line without them (the same tokens, or the same error).
pub proof fn lemma_comment_removed(s: Seq<char>, t: Seq<char>)
    ensures
        spec_lexer(s + seq!['#'] + t) == spec_lexer(s),
{
    lemma_comment(s, t);
    let a = s + seq!['#'];
    let p = s.len() as int;
    assert(a[p] == '#');
    assert forall|k: int| 0 <= k < p implies a[k] == s[k] by {}
    lemma_agree_lex_from(a, s, p, 0, Seq::empty());
}

} // verus!
