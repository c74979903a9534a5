//! The interpreter's environment: the tables of names the parser consults,
//! the user defined functions, the output settings and the input history;
//! and the commands that read or change them.
//!
//! The numeric values of constants and variables are floating point or
//! complex numbers and are kept by the evaluator outside the library; the
//! environment records which names exist.
use vstd::prelude::*;

use crate::lexer::{tokens_view, Token, TokenView};
use crate::{ErrorView, MyError};
use crate::exponents::{eset, exp_keys, lemma_eset};
use crate::strings::{
    chars_of, int_text, push_all, push_int_text, push_radix_digits, push_str, radix_digits,
    string_from_chars,
};

verus! {

/// How floating point results are written.
#[derive(Debug, Clone, Copy, PartialEq, Eq, Structural)]
pub enum FloatFormat {
    Fix,
    Sci,
    Eng,
}

/// The interpreter's state.
pub struct Env {
    /// Names of the constants (`pi`, `e`, ...).
    pub constant: Vec<String>,
    /// Names of the user's variables (`ans` and every name assigned or used).
    pub variable: Vec<String>,
    /// Built-in functions and their number of parameters (0: any number).
    pub func: Vec<(String, usize)>,
    /// User defined functions and the tokens of their bodies.
    pub user_func: Vec<(String, Vec<Token>)>,
    /// Commands, their number of parameters and a description.
    pub cmd: Vec<(String, usize, String)>,
    pub debug: bool,
    pub output_radix: u8,
    pub separate_digit: usize,
    pub float_format: FloatFormat,
    /// Lines entered, oldest first.
    pub history: Vec<String>,
    /// The history entry the line editor shows (the length: a new line).
    pub history_index: usize,
    /// How many history lines are saved (0: none).
    pub history_max: usize,
}

// ----------------------------------------------------------------------
// Views of the tables
pub open spec fn keys_of(v: Seq<String>) -> Seq<Seq<char>> {
    v.map_values(|s: String| s@)
}

pub open spec fn pair_keys<T>(v: Seq<(String, T)>) -> Seq<Seq<char>> {
    v.map_values(|p: (String, T)| p.0@)
}

pub open spec fn triple_keys(v: Seq<(String, usize, String)>) -> Seq<Seq<char>> {
    v.map_values(|p: (String, usize, String)| p.0@)
}

/// No key occurs twice.
pub open spec fn distinct_keys(k: Seq<Seq<char>>) -> bool {
    forall|i: int, j: int| 0 <= i < k.len() && 0 <= j < k.len() && i != j ==> k[i] != k[j]
}

/// The names the parser consults besides the variables: constants,
/// built-in functions, user defined functions and commands.
pub struct Scope {
    pub constant: Seq<String>,
    pub func: Seq<(String, usize)>,
    pub user_func: Seq<(String, Vec<Token>)>,
    pub cmd: Seq<(String, usize, String)>,
}

impl Scope {
    pub open spec fn is_const(&self, k: Seq<char>) -> bool {
        keys_of(self.constant).contains(k)
    }

    pub open spec fn func_arity(&self, k: Seq<char>) -> Option<usize> {
        let p = find_key(pair_keys(self.func), k, 0);
        if p < self.func.len() {
            Some(self.func[p].1)
        } else {
            None
        }
    }

    pub open spec fn user_func_body(&self, k: Seq<char>) -> Option<Seq<TokenView>> {
        let p = find_key(pair_keys(self.user_func), k, 0);
        if p < self.user_func.len() {
            Some(tokens_view(self.user_func[p].1@))
        } else {
            None
        }
    }

    pub open spec fn cmd_arity(&self, k: Seq<char>) -> Option<usize> {
        let p = find_key(triple_keys(self.cmd), k, 0);
        if p < self.cmd.len() {
            Some(self.cmd[p].1)
        } else {
            None
        }
    }
}

impl Env {
    pub open spec fn const_keys(&self) -> Seq<Seq<char>> {
        keys_of(self.constant@)
    }

    pub open spec fn var_keys(&self) -> Seq<Seq<char>> {
        keys_of(self.variable@)
    }

    pub open spec fn func_keys(&self) -> Seq<Seq<char>> {
        pair_keys(self.func@)
    }

    pub open spec fn user_func_keys(&self) -> Seq<Seq<char>> {
        pair_keys(self.user_func@)
    }

    pub open spec fn cmd_keys(&self) -> Seq<Seq<char>> {
        triple_keys(self.cmd@)
    }

    /// Every table maps each name at most once.
    pub open spec fn wf(&self) -> bool {
        &&& distinct_keys(self.const_keys())
        &&& distinct_keys(self.var_keys())
        &&& distinct_keys(self.func_keys())
        &&& distinct_keys(self.user_func_keys())
        &&& distinct_keys(self.cmd_keys())
    }

    /// The tables other than the variables.
    pub open spec fn scope(&self) -> Scope {
        Scope {
            constant: self.constant@,
            func: self.func@,
            user_func: self.user_func@,
            cmd: self.cmd@,
        }
    }

    /// The number of parameters of the built-in function `k`.
    pub open spec fn func_arity(&self, k: Seq<char>) -> Option<usize> {
        self.scope().func_arity(k)
    }

    /// The body of the user defined function `k`.
    pub open spec fn user_func_body(&self, k: Seq<char>) -> Option<Seq<TokenView>> {
        self.scope().user_func_body(k)
    }

    /// The number of parameters of the command `k`.
    pub open spec fn cmd_arity(&self, k: Seq<char>) -> Option<usize> {
        self.scope().cmd_arity(k)
    }

    /// The same environment with other variable names.
    pub open spec fn same_but_variables(&self, other: &Env) -> bool {
        &&& self.constant@ == other.constant@
        &&& self.func@ == other.func@
        &&& self.user_func@ == other.user_func@
        &&& self.cmd@ == other.cmd@
        &&& self.debug == other.debug
        &&& self.output_radix == other.output_radix
        &&& self.separate_digit == other.separate_digit
        &&& self.float_format == other.float_format
        &&& self.history@ == other.history@
        &&& self.history_index == other.history_index
        &&& self.history_max == other.history_max
    }
}

/// The first position at or after `i` that holds `key`, or the length.
pub open spec fn find_key(k: Seq<Seq<char>>, key: Seq<char>, i: int) -> int
    decreases k.len() - i,
{
    if i < 0 || i >= k.len() {
        k.len() as int
    } else if k[i] == key {
        i
    } else {
        find_key(k, key, i + 1)
    }
}

pub(crate) proof fn lemma_find_key(k: Seq<Seq<char>>, key: Seq<char>, i: int)
    requires
        0 <= i <= k.len(),
    ensures
        i <= find_key(k, key, i) <= k.len(),
        find_key(k, key, i) < k.len() ==> k[find_key(k, key, i)] == key,
        forall|j: int| i <= j < find_key(k, key, i) ==> k[j] != key,
        (find_key(k, key, i) < k.len()) == (exists|j: int| i <= j < k.len() && k[j] == key),
    decreases k.len() - i,
{
    if i < k.len() && k[i] != key {
        lemma_find_key(k, key, i + 1);
    }
}

pub(crate) proof fn lemma_find_key_contains(k: Seq<Seq<char>>, key: Seq<char>)
    ensures
        (find_key(k, key, 0) < k.len()) == k.contains(key),
        find_key(k, key, 0) <= k.len(),
{
    lemma_find_key(k, key, 0);
    if k.contains(key) {
        let w = choose|w: int| 0 <= w < k.len() && k[w] == key;
        assert(0 <= w < k.len() && k[w] == key);
    }
}

proof fn lemma_find_key_push_from(k: Seq<Seq<char>>, x: Seq<char>, key: Seq<char>, i: int)
    requires
        0 <= i <= k.len(),
    ensures
        find_key(k.push(x), key, i) == if find_key(k, key, i) < k.len() {
            find_key(k, key, i)
        } else if x == key {
            k.len() as int
        } else {
            k.len() + 1int
        },
    decreases k.len() - i,
{
    let kp = k.push(x);
    if i < k.len() {
        assert(kp[i] == k[i]);
        if k[i] != key {
            lemma_find_key_push_from(k, x, key, i + 1);
        }
    } else {
        assert(kp[i] == x);
        if x != key {
            assert(find_key(kp, key, i + 1) == kp.len());
        }
    }
}

proof fn lemma_find_key_push(k: Seq<Seq<char>>, x: Seq<char>, key: Seq<char>)
    ensures
        find_key(k.push(x), key, 0) == if find_key(k, key, 0) < k.len() {
            find_key(k, key, 0)
        } else if x == key {
            k.len() as int
        } else {
            k.len() + 1int
        },
{
    lemma_find_key_push_from(k, x, key, 0);
}

/// The position of `key` among the strings of `v`.
fn position_of(v: &Vec<String>, key: &String) -> (r: Option<usize>)
    ensures
        match r {
            Some(i) => i == find_key(keys_of(v@), key@, 0) && i < v@.len(),
            None => find_key(keys_of(v@), key@, 0) == v@.len(),
        },
{
    let ghost k = keys_of(v@);
    let mut i: usize = 0;
    while i < v.len()
        invariant
            k == keys_of(v@),
            0 <= i <= v.len(),
            find_key(k, key@, i as int) == find_key(k, key@, 0),
        decreases v.len() - i,
    {
        if v[i] == *key {
            return Some(i);
        }
        i = i + 1;
    }
    None
}

/// The position of `key` among the first components of `v`.
pub(crate) fn position_of_pair<T>(v: &Vec<(String, T)>, key: &String) -> (r: Option<usize>)
    ensures
        match r {
            Some(i) => i == find_key(pair_keys(v@), key@, 0) && i < v@.len(),
            None => find_key(pair_keys(v@), key@, 0) == v@.len(),
        },
{
    let ghost k = pair_keys(v@);
    let mut i: usize = 0;
    while i < v.len()
        invariant
            k == pair_keys(v@),
            0 <= i <= v.len(),
            find_key(k, key@, i as int) == find_key(k, key@, 0),
        decreases v.len() - i,
    {
        if v[i].0 == *key {
            return Some(i);
        }
        i = i + 1;
    }
    None
}

/// The position of `key` among the first components of `v`.
fn position_of_triple(v: &Vec<(String, usize, String)>, key: &String) -> (r: Option<usize>)
    ensures
        match r {
            Some(i) => i == find_key(triple_keys(v@), key@, 0) && i < v@.len(),
            None => find_key(triple_keys(v@), key@, 0) == v@.len(),
        },
{
    let ghost k = triple_keys(v@);
    let mut i: usize = 0;
    while i < v.len()
        invariant
            k == triple_keys(v@),
            0 <= i <= v.len(),
            find_key(k, key@, i as int) == find_key(k, key@, 0),
        decreases v.len() - i,
    {
        if v[i].0 == *key {
            return Some(i);
        }
        i = i + 1;
    }
    None
}

/// A copy of the tokens of `v` from `start` on.
pub fn copy_tokens_from(v: &[Token], start: usize) -> (r: Vec<Token>)
    requires
        start <= v.len(),
    ensures
        tokens_view(r@) == tokens_view(v@).skip(start as int),
{
    let mut r: Vec<Token> = Vec::new();
    let mut i: usize = start;
    while i < v.len()
        invariant
            start <= i <= v.len(),
            tokens_view(r@) == tokens_view(v@).subrange(start as int, i as int),
        decreases v.len() - i,
    {
        let t = v[i].duplicate();
        let ghost r0 = r@;
        r.push(t);
        assert(r@ == r0.push(t));
        assert(tokens_view(r@) =~= tokens_view(r0).push(t@));
        i = i + 1;
        assert(tokens_view(r@) =~= tokens_view(v@).subrange(start as int, i as int));
    }
    assert(tokens_view(v@).subrange(start as int, v.len() as int) =~= tokens_view(v@).skip(
        start as int,
    ));
    r
}

/// A copy of a token sequence.
pub fn copy_tokens(v: &[Token]) -> (r: Vec<Token>)
    ensures
        tokens_view(r@) == tokens_view(v@),
{
    let r = copy_tokens_from(v, 0);
    assert(tokens_view(v@).skip(0) =~= tokens_view(v@));
    r
}

impl Default for Env {
    /// The same as `Env::new`.
    fn default() -> (e: Env)
        ensures
            e.wf(),
            e.constant@.len() == 0,
            e.variable@.len() == 0,
            e.func@.len() == 0,
            e.user_func@.len() == 0,
            e.cmd@.len() == 0,
            !e.debug,
            e.output_radix == 10,
            e.separate_digit == 0,
            e.float_format == FloatFormat::Fix,
            e.history@.len() == 0,
            e.history_index == 0,
            e.history_max == 0,
    {
        Env::new()
    }
}

impl Env {
    /// An empty environment: no names, decimal output without separators,
    /// fixed float format, no history.
    pub fn new() -> (e: Env)
        ensures
            e.wf(),
            e.constant@.len() == 0,
            e.variable@.len() == 0,
            e.func@.len() == 0,
            e.user_func@.len() == 0,
            e.cmd@.len() == 0,
            !e.debug,
            e.output_radix == 10,
            e.separate_digit == 0,
            e.float_format == FloatFormat::Fix,
            e.history@.len() == 0,
            e.history_index == 0,
            e.history_max == 0,
    {
        Env {
            constant: Vec::new(),
            variable: Vec::new(),
            func: Vec::new(),
            user_func: Vec::new(),
            cmd: Vec::new(),
            debug: false,
            output_radix: 10,
            separate_digit: 0,
            float_format: FloatFormat::Fix,
            history: Vec::new(),
            history_index: 0,
            history_max: 0,
        }
    }

    /// Whether `key` names a constant.
    pub fn is_const(&self, key: &str) -> (b: bool)
        ensures
            b == self.const_keys().contains(key@),
    {
        let k = key.to_owned();
        proof {
            lemma_find_key_contains(self.const_keys(), key@);
        }
        position_of(&self.constant, &k).is_some()
    }

    /// Whether `key` names a variable.
    pub fn is_variable(&self, key: &str) -> (b: bool)
        ensures
            b == self.var_keys().contains(key@),
    {
        let k = key.to_owned();
        proof {
            lemma_find_key_contains(self.var_keys(), key@);
        }
        position_of(&self.variable, &k).is_some()
    }

    /// Makes `key` a variable.
    pub fn new_variable(&mut self, key: String)
        requires
            old(self).wf(),
        ensures
            final(self).wf(),
            final(self).same_but_variables(old(self)),
            final(self).var_keys() == if old(self).var_keys().contains(key@) {
                old(self).var_keys()
            } else {
                old(self).var_keys().push(key@)
            },
    {
        let ghost k0 = self.var_keys();
        proof {
            lemma_find_key_contains(k0, key@);
        }
        if position_of(&self.variable, &key).is_none() {
            self.variable.push(key);
            proof {
                assert(self.var_keys() =~= k0.push(key@));
            }
        }
    }

    /// Checks that `key` may be assigned to: only variables can.  The value
    /// itself is kept by the evaluator.
    pub fn set_variable(&mut self, key: String) -> (r: Result<(), MyError>)
        ensures
            *final(self) == *old(self),
            match r {
                Ok(()) => old(self).var_keys().contains(key@),
                Err(e) => !old(self).var_keys().contains(key@) && e@ == ErrorView::EvalError(
                    "can not assign to "@ + key@,
                ),
            },
    {
        if self.is_variable(key.as_str()) {
            Ok(())
        } else {
            let mut msg: Vec<char> = Vec::new();
            push_str(&mut msg, "can not assign to ");
            let kc = chars_of(key.as_str());
            push_all(&mut msg, &kc);
            Err(MyError::EvalError(string_from_chars(&msg)))
        }
    }

    /// The number of parameters of the built-in function `key`.
    pub fn is_func(&self, key: &str) -> (r: Option<usize>)
        ensures
            r == self.func_arity(key@),
    {
        let k = key.to_owned();
        match position_of_pair(&self.func, &k) {
            Some(i) => Some(self.func[i].1),
            None => None,
        }
    }

    /// The number of parameters of the command `key`.
    pub fn is_cmd(&self, key: &str) -> (r: Option<usize>)
        ensures
            r == self.cmd_arity(key@),
    {
        let k = key.to_owned();
        match position_of_triple(&self.cmd, &k) {
            Some(i) => Some(self.cmd[i].1),
            None => None,
        }
    }

    /// The body of the user defined function `key`.
    pub fn is_user_func(&self, key: String) -> (r: Option<Vec<Token>>)
        ensures
            match r {
                Some(v) => self.user_func_body(key@) == Some(tokens_view(v@)),
                None => self.user_func_body(key@) is None,
            },
    {
        match position_of_pair(&self.user_func, &key) {
            Some(i) => Some(copy_tokens(&self.user_func[i].1)),
            None => None,
        }
    }

    /// Defines (or redefines) the user function `key` with body `arg`.
    pub fn new_user_func(&mut self, key: String, arg: &[Token])
        requires
            old(self).wf(),
        ensures
            final(self).wf(),
            final(self).user_func_keys() == if old(self).user_func_keys().contains(key@) {
                old(self).user_func_keys()
            } else {
                old(self).user_func_keys().push(key@)
            },
            final(self).user_func_body(key@) == Some(tokens_view(arg@)),
            forall|k: Seq<char>|
                k != key@ ==> #[trigger] final(self).user_func_body(k) == old(self).user_func_body(
                    k,
                ),
            final(self).constant@ == old(self).constant@,
            final(self).variable@ == old(self).variable@,
            final(self).func@ == old(self).func@,
            final(self).cmd@ == old(self).cmd@,
            final(self).same_settings(old(self)),
    {
        let body = copy_tokens(arg);
        let ghost k0 = self.user_func_keys();
        let ghost old_self = *self;
        proof {
            lemma_find_key_contains(k0, key@);
            lemma_find_key(k0, key@, 0);
        }
        match position_of_pair(&self.user_func, &key) {
            Some(i) => {
                let ghost kv = key@;
                self.user_func.set(i, (key, body));
                proof {
                    assert(self.user_func_keys()[i as int] == kv);
                    assert(self.user_func_keys() =~= k0);
                    assert forall|k: Seq<char>| k != key@ implies #[trigger] self.user_func_body(
                        k,
                    ) == old_self.user_func_body(k) by {
                        lemma_find_key(k0, k, 0);
                    }
                }
            },
            None => {
                self.user_func.push((key, body));
                proof {
                    assert(self.user_func_keys() =~= k0.push(key@));
                    lemma_find_key_push(k0, key@, key@);
                    assert forall|k: Seq<char>| k != key@ implies #[trigger] self.user_func_body(
                        k,
                    ) == old_self.user_func_body(k) by {
                        lemma_find_key_push(k0, key@, k);
                        lemma_find_key(k0, k, 0);
                    }
                    assert forall|a: int, b: int|
                        0 <= a < self.user_func_keys().len() && 0 <= b
                            < self.user_func_keys().len() && a != b implies self.user_func_keys()[a]
                        != self.user_func_keys()[b] by {
                        if a == k0.len() {
                            assert(k0[b] != key@);
                        } else if b == k0.len() {
                            assert(k0[a] != key@);
                        }
                    }
                }
            },
        }
    }

    /// Turns the debug mode on or off; nothing else changes.
    pub fn set_debug(&mut self, flag: bool)
        ensures
            final(self).debug == flag,
            final(self).constant@ == old(self).constant@,
            final(self).variable@ == old(self).variable@,
            final(self).func@ == old(self).func@,
            final(self).user_func@ == old(self).user_func@,
            final(self).cmd@ == old(self).cmd@,
            final(self).output_radix == old(self).output_radix,
            final(self).separate_digit == old(self).separate_digit,
            final(self).float_format == old(self).float_format,
            final(self).history@ == old(self).history@,
            final(self).history_index == old(self).history_index,
            final(self).history_max == old(self).history_max,
    {
        self.debug = flag;
    }

    /// Whether the debug mode is on.
    pub fn is_debug(&self) -> (b: bool)
        ensures
            b == self.debug,
    {
        self.debug
    }
}

// ----------------------------------------------------------------------
// Output of integers
/// `n` as an unsigned 128-bit pattern (two's complement for negatives).
pub open spec fn twos_complement(n: int) -> nat {
    if n >= 0 {
        n as nat
    } else {
        (n + 0x1_0000_0000_0000_0000_0000_0000_0000_0000int) as nat
    }
}

/// The digits of `n` in an output radix: binary and hexadecimal write the
/// 128-bit pattern, every other radix writes signed decimal.
pub open spec fn radix_text(radix: u8, n: int) -> Seq<char> {
    if radix == 2 {
        radix_digits(twos_complement(n), 2)
    } else if radix == 16 {
        radix_digits(twos_complement(n), 16)
    } else {
        int_text(n)
    }
}

/// `s` split into groups of `n` characters counted from the right, with
/// `sep` between the groups.
pub open spec fn grouped(s: Seq<char>, sep: Seq<char>, n: nat) -> Seq<char>
    decreases s.len(),
{
    if n == 0 || s.len() <= n {
        s
    } else {
        grouped(s.take(s.len() - n), sep, n) + sep + s.skip(s.len() - n)
    }
}

/// The groups `grouped` forms: cut from the right into pieces of `n`
/// characters, the first piece holding what is left.
pub open spec fn digit_groups(s: Seq<char>, n: nat) -> Seq<Seq<char>>
    decreases s.len(),
{
    if n == 0 || s.len() <= n {
        seq![s]
    } else {
        digit_groups(s.take(s.len() - n), n).push(s.skip(s.len() - n))
    }
}

/// The groups written one after the other with `sep` between them.
pub open spec fn join_with(gs: Seq<Seq<char>>, sep: Seq<char>) -> Seq<char>
    decreases gs.len(),
{
    if gs.len() == 0 {
        Seq::empty()
    } else if gs.len() == 1 {
        gs[0]
    } else {
        join_with(gs.drop_last(), sep) + sep + gs.last()
    }
}

/// The groups written one after the other.
pub open spec fn concat_all(gs: Seq<Seq<char>>) -> Seq<char>
    decreases gs.len(),
{
    if gs.len() == 0 {
        Seq::empty()
    } else {
        concat_all(gs.drop_last()) + gs.last()
    }
}

/// Digit grouping cuts the text into groups, from the right, of exactly
/// `n` characters each but the first, which holds from one to `n`; the
/// groups make up the text and the output writes them with the separator
/// between them.
pub proof fn lemma_grouped_groups(s: Seq<char>, sep: Seq<char>, n: nat)
    requires
        n > 0,
    ensures
        grouped(s, sep, n) == join_with(digit_groups(s, n), sep),
        concat_all(digit_groups(s, n)) == s,
        digit_groups(s, n).len() >= 1,
        s.len() > 0 ==> 1 <= digit_groups(s, n)[0].len() <= n,
        forall|i: int| 1 <= i < digit_groups(s, n).len() ==> #[trigger] digit_groups(s, n)[i].len() == n,
    decreases s.len(),
{
    let gs = digit_groups(s, n);
    if s.len() <= n {
        assert(concat_all(gs.drop_last()) =~= Seq::<char>::empty());
        assert(concat_all(gs) =~= s);
    } else {
        let t = s.take(s.len() - n);
        lemma_grouped_groups(t, sep, n);
        let g0 = digit_groups(t, n);
        assert(gs.drop_last() =~= g0);
        assert(s.skip(s.len() - n).len() == n);
        assert(t + s.skip(s.len() - n) =~= s);
        assert(gs[0] == g0[0]);
        assert forall|i: int| 1 <= i < gs.len() implies #[trigger] gs[i].len() == n by {
            if i < g0.len() {
                assert(gs[i] == g0[i]);
            }
        }
    }
}

/// The character test that keeps everything but `c`.
pub open spec fn other_than(c: char) -> spec_fn(char) -> bool {
    |x: char| x != c
}

proof fn lemma_filter_keeps_all(t: Seq<char>, c: char)
    requires
        !t.contains(c),
    ensures
        t.filter(other_than(c)) == t,
    decreases t.len(),
{
    reveal(Seq::filter);
    if t.len() > 0 {
        assert(!t.drop_last().contains(c)) by {
            if t.drop_last().contains(c) {
                let k = choose|k: int| 0 <= k < t.drop_last().len() && t.drop_last()[k] == c;
                assert(t[k] == c);
            }
        }
        lemma_filter_keeps_all(t.drop_last(), c);
        assert(t.last() != c) by {
            if t.last() == c {
                assert(t[t.len() - 1] == c);
            }
        }
        assert(t.drop_last().push(t.last()) =~= t);
    }
}

/// With a one-character separator that the text does not hold, taking the
/// separators out of the grouped text gives the text back.
pub proof fn lemma_grouped_unseparated(s: Seq<char>, c: char, n: nat)
    requires
        !s.contains(c),
    ensures
        grouped(s, seq![c], n).filter(other_than(c)) == s,
    decreases s.len(),
{
    if n == 0 || s.len() <= n {
        lemma_filter_keeps_all(s, c);
    } else {
        let t = s.take(s.len() - n);
        let u = s.skip(s.len() - n);
        assert(!t.contains(c)) by {
            if t.contains(c) {
                let k = choose|k: int| 0 <= k < t.len() && t[k] == c;
                assert(s[k] == c);
            }
        }
        assert(!u.contains(c)) by {
            if u.contains(c) {
                let k = choose|k: int| 0 <= k < u.len() && u[k] == c;
                assert(s[k + s.len() - n] == c);
            }
        }
        lemma_grouped_unseparated(t, c, n);
        lemma_filter_keeps_all(u, c);
        let g = grouped(t, seq![c], n);
        Seq::filter_distributes_over_add(g + seq![c], u, other_than(c));
        Seq::filter_distributes_over_add(g, seq![c], other_than(c));
        assert(seq![c].filter(other_than(c)) =~= Seq::<char>::empty()) by {
            reveal(Seq::filter);
            assert(seq![c].drop_last() =~= Seq::<char>::empty());
        }
        assert(t + u =~= s);
    }
}

/// The prefix of an output radix: `0b` for binary, `0x` for hexadecimal.
pub open spec fn radix_prefix(radix: u8) -> Seq<char> {
    if radix == 2 {
        seq!['0', 'b']
    } else if radix == 16 {
        seq!['0', 'x']
    } else {
        Seq::empty()
    }
}

/// The text `output_format_num` writes for `n`.
pub open spec fn formatted_num(radix: u8, sep: usize, n: int) -> Seq<char> {
    let t = radix_text(radix, n);
    radix_prefix(radix) + if sep == 0 {
        t
    } else {
        grouped(t, seq!['_'], sep as nat)
    }
}

fn push_range(out: &mut Vec<char>, s: &[char], a: usize, b: usize)
    requires
        a <= b <= s.len(),
    ensures
        final(out)@ == old(out)@ + s@.subrange(a as int, b as int),
{
    let mut i = a;
    while i < b
        invariant
            a <= i <= b <= s.len(),
            out@ == old(out)@ + s@.subrange(a as int, i as int),
        decreases b - i,
    {
        out.push(s[i]);
        i = i + 1;
        assert(out@ =~= old(out)@ + s@.subrange(a as int, i as int));
    }
}

fn push_grouped(out: &mut Vec<char>, s: &[char], end: usize, sep: &[char], n: usize)
    requires
        end <= s.len(),
        n > 0,
    ensures
        final(out)@ == old(out)@ + grouped(s@.take(end as int), sep@, n as nat),
    decreases end,
{
    let ghost t = s@.take(end as int);
    if end <= n {
        push_range(out, s, 0, end);
        assert(s@.subrange(0, end as int) =~= t);
    } else {
        let ghost o0 = old(out)@;
        push_grouped(out, s, end - n, sep, n);
        let ghost o1 = out@;
        push_all(out, sep);
        let ghost o2 = out@;
        push_range(out, s, end - n, end);
        assert(t.take(t.len() - n) =~= s@.take(end - n));
        assert(t.skip(t.len() - n) =~= s@.subrange(end - n, end as int));
        assert(grouped(t, sep@, n as nat) == grouped(t.take(t.len() - n), sep@, n as nat) + sep@
            + t.skip(t.len() - n));
        assert(out@ =~= o0 + grouped(t, sep@, n as nat));
    }
}

/// The characters of `s` in reverse order.
fn reversed(s: &[char]) -> (r: Vec<char>)
    ensures
        r@ == s@.reverse(),
{
    let mut r: Vec<char> = Vec::new();
    let mut i = s.len();
    while i > 0
        invariant
            i <= s.len(),
            r@ == s@.subrange(i as int, s.len() as int).reverse(),
        decreases i,
    {
        i = i - 1;
        r.push(s[i]);
        assert(r@ =~= s@.subrange(i as int, s.len() as int).reverse());
    }
    assert(s@.subrange(0, s.len() as int) =~= s@);
    r
}

/// Inserts `sep` between groups of `n` characters, counting from the right
/// (`separate_digit("12345678", "_", 4)` is `1234_5678`).
pub fn separate_digit(s: String, sep: &str, n: usize) -> (r: String)
    requires
        n > 0,
        vstd::utf8::is_ascii_chars(s@),
        s@.len() > n ==> vstd::utf8::is_ascii_chars(sep@),
    ensures
        r@ == grouped(s@, sep@.reverse(), n as nat),
{
    let cs = chars_of(s.as_str());
    let sep_cs = chars_of(sep);
    let sep_rev = reversed(&sep_cs);
    let mut out: Vec<char> = Vec::new();
    push_grouped(&mut out, &cs, cs.len(), &sep_rev, n);
    assert(cs@.take(cs.len() as int) =~= cs@);
    assert(out@ =~= grouped(s@, sep@.reverse(), n as nat));
    string_from_chars(&out)
}

proof fn lemma_radix_digits_ascii(n: nat, r: nat)
    requires
        2 <= r <= 16,
    ensures
        vstd::utf8::is_ascii_chars(radix_digits(n, r)),
    decreases n,
{
    reveal_with_fuel(radix_digits, 2);
    if n >= r {
        assert(n / r < n) by (nonlinear_arith)
            requires
                2 <= r,
                r <= n,
        ;
        assert(n % r < r) by (nonlinear_arith)
            requires
                2 <= r,
        ;
        lemma_radix_digits_ascii(n / r, r);
    }
}

fn radix_text_exec(radix: u8, n: i128) -> (v: Vec<char>)
    ensures
        v@ == radix_text(radix, n as int),
{
    let mut v: Vec<char> = Vec::new();
    if radix == 2 || radix == 16 {
        let bits: u128 = if n >= 0 {
            n as u128
        } else {
            let m: i128 = -(n + 1);
            u128::MAX - (m as u128)
        };
        assert(bits as int == twos_complement(n as int));
        let r: u128 = if radix == 2 {
            2
        } else {
            16
        };
        push_radix_digits(bits, r, &mut v);
    } else {
        push_int_text(n, &mut v);
    }
    assert(v@ =~= radix_text(radix, n as int));
    v
}

/// Writes an integer in the output radix of `env`, grouping digits with `_`
/// when `env.separate_digit` is not zero; binary gets the prefix `0b` and
/// hexadecimal `0x`.
pub fn output_format_num(env: &mut Env, n: i128) -> (r: String)
    ensures
        r@ == formatted_num(old(env).output_radix, old(env).separate_digit, n as int),
        *final(env) == *old(env),
{
    let text = radix_text_exec(env.output_radix, n);
    let mut out: Vec<char> = Vec::new();
    if env.output_radix == 2 {
        out.push('0');
        out.push('b');
    } else if env.output_radix == 16 {
        out.push('0');
        out.push('x');
    }
    assert(out@ =~= radix_prefix(env.output_radix));
    if env.separate_digit != 0 {
        let sep = ['_'];
        let ghost o0 = out@;
        push_grouped(&mut out, &text, text.len(), &sep, env.separate_digit);
        assert(text@.take(text.len() as int) =~= text@);
        assert(sep@ =~= seq!['_']);
        assert(out@ == o0 + grouped(text@, seq!['_'], env.separate_digit as nat));
    } else {
        push_all(&mut out, &text);
    }
    string_from_chars(&out)
}

// ----------------------------------------------------------------------
// Commands
/// Whether `s` is the word `w`.
pub(crate) fn is_word(s: &String, w: &str) -> (b: bool)
    ensures
        b == (s@ == w@),
{
    *s == w.to_owned()
}

/// The output settings: radix, digit grouping, float format.
pub type OutputSettings = (u8, usize, FloatFormat);

/// What one argument of the `format` command sets.
pub open spec fn format_arg(st: OutputSettings, t: TokenView) -> OutputSettings {
    match t {
        TokenView::Num(n) => if n == 2 {
            (2u8, st.1, st.2)
        } else if n == 10 {
            (10u8, st.1, st.2)
        } else if n == 16 {
            (16u8, st.1, st.2)
        } else {
            st
        },
        TokenView::Ident(id) => if id == "radix2"@ || id == "binary"@ {
            (2u8, st.1, st.2)
        } else if id == "radix10"@ || id == "decimal"@ {
            (10u8, st.1, st.2)
        } else if id == "radix16"@ || id == "hexadecimal"@ {
            (16u8, st.1, st.2)
        } else if id == "sep3"@ {
            (st.0, 3usize, st.2)
        } else if id == "sep4"@ {
            (st.0, 4usize, st.2)
        } else if id == "sep0"@ {
            (st.0, 0usize, st.2)
        } else if id == "sci"@ {
            (st.0, st.1, FloatFormat::Sci)
        } else if id == "eng"@ {
            (st.0, st.1, FloatFormat::Eng)
        } else if id == "fix"@ {
            (st.0, st.1, FloatFormat::Fix)
        } else {
            st
        },
        _ => st,
    }
}

/// The settings after the arguments `ts`, applied left to right.
pub open spec fn format_args(st: OutputSettings, ts: Seq<TokenView>) -> OutputSettings
    decreases ts.len(),
{
    if ts.len() == 0 {
        st
    } else {
        format_arg(format_args(st, ts.drop_last()), ts.last())
    }
}

pub open spec fn float_format_name(f: FloatFormat) -> Seq<char> {
    match f {
        FloatFormat::Fix => "Fix"@,
        FloatFormat::Sci => "Sci"@,
        FloatFormat::Eng => "Eng"@,
    }
}

/// The report of the `format` command.
pub open spec fn format_report(st: OutputSettings, with_float: bool) -> Seq<char> {
    "format(radix = "@ + int_text(st.0 as int) + ", separate = "@ + int_text(st.1 as int) + if with_float {
        ", float = "@ + float_format_name(st.2) + ")"@
    } else {
        ")"@
    }
}

/// The `format` command: without arguments reports the radix and grouping;
/// otherwise applies each argument (a radix `2`, `10`, `16`; the words
/// `radix2`/`binary`, `radix10`/`decimal`, `radix16`/`hexadecimal`, `sep0`,
/// `sep3`, `sep4`, `fix`, `sci`, `eng`) and reports all three settings.
pub fn impl_output_format(env: &mut Env, arg: &[Token]) -> (r: String)
    ensures
        ({
            let st0 = (old(env).output_radix, old(env).separate_digit, old(env).float_format);
            let st1 = format_args(st0, tokens_view(arg@));
            &&& (final(env).output_radix, final(env).separate_digit, final(env).float_format)
                == st1
            &&& r@ == format_report(st1, arg@.len() > 0)
        }),
        final(env).constant@ == old(env).constant@,
        final(env).variable@ == old(env).variable@,
        final(env).func@ == old(env).func@,
        final(env).user_func@ == old(env).user_func@,
        final(env).cmd@ == old(env).cmd@,
        final(env).debug == old(env).debug,
        final(env).history@ == old(env).history@,
        final(env).history_index == old(env).history_index,
        final(env).history_max == old(env).history_max,
{
    let ghost st0 = (env.output_radix, env.separate_digit, env.float_format);
    let mut i: usize = 0;
    while i < arg.len()
        invariant
            0 <= i <= arg.len(),
            (env.output_radix, env.separate_digit, env.float_format) == format_args(
                st0,
                tokens_view(arg@).take(i as int),
            ),
            env.constant@ == old(env).constant@,
            env.variable@ == old(env).variable@,
            env.func@ == old(env).func@,
            env.user_func@ == old(env).user_func@,
            env.cmd@ == old(env).cmd@,
            env.debug == old(env).debug,
            env.history@ == old(env).history@,
            env.history_index == old(env).history_index,
            env.history_max == old(env).history_max,
        decreases arg.len() - i,
    {
        proof {
            assert(tokens_view(arg@).take(i + 1).drop_last() =~= tokens_view(arg@).take(i as int));
            assert(tokens_view(arg@).take(i + 1).last() == arg@[i as int]@);
        }
        match &arg[i] {
            Token::Num(n) => {
                if *n == 2 {
                    env.output_radix = 2;
                } else if *n == 10 {
                    env.output_radix = 10;
                } else if *n == 16 {
                    env.output_radix = 16;
                }
            },
            Token::Ident(id) => {
                if is_word(id, "radix2") || is_word(id, "binary") {
                    env.output_radix = 2;
                } else if is_word(id, "radix10") || is_word(id, "decimal") {
                    env.output_radix = 10;
                } else if is_word(id, "radix16") || is_word(id, "hexadecimal") {
                    env.output_radix = 16;
                } else if is_word(id, "sep3") {
                    env.separate_digit = 3;
                } else if is_word(id, "sep4") {
                    env.separate_digit = 4;
                } else if is_word(id, "sep0") {
                    env.separate_digit = 0;
                } else if is_word(id, "sci") {
                    env.float_format = FloatFormat::Sci;
                } else if is_word(id, "eng") {
                    env.float_format = FloatFormat::Eng;
                } else if is_word(id, "fix") {
                    env.float_format = FloatFormat::Fix;
                }
            },
            _ => {},
        }
        i = i + 1;
    }
    assert(tokens_view(arg@).take(arg.len() as int) =~= tokens_view(arg@));
    let mut out: Vec<char> = Vec::new();
    push_str(&mut out, "format(radix = ");
    push_int_text(env.output_radix as i128, &mut out);
    push_str(&mut out, ", separate = ");
    push_int_text(env.separate_digit as i128, &mut out);
    if arg.len() > 0 {
        push_str(&mut out, ", float = ");
        match env.float_format {
            FloatFormat::Fix => push_str(&mut out, "Fix"),
            FloatFormat::Sci => push_str(&mut out, "Sci"),
            FloatFormat::Eng => push_str(&mut out, "Eng"),
        }
    }
    push_str(&mut out, ")");
    let ghost st1 = (env.output_radix, env.separate_digit, env.float_format);
    assert(out@ =~= format_report(st1, arg@.len() > 0));
    string_from_chars(&out)
}

/// What the arguments of the `debug` command set: `0`, `off`, `false`
/// clear it, `1`, `on`, `true` set it, anything else keeps it.
pub open spec fn debug_arg(d: bool, t: TokenView) -> bool {
    match t {
        TokenView::Num(n) => if n == 0 {
            false
        } else if n == 1 {
            true
        } else {
            d
        },
        TokenView::Ident(id) => if id == "on"@ || id == "true"@ {
            true
        } else if id == "off"@ || id == "false"@ {
            false
        } else {
            d
        },
        _ => d,
    }
}

pub open spec fn debug_report(d: bool) -> Seq<char> {
    "debug("@ + (if d {
        "true"@
    } else {
        "false"@
    }) + ")"@
}

/// The `debug` command: sets debug mode from its first argument and reports
/// the mode.
pub fn impl_debug(env: &mut Env, arg: &[Token]) -> (r: String)
    ensures
        final(env).debug == if arg@.len() == 0 {
            old(env).debug
        } else {
            debug_arg(old(env).debug, arg@[0]@)
        },
        r@ == debug_report(final(env).debug),
        final(env).constant@ == old(env).constant@,
        final(env).variable@ == old(env).variable@,
        final(env).func@ == old(env).func@,
        final(env).user_func@ == old(env).user_func@,
        final(env).cmd@ == old(env).cmd@,
        final(env).output_radix == old(env).output_radix,
        final(env).separate_digit == old(env).separate_digit,
        final(env).float_format == old(env).float_format,
        final(env).history@ == old(env).history@,
        final(env).history_index == old(env).history_index,
        final(env).history_max == old(env).history_max,
{
    if arg.len() > 0 {
        match &arg[0] {
            Token::Num(n) => {
                if *n == 0 {
                    env.debug = false;
                } else if *n == 1 {
                    env.debug = true;
                }
            },
            Token::Ident(id) => {
                if is_word(id, "on") || is_word(id, "true") {
                    env.debug = true;
                } else if is_word(id, "off") || is_word(id, "false") {
                    env.debug = false;
                }
            },
            _ => {},
        }
    }
    let mut out: Vec<char> = Vec::new();
    push_str(&mut out, "debug(");
    if env.debug {
        push_str(&mut out, "true");
    } else {
        push_str(&mut out, "false");
    }
    push_str(&mut out, ")");
    assert(out@ =~= debug_report(env.debug));
    string_from_chars(&out)
}

/// The `defun` command: `defun name tokens...` makes the tokens after the
/// name the body of the user function `name` (nothing happens when the
/// first argument is not a name).  It reports nothing.
pub fn impl_defun(env: &mut Env, arg: &[Token]) -> (r: String)
    requires
        old(env).wf(),
        arg@.len() > 0,
    ensures
        r@ == Seq::<char>::empty(),
        final(env).wf(),
        match arg@[0]@ {
            TokenView::Ident(id) => final(env).user_func_body(id) == Some(
                tokens_view(arg@).drop_first(),
            ),
            _ => *final(env) == *old(env),
        },
        forall|k: Seq<char>|
            !(arg@[0]@ == TokenView::Ident(k)) ==> #[trigger] final(env).user_func_body(k)
                == old(env).user_func_body(k),
        final(env).constant@ == old(env).constant@,
        final(env).variable@ == old(env).variable@,
        final(env).func@ == old(env).func@,
        final(env).cmd@ == old(env).cmd@,
{
    if let Token::Ident(id) = &arg[0] {
        let body = copy_tokens_from(arg, 1);
        proof {
            assert(tokens_view(arg@).skip(1) =~= tokens_view(arg@).drop_first());
        }
        env.new_user_func(id.clone(), &body);
    }
    String::new()
}

/// The lines `key` + CR LF for each key, in table order.
pub open spec fn key_lines(keys: Seq<Seq<char>>) -> Seq<char>
    decreases keys.len(),
{
    if keys.len() == 0 {
        Seq::empty()
    } else {
        key_lines(keys.drop_last()) + keys.last() + seq!['\r', '\n']
    }
}

fn key_lines_exec(keys: &Vec<String>) -> (r: String)
    ensures
        r@ == key_lines(keys_of(keys@)),
{
    let mut out: Vec<char> = Vec::new();
    let mut i: usize = 0;
    while i < keys.len()
        invariant
            0 <= i <= keys.len(),
            out@ == key_lines(keys_of(keys@).take(i as int)),
        decreases keys.len() - i,
    {
        let ghost o0 = out@;
        push_str(&mut out, keys[i].as_str());
        out.push('\r');
        out.push('\n');
        proof {
            let k = keys_of(keys@);
            assert(k.take(i + 1).drop_last() =~= k.take(i as int));
            assert(out@ =~= key_lines(k.take(i + 1)));
        }
        i = i + 1;
    }
    assert(keys_of(keys@).take(keys.len() as int) =~= keys_of(keys@));
    string_from_chars(&out)
}

/// The `func` command: the names of the built-in functions, one per line.
pub fn impl_func(env: &mut Env, arg: &[Token]) -> (r: String)
    ensures
        r@ == key_lines(old(env).func_keys()),
        *final(env) == *old(env),
{
    let mut names: Vec<String> = Vec::new();
    let mut i: usize = 0;
    while i < env.func.len()
        invariant
            0 <= i <= env.func.len(),
            keys_of(names@) == old(env).func_keys().take(i as int),
            *env == *old(env),
        decreases env.func.len() - i,
    {
        let x = env.func[i].0.clone();
        let ghost n0 = names@;
        names.push(x);
        assert(names@ == n0.push(x));
        assert(keys_of(names@) =~= keys_of(n0).push(x@));
        i = i + 1;
        assert(keys_of(names@) =~= old(env).func_keys().take(i as int));
    }
    assert(old(env).func_keys().take(env.func.len() as int) =~= old(env).func_keys());
    key_lines_exec(&names)
}

/// The `user_func` command: the names of the user defined functions, one per
/// line.
pub fn impl_user_func(env: &mut Env, arg: &[Token]) -> (r: String)
    ensures
        r@ == key_lines(old(env).user_func_keys()),
        *final(env) == *old(env),
{
    let mut names: Vec<String> = Vec::new();
    let mut i: usize = 0;
    while i < env.user_func.len()
        invariant
            0 <= i <= env.user_func.len(),
            keys_of(names@) == old(env).user_func_keys().take(i as int),
            *env == *old(env),
        decreases env.user_func.len() - i,
    {
        let x = env.user_func[i].0.clone();
        let ghost n0 = names@;
        names.push(x);
        assert(names@ == n0.push(x));
        assert(keys_of(names@) =~= keys_of(n0).push(x@));
        i = i + 1;
        assert(keys_of(names@) =~= old(env).user_func_keys().take(i as int));
    }
    assert(old(env).user_func_keys().take(env.user_func.len() as int)
        =~= old(env).user_func_keys());
    key_lines_exec(&names)
}

/// The lines `name : description` + CR LF of the commands, in table order.
pub open spec fn cmd_lines(cmds: Seq<(String, usize, String)>) -> Seq<char>
    decreases cmds.len(),
{
    if cmds.len() == 0 {
        Seq::empty()
    } else {
        cmd_lines(cmds.drop_last()) + cmds.last().0@ + " : "@ + cmds.last().2@ + seq!['\r', '\n']
    }
}

/// The `cmd` command: each command and its description, one per line.
pub fn impl_cmd(env: &mut Env, arg: &[Token]) -> (r: String)
    ensures
        r@ == cmd_lines(old(env).cmd@),
        *final(env) == *old(env),
{
    let mut out: Vec<char> = Vec::new();
    let mut i: usize = 0;
    while i < env.cmd.len()
        invariant
            0 <= i <= env.cmd.len(),
            out@ == cmd_lines(env.cmd@.take(i as int)),
            *env == *old(env),
        decreases env.cmd.len() - i,
    {
        push_str(&mut out, env.cmd[i].0.as_str());
        push_str(&mut out, " : ");
        push_str(&mut out, env.cmd[i].2.as_str());
        out.push('\r');
        out.push('\n');
        proof {
            assert(env.cmd@.take(i + 1).drop_last() =~= env.cmd@.take(i as int));
            assert(out@ =~= cmd_lines(env.cmd@.take(i + 1)));
        }
        i = i + 1;
    }
    assert(env.cmd@.take(env.cmd.len() as int) =~= env.cmd@);
    string_from_chars(&out)
}


// ----------------------------------------------------------------------
// History commands
/// The history listing: each entry on a line of its own, numbered from the
/// newest (`1`) back to the oldest, oldest first; `n` is the number of the
/// first entry.
pub open spec fn history_lines(h: Seq<Seq<char>>, n: int) -> Seq<char>
    decreases h.len(),
{
    if h.len() == 0 {
        Seq::empty()
    } else {
        history_lines(h.drop_last(), n) + int_text(n - (h.len() - 1)) + " "@ + h.last()
            + "\r\n"@
    }
}

/// The entry that `history k` runs again: the `k`-th newest.
pub open spec fn history_pick(h: Seq<Seq<char>>, arg: Seq<TokenView>) -> Option<Seq<char>> {
    if arg.len() > 0 {
        match arg[0] {
            TokenView::Num(k) => if 1 <= k <= h.len() {
                Some(h[h.len() - k])
            } else {
                None
            },
            _ => None,
        }
    } else {
        None
    }
}

/// The `history` command without an entry number: the listing of all
/// entries (see `history_lines`).
pub fn impl_history(env: &Env) -> (r: String)
    requires
        env.history@.len() <= i128::MAX,
    ensures
        r@ == history_lines(keys_of(env.history@), env.history@.len() as int),
{
    let ghost h = keys_of(env.history@);
    let n = env.history.len();
    let mut out: Vec<char> = Vec::new();
    let mut i: usize = 0;
    assert(h.take(0) =~= Seq::<Seq<char>>::empty());
    while i < n
        invariant
            h == keys_of(env.history@),
            n == env.history@.len(),
            n <= i128::MAX,
            0 <= i <= n,
            out@ == history_lines(h.take(i as int), n as int),
        decreases n - i,
    {
        let num: i128 = (n - i) as i128;
        push_int_text(num, &mut out);
        push_str(&mut out, " ");
        push_str(&mut out, env.history[i].as_str());
        push_str(&mut out, "\r\n");
        proof {
            let t = h.take(i + 1);
            assert(t.drop_last() =~= h.take(i as int));
            assert(t.last() == env.history@[i as int]@);
            assert(out@ =~= history_lines(t, n as int));
        }
        i = i + 1;
    }
    assert(h.take(n as int) =~= h);
    string_from_chars(&out)
}

/// The entry that `history k` runs again, if `k` numbers an entry.
pub fn history_recall(env: &Env, arg: &[Token]) -> (r: Option<String>)
    ensures
        match history_pick(keys_of(env.history@), tokens_view(arg@)) {
            None => r is None,
            Some(l) => r matches Some(s) && s@ == l,
        },
{
    if arg.len() == 0 {
        return None;
    }
    assert(tokens_view(arg@)[0] == arg@[0]@);
    match &arg[0] {
        Token::Num(k) => {
            let n = env.history.len();
            if 1 <= *k && *k <= n as i128 {
                let idx: usize = n - (*k as usize);
                assert(keys_of(env.history@)[idx as int] == env.history@[idx as int]@);
                Some(env.history[idx].clone())
            } else {
                None
            }
        },
        _ => None,
    }
}

/// The `history_max` number its argument sets: a number from zero up.
pub open spec fn history_max_arg(old_max: usize, arg: Seq<TokenView>) -> usize {
    if arg.len() > 0 {
        match arg[0] {
            TokenView::Num(k) => if 0 <= k <= usize::MAX {
                k as usize
            } else {
                old_max
            },
            _ => old_max,
        }
    } else {
        old_max
    }
}

/// The `history_max` command: sets how many entries the history file keeps
/// and reports `history_max N`.
pub fn impl_history_max(env: &mut Env, arg: &[Token]) -> (r: String)
    ensures
        final(env).history_max == history_max_arg(old(env).history_max, tokens_view(arg@)),
        r@ == "history_max "@ + int_text(final(env).history_max as int),
        final(env).constant@ == old(env).constant@,
        final(env).variable@ == old(env).variable@,
        final(env).func@ == old(env).func@,
        final(env).user_func@ == old(env).user_func@,
        final(env).cmd@ == old(env).cmd@,
        final(env).debug == old(env).debug,
        final(env).output_radix == old(env).output_radix,
        final(env).separate_digit == old(env).separate_digit,
        final(env).float_format == old(env).float_format,
        final(env).history@ == old(env).history@,
        final(env).history_index == old(env).history_index,
{
    if arg.len() > 0 {
        assert(tokens_view(arg@)[0] == arg@[0]@);
        if let Token::Num(k) = &arg[0] {
            if 0 <= *k && *k <= usize::MAX as i128 {
                env.history_max = *k as usize;
            }
        }
    }
    let mut out: Vec<char> = Vec::new();
    push_str(&mut out, "history_max ");
    push_int_text(env.history_max as i128, &mut out);
    string_from_chars(&out)
}

// ----------------------------------------------------------------------
// Built-in names
/// The built-in constants.
pub open spec fn builtin_consts() -> Seq<Seq<char>> {
    seq!["pi"@, "e"@, "eps"@, "i"@, "j"@, "inch2mm"@, "feet2mm"@, "oz2g"@]
}

/// The built-in functions and their number of parameters (0: any).
pub open spec fn builtin_funcs() -> Seq<(Seq<char>, usize)> {
    seq![("sin"@, 1usize), ("cos"@, 1usize), ("exp"@, 1usize), ("abs"@, 1usize), ("arg"@, 1usize), ("max"@, 0usize), ("ave"@, 0usize), ("sqrt"@, 1usize), ("E12"@, 1usize)]
}

/// The commands, their number of parameters and their descriptions.
pub open spec fn builtin_cmds() -> Seq<(Seq<char>, (usize, Seq<char>))> {
    seq![("format"@, (0usize, "set output format"@)), ("debug"@, (1usize, "set/reset debug mode"@)), ("exit"@, (0usize, "exit REPL"@)), ("defun"@, (0usize, "define user function"@)), ("constant"@, (0usize, "list constants"@)), ("variable"@, (0usize, "list user defined variables"@)), ("func"@, (0usize, "list functions"@)), ("user_func"@, (0usize, "list user defined functions"@)), ("cmd"@, (0usize, "list commands"@)), ("history"@, (0usize, "list history / re-execute entry"@)), ("history_max"@, (1usize, "set history size"@))]
}

pub open spec fn func_table_view(v: Seq<(String, usize)>) -> Seq<(Seq<char>, usize)> {
    v.map_values(|p: (String, usize)| (p.0@, p.1))
}

pub open spec fn cmd_table_view(v: Seq<(String, usize, String)>) -> Seq<(Seq<char>, (usize, Seq<char>))> {
    v.map_values(|p: (String, usize, String)| (p.0@, (p.1, p.2@)))
}

/// `names` with `k` added at the end unless it is there already.
pub open spec fn add_name(names: Seq<Seq<char>>, k: Seq<char>) -> Seq<Seq<char>> {
    if names.contains(k) {
        names
    } else {
        names.push(k)
    }
}

/// `names` with each of `ks` added in turn.
pub open spec fn add_names(names: Seq<Seq<char>>, ks: Seq<Seq<char>>) -> Seq<Seq<char>>
    decreases ks.len(),
{
    if ks.len() == 0 {
        names
    } else {
        add_name(add_names(names, ks.drop_last()), ks.last())
    }
}

/// The table with each entry of `es` set in turn (in place when its name
/// is there, else at the end).
pub open spec fn set_entries<V>(s: Seq<(Seq<char>, V)>, es: Seq<(Seq<char>, V)>) -> Seq<
    (Seq<char>, V),
>
    decreases es.len(),
{
    if es.len() == 0 {
        s
    } else {
        eset(set_entries(s, es.drop_last()), es.last().0, es.last().1)
    }
}

proof fn lemma_add_names_push(names: Seq<Seq<char>>, ks: Seq<Seq<char>>, k: Seq<char>)
    ensures
        add_names(names, ks.push(k)) == add_name(add_names(names, ks), k),
{
    assert(ks.push(k).drop_last() =~= ks);
}

proof fn lemma_set_entries_push<V>(s: Seq<(Seq<char>, V)>, es: Seq<(Seq<char>, V)>, e: (Seq<char>, V))
    ensures
        set_entries(s, es.push(e)) == eset(set_entries(s, es), e.0, e.1),
{
    assert(es.push(e).drop_last() =~= es);
}

impl Env {
    /// The settings and the history are those of `other`.
    pub open spec fn same_settings(&self, other: &Env) -> bool {
        &&& self.debug == other.debug
        &&& self.output_radix == other.output_radix
        &&& self.separate_digit == other.separate_digit
        &&& self.float_format == other.float_format
        &&& self.history@ == other.history@
        &&& self.history_index == other.history_index
        &&& self.history_max == other.history_max
    }

    /// Makes `k` a constant, unless it is one already.
    fn add_const(&mut self, k: String)
        requires
            old(self).wf(),
        ensures
            final(self).wf(),
            final(self).const_keys() == add_name(old(self).const_keys(), k@),
            final(self).variable@ == old(self).variable@,
            final(self).func@ == old(self).func@,
            final(self).user_func@ == old(self).user_func@,
            final(self).cmd@ == old(self).cmd@,
            final(self).same_settings(old(self)),
    {
        let ghost k0 = self.const_keys();
        proof {
            lemma_find_key_contains(k0, k@);
        }
        if position_of(&self.constant, &k).is_none() {
            self.constant.push(k);
            proof {
                assert(self.const_keys() =~= k0.push(k@));
            }
        }
    }

    /// Sets the number of parameters of the built-in function `k`.
    fn set_func(&mut self, k: String, n: usize)
        requires
            old(self).wf(),
        ensures
            final(self).wf(),
            func_table_view(final(self).func@) == eset(func_table_view(old(self).func@), k@, n),
            final(self).constant@ == old(self).constant@,
            final(self).variable@ == old(self).variable@,
            final(self).user_func@ == old(self).user_func@,
            final(self).cmd@ == old(self).cmd@,
            final(self).same_settings(old(self)),
    {
        let ghost t0 = func_table_view(self.func@);
        let ghost kk = k@;
        assert(pair_keys(self.func@) =~= exp_keys(t0));
        proof {
            lemma_eset(t0, kk, n);
        }
        match position_of_pair(&self.func, &k) {
            Some(i) => {
                self.func.set(i, (k, n));
            },
            None => {
                self.func.push((k, n));
            },
        }
        assert(func_table_view(self.func@) =~= eset(t0, kk, n));
        assert(pair_keys(self.func@) =~= exp_keys(func_table_view(self.func@)));
    }

    /// Sets the number of parameters and the description of the command
    /// `k`.
    fn set_cmd(&mut self, k: String, n: usize, d: String)
        requires
            old(self).wf(),
        ensures
            final(self).wf(),
            cmd_table_view(final(self).cmd@) == eset(cmd_table_view(old(self).cmd@), k@, (n, d@)),
            final(self).constant@ == old(self).constant@,
            final(self).variable@ == old(self).variable@,
            final(self).func@ == old(self).func@,
            final(self).user_func@ == old(self).user_func@,
            final(self).same_settings(old(self)),
    {
        let ghost t0 = cmd_table_view(self.cmd@);
        let ghost kk = k@;
        let ghost dd = d@;
        assert(triple_keys(self.cmd@) =~= exp_keys(t0));
        proof {
            lemma_eset(t0, kk, (n, dd));
        }
        match position_of_triple(&self.cmd, &k) {
            Some(i) => {
                self.cmd.set(i, (k, n, d));
            },
            None => {
                self.cmd.push((k, n, d));
            },
        }
        assert(cmd_table_view(self.cmd@) =~= eset(t0, kk, (n, dd)));
        assert(triple_keys(self.cmd@) =~= exp_keys(cmd_table_view(self.cmd@)));
    }

    /// Registers the built-in constants, functions and commands (a function
    /// or command already present gets the built-in entry), and the variable
    /// `ans`.
    pub fn built_in(&mut self)
        requires
            old(self).wf(),
        ensures
            final(self).wf(),
            final(self).const_keys() == add_names(old(self).const_keys(), builtin_consts()),
            func_table_view(final(self).func@) == set_entries(
                func_table_view(old(self).func@),
                builtin_funcs(),
            ),
            cmd_table_view(final(self).cmd@) == set_entries(
                cmd_table_view(old(self).cmd@),
                builtin_cmds(),
            ),
            final(self).var_keys() == add_name(old(self).var_keys(), "ans"@),
            final(self).user_func@ == old(self).user_func@,
            final(self).same_settings(old(self)),
    {
        let ghost c0 = self.const_keys();
        let ghost f0 = func_table_view(self.func@);
        let ghost m0 = cmd_table_view(self.cmd@);
        let ghost mut pc = Seq::<Seq<char>>::empty();
        assert(add_names(c0, pc) == c0);
        self.add_const("pi".to_owned());
        proof {
            lemma_add_names_push(c0, pc, "pi"@);
            pc = pc.push("pi"@);
        }
        assert(self.const_keys() == add_names(c0, pc));
        self.add_const("e".to_owned());
        proof {
            lemma_add_names_push(c0, pc, "e"@);
            pc = pc.push("e"@);
        }
        assert(self.const_keys() == add_names(c0, pc));
        self.add_const("eps".to_owned());
        proof {
            lemma_add_names_push(c0, pc, "eps"@);
            pc = pc.push("eps"@);
        }
        assert(self.const_keys() == add_names(c0, pc));
        self.add_const("i".to_owned());
        proof {
            lemma_add_names_push(c0, pc, "i"@);
            pc = pc.push("i"@);
        }
        assert(self.const_keys() == add_names(c0, pc));
        self.add_const("j".to_owned());
        proof {
            lemma_add_names_push(c0, pc, "j"@);
            pc = pc.push("j"@);
        }
        assert(self.const_keys() == add_names(c0, pc));
        self.add_const("inch2mm".to_owned());
        proof {
            lemma_add_names_push(c0, pc, "inch2mm"@);
            pc = pc.push("inch2mm"@);
        }
        assert(self.const_keys() == add_names(c0, pc));
        self.add_const("feet2mm".to_owned());
        proof {
            lemma_add_names_push(c0, pc, "feet2mm"@);
            pc = pc.push("feet2mm"@);
        }
        assert(self.const_keys() == add_names(c0, pc));
        self.add_const("oz2g".to_owned());
        proof {
            lemma_add_names_push(c0, pc, "oz2g"@);
            pc = pc.push("oz2g"@);
        }
        assert(self.const_keys() == add_names(c0, pc));
        assert(pc =~= builtin_consts());
        let ghost mut pf = Seq::<(Seq<char>, usize)>::empty();
        assert(set_entries(f0, pf) == f0);
        self.set_func("sin".to_owned(), 1);
        proof {
            lemma_set_entries_push(f0, pf, ("sin"@, 1usize));
            pf = pf.push(("sin"@, 1usize));
        }
        assert(func_table_view(self.func@) == set_entries(f0, pf));
        self.set_func("cos".to_owned(), 1);
        proof {
            lemma_set_entries_push(f0, pf, ("cos"@, 1usize));
            pf = pf.push(("cos"@, 1usize));
        }
        assert(func_table_view(self.func@) == set_entries(f0, pf));
        self.set_func("exp".to_owned(), 1);
        proof {
            lemma_set_entries_push(f0, pf, ("exp"@, 1usize));
            pf = pf.push(("exp"@, 1usize));
        }
        assert(func_table_view(self.func@) == set_entries(f0, pf));
        self.set_func("abs".to_owned(), 1);
        proof {
            lemma_set_entries_push(f0, pf, ("abs"@, 1usize));
            pf = pf.push(("abs"@, 1usize));
        }
        assert(func_table_view(self.func@) == set_entries(f0, pf));
        self.set_func("arg".to_owned(), 1);
        proof {
            lemma_set_entries_push(f0, pf, ("arg"@, 1usize));
            pf = pf.push(("arg"@, 1usize));
        }
        assert(func_table_view(self.func@) == set_entries(f0, pf));
        self.set_func("max".to_owned(), 0);
        proof {
            lemma_set_entries_push(f0, pf, ("max"@, 0usize));
            pf = pf.push(("max"@, 0usize));
        }
        assert(func_table_view(self.func@) == set_entries(f0, pf));
        self.set_func("ave".to_owned(), 0);
        proof {
            lemma_set_entries_push(f0, pf, ("ave"@, 0usize));
            pf = pf.push(("ave"@, 0usize));
        }
        assert(func_table_view(self.func@) == set_entries(f0, pf));
        self.set_func("sqrt".to_owned(), 1);
        proof {
            lemma_set_entries_push(f0, pf, ("sqrt"@, 1usize));
            pf = pf.push(("sqrt"@, 1usize));
        }
        assert(func_table_view(self.func@) == set_entries(f0, pf));
        self.set_func("E12".to_owned(), 1);
        proof {
            lemma_set_entries_push(f0, pf, ("E12"@, 1usize));
            pf = pf.push(("E12"@, 1usize));
        }
        assert(func_table_view(self.func@) == set_entries(f0, pf));
        assert(pf =~= builtin_funcs());
        let ghost mut pm = Seq::<(Seq<char>, (usize, Seq<char>))>::empty();
        assert(set_entries(m0, pm) == m0);
        self.set_cmd("format".to_owned(), 0, "set output format".to_owned());
        proof {
            lemma_set_entries_push(m0, pm, ("format"@, (0usize, "set output format"@)));
            pm = pm.push(("format"@, (0usize, "set output format"@)));
        }
        assert(cmd_table_view(self.cmd@) == set_entries(m0, pm));
        self.set_cmd("debug".to_owned(), 1, "set/reset debug mode".to_owned());
        proof {
            lemma_set_entries_push(m0, pm, ("debug"@, (1usize, "set/reset debug mode"@)));
            pm = pm.push(("debug"@, (1usize, "set/reset debug mode"@)));
        }
        assert(cmd_table_view(self.cmd@) == set_entries(m0, pm));
        self.set_cmd("exit".to_owned(), 0, "exit REPL".to_owned());
        proof {
            lemma_set_entries_push(m0, pm, ("exit"@, (0usize, "exit REPL"@)));
            pm = pm.push(("exit"@, (0usize, "exit REPL"@)));
        }
        assert(cmd_table_view(self.cmd@) == set_entries(m0, pm));
        self.set_cmd("defun".to_owned(), 0, "define user function".to_owned());
        proof {
            lemma_set_entries_push(m0, pm, ("defun"@, (0usize, "define user function"@)));
            pm = pm.push(("defun"@, (0usize, "define user function"@)));
        }
        assert(cmd_table_view(self.cmd@) == set_entries(m0, pm));
        self.set_cmd("constant".to_owned(), 0, "list constants".to_owned());
        proof {
            lemma_set_entries_push(m0, pm, ("constant"@, (0usize, "list constants"@)));
            pm = pm.push(("constant"@, (0usize, "list constants"@)));
        }
        assert(cmd_table_view(self.cmd@) == set_entries(m0, pm));
        self.set_cmd("variable".to_owned(), 0, "list user defined variables".to_owned());
        proof {
            lemma_set_entries_push(m0, pm, ("variable"@, (0usize, "list user defined variables"@)));
            pm = pm.push(("variable"@, (0usize, "list user defined variables"@)));
        }
        assert(cmd_table_view(self.cmd@) == set_entries(m0, pm));
        self.set_cmd("func".to_owned(), 0, "list functions".to_owned());
        proof {
            lemma_set_entries_push(m0, pm, ("func"@, (0usize, "list functions"@)));
            pm = pm.push(("func"@, (0usize, "list functions"@)));
        }
        assert(cmd_table_view(self.cmd@) == set_entries(m0, pm));
        self.set_cmd("user_func".to_owned(), 0, "list user defined functions".to_owned());
        proof {
            lemma_set_entries_push(m0, pm, ("user_func"@, (0usize, "list user defined functions"@)));
            pm = pm.push(("user_func"@, (0usize, "list user defined functions"@)));
        }
        assert(cmd_table_view(self.cmd@) == set_entries(m0, pm));
        self.set_cmd("cmd".to_owned(), 0, "list commands".to_owned());
        proof {
            lemma_set_entries_push(m0, pm, ("cmd"@, (0usize, "list commands"@)));
            pm = pm.push(("cmd"@, (0usize, "list commands"@)));
        }
        assert(cmd_table_view(self.cmd@) == set_entries(m0, pm));
        self.set_cmd("history".to_owned(), 0, "list history / re-execute entry".to_owned());
        proof {
            lemma_set_entries_push(m0, pm, ("history"@, (0usize, "list history / re-execute entry"@)));
            pm = pm.push(("history"@, (0usize, "list history / re-execute entry"@)));
        }
        assert(cmd_table_view(self.cmd@) == set_entries(m0, pm));
        self.set_cmd("history_max".to_owned(), 1, "set history size".to_owned());
        proof {
            lemma_set_entries_push(m0, pm, ("history_max"@, (1usize, "set history size"@)));
            pm = pm.push(("history_max"@, (1usize, "set history size"@)));
        }
        assert(cmd_table_view(self.cmd@) == set_entries(m0, pm));
        assert(pm =~= builtin_cmds());
        let ghost before = self.var_keys();
        self.new_variable("ans".to_owned());
        assert(self.var_keys() == add_name(before, "ans"@));
    }
}

} // verus!
