//! Lines that do not come from the line editor: a script or the startup
//! file, read line by line, and the history file, saved when the editor is
//! left and read back when it starts.
use vstd::prelude::*;

use crate::env::{keys_of, Env};
use crate::lexer::{lemma_lexer_len, lexer, spec_lexer};
use crate::parser::{keys_extend, only_new_vars, spec_parse, stuck, try_parse, Node, NodeView};
use crate::strings::{chars_of, string_from_chars};
use crate::{ErrorView, MyError};

verus! {

// ----------------------------------------------------------------------
// Lexing and parsing one line
/// A line lexed and parsed: nothing for a line without tokens (blank or a
/// comment), with the variable names after parsing.
pub open spec fn parse_line_spec(
    sc: crate::env::Scope,
    vars: Seq<Seq<char>>,
    line: Seq<char>,
) -> (Seq<Seq<char>>, Result<Option<NodeView>, ErrorView>) {
    match spec_lexer(line) {
        Err(e) => (vars, Err(e)),
        Ok(ts) => if ts.len() == 0 {
            (vars, Ok(None))
        } else {
            let (v, r) = spec_parse(sc, vars, ts);
            (
                v,
                match r {
                    Ok(n) => Ok(Some(n)),
                    Err(e) => Err(e),
                },
            )
        },
    }
}

/// Whether the parse of a line would not finish (see `stuck`).
pub open spec fn line_stuck(sc: crate::env::Scope, vars: Seq<Seq<char>>, line: Seq<char>) -> bool {
    spec_lexer(line) matches Ok(ts) && ts.len() > 0 && spec_parse(sc, vars, ts).1 == Err::<
        NodeView,
        ErrorView,
    >(stuck())
}

/// Lexes and parses one input line: `Some(Ok(None))` when it has no
/// tokens; `None` when its parse would not finish.
pub fn parse_line(env: &mut Env, line: &str) -> (r: Option<Result<Option<Node>, MyError>>)
    requires
        old(env).wf(),
        line@.len() < usize::MAX,
    ensures
        final(env).wf(),
        final(env).same_but_variables(old(env)),
        keys_extend(old(env).var_keys(), final(env).var_keys()),
        only_new_vars(old(env).scope(), old(env).var_keys(), final(env).var_keys()),
        match r {
            None => line_stuck(old(env).scope(), old(env).var_keys(), line@),
            Some(x) => !line_stuck(old(env).scope(), old(env).var_keys(), line@)
                && parse_line_spec(old(env).scope(), old(env).var_keys(), line@) == (
                final(env).var_keys(),
                match x {
                    Ok(Some(n)) => Ok::<Option<NodeView>, ErrorView>(Some(n@)),
                    Ok(None) => Ok::<Option<NodeView>, ErrorView>(None),
                    Err(e) => Err::<Option<NodeView>, ErrorView>(e@),
                },
            ),
        },
{
    proof {
        lemma_lexer_len(line@);
    }
    let tokens = match lexer(line.to_owned()) {
        Ok(t) => t,
        Err(e) => {
            return Some(Err(e));
        },
    };
    if tokens.len() == 0 {
        return Some(Ok(None));
    }
    match try_parse(env, &tokens) {
        None => None,
        Some(Ok(n)) => Some(Ok(Some(n))),
        Some(Err(e)) => Some(Err(e)),
    }
}

// ----------------------------------------------------------------------
// The history file
/// The lines kept in the history file: nothing is written when
/// `history_max` is zero, else the last `history_max` entries.
pub open spec fn saved_lines(hist: Seq<Seq<char>>, max: nat) -> Option<Seq<Seq<char>>> {
    if max == 0 {
        None
    } else if hist.len() > max {
        Some(hist.skip(hist.len() - max))
    } else {
        Some(hist)
    }
}

/// Each line followed by a line feed.
pub open spec fn lines_text(ls: Seq<Seq<char>>) -> Seq<char>
    decreases ls.len(),
{
    if ls.len() == 0 {
        Seq::empty()
    } else {
        lines_text(ls.drop_last()) + ls.last().push('\n')
    }
}

/// The text of the history file, or `None` when no file is written.
pub fn history_file_text(env: &Env) -> (r: Option<String>)
    ensures
        match saved_lines(keys_of(env.history@), env.history_max as nat) {
            None => r is None,
            Some(ls) => r matches Some(t) && t@ == lines_text(ls),
        },
{
    if env.history_max == 0 {
        return None;
    }
    let n = env.history.len();
    let start: usize = if n > env.history_max {
        n - env.history_max
    } else {
        0
    };
    let ghost h = keys_of(env.history@);
    let ghost ls = h.skip(start as int);
    let mut out: Vec<char> = Vec::new();
    let mut i: usize = start;
    assert(ls.take(0) =~= Seq::<Seq<char>>::empty());
    while i < n
        invariant
            h == keys_of(env.history@),
            n == env.history@.len(),
            ls == h.skip(start as int),
            start <= i <= n,
            out@ == lines_text(ls.take(i - start)),
        decreases n - i,
    {
        let cs = chars_of(env.history[i].as_str());
        let mut j: usize = 0;
        let ghost o = out@;
        while j < cs.len()
            invariant
                0 <= j <= cs.len(),
                out@ == o + cs@.take(j as int),
            decreases cs.len() - j,
        {
            out.push(cs[j]);
            proof {
                assert(cs@.take(j + 1) =~= cs@.take(j as int).push(cs@[j as int]));
            }
            j = j + 1;
        }
        out.push('\n');
        proof {
            let t = ls.take(i + 1 - start);
            assert(t.drop_last() =~= ls.take(i - start));
            assert(t.last() == h[i as int]);
            assert(h[i as int] == env.history@[i as int]@);
            assert(cs@.take(cs@.len() as int) =~= cs@);
            assert(out@ =~= lines_text(t));
        }
        i = i + 1;
    }
    proof {
        assert(ls.take(n - start) =~= ls);
        if !(h.len() > env.history_max) {
            assert(h.skip(0) =~= h);
        }
    }
    Some(string_from_chars(&out))
}

/// A line read from the history file, line end included, as a history
/// entry: its last character is dropped; a line that is then empty is no
/// entry.
pub open spec fn entry_of(raw: Seq<char>) -> Option<Seq<char>> {
    if raw.len() <= 1 {
        None
    } else {
        Some(raw.drop_last())
    }
}

/// Adds a line read from the history file: it becomes the last entry and
/// the entry shown moves one further.
pub fn add_history(env: &mut Env, line: String)
    requires
        old(env).history_index < usize::MAX,
    ensures
        keys_of(final(env).history@) == keys_of(old(env).history@).push(line@),
        final(env).history_index == old(env).history_index + 1,
        final(env).constant@ == old(env).constant@,
        final(env).variable@ == old(env).variable@,
        final(env).func@ == old(env).func@,
        final(env).user_func@ == old(env).user_func@,
        final(env).cmd@ == old(env).cmd@,
        final(env).debug == old(env).debug,
        final(env).output_radix == old(env).output_radix,
        final(env).separate_digit == old(env).separate_digit,
        final(env).float_format == old(env).float_format,
        final(env).history_max == old(env).history_max,
{
    let ghost l = line@;
    env.history.push(line);
    env.history_index = env.history_index + 1;
    assert(keys_of(env.history@) =~= keys_of(old(env).history@).push(l));
}

/// The end of the line that starts at `i`: the position of the first line
/// feed at or after `i`, or the length of the text.
pub open spec fn line_end(t: Seq<char>, i: int) -> int
    decreases t.len() - i,
{
    if i < 0 || i >= t.len() {
        t.len() as int
    } else if t[i] == '\n' {
        i
    } else {
        line_end(t, i + 1)
    }
}

/// A line ends at a line feed or at the end of the text, after its start.
pub proof fn lemma_line_end(t: Seq<char>, i: int)
    requires
        0 <= i <= t.len(),
    ensures
        i <= line_end(t, i) <= t.len(),
        line_end(t, i) < t.len() ==> t[line_end(t, i)] == '\n',
        forall|k: int| i <= k < line_end(t, i) ==> t[k] != '\n',
    decreases t.len() - i,
{
    if i < t.len() && t[i] != '\n' {
        lemma_line_end(t, i + 1);
    }
}

/// The line of the text that starts at `i`, with its line feed if it has
/// one.
pub open spec fn raw_line(t: Seq<char>, i: int) -> Seq<char> {
    let e = line_end(t, i);
    if e < t.len() {
        t.subrange(i, e + 1)
    } else {
        t.subrange(i, e)
    }
}

/// The history entries of the text from position `i` on: the entry of each
/// line read from there (see `entry_of`), lines that give none skipped.
pub open spec fn entries_from(t: Seq<char>, i: int) -> Seq<Seq<char>>
    decreases t.len() - i,
{
    if i < 0 || i >= t.len() {
        Seq::empty()
    } else {
        proof {
            lemma_line_end(t, i);
        }
        let e = line_end(t, i);
        let rest = if e < t.len() {
            entries_from(t, e + 1)
        } else {
            Seq::empty()
        };
        match entry_of(raw_line(t, i)) {
            Some(x) => seq![x] + rest,
            None => rest,
        }
    }
}

/// The history entries of the whole text of a history file.
pub open spec fn file_entries(t: Seq<char>) -> Seq<Seq<char>> {
    entries_from(t, 0)
}

/// The entries of a history file's text, in order: each line with its last
/// character (the line feed) dropped; empty lines are skipped.
pub fn history_entries(text: &str) -> (r: Vec<String>)
    ensures
        keys_of(r@) == file_entries(text@),
{
    let cs = chars_of(text);
    let ghost t = cs@;
    let mut out: Vec<String> = Vec::new();
    let mut i: usize = 0;
    while i < cs.len()
        invariant
            t == cs@,
            t == text@,
            0 <= i <= cs.len(),
            file_entries(t) == keys_of(out@) + entries_from(t, i as int),
        decreases cs.len() - i,
    {
        let mut e: usize = i;
        while e < cs.len() && cs[e] != '\n'
            invariant
                i <= e <= cs.len(),
                t == cs@,
                line_end(t, e as int) == line_end(t, i as int),
            decreases cs.len() - e,
        {
            e = e + 1;
        }
        proof {
            lemma_line_end(t, i as int);
        }
        let stop: usize = if e < cs.len() {
            e + 1
        } else {
            e
        };
        assert(cs@.subrange(i as int, stop as int) == raw_line(t, i as int));
        let ghost o = keys_of(out@);
        if stop - i > 1 {
            let l = string_from_chars(&cs.as_slice()[i..stop - 1]);
            assert(cs@.subrange(i as int, stop - 1) =~= raw_line(t, i as int).drop_last());
            out.push(l);
            assert(keys_of(out@) =~= o + seq![raw_line(t, i as int).drop_last()]);
        }
        i = stop;
    }
    out
}

/// The text of a history file of lines `ls` starts with the first line and
/// its line feed.
proof fn lemma_lines_text_first(ls: Seq<Seq<char>>)
    requires
        ls.len() > 0,
    ensures
        lines_text(ls) == ls[0].push('\n') + lines_text(ls.drop_first()),
    decreases ls.len(),
{
    if ls.len() == 1 {
        assert(ls.drop_last() =~= Seq::<Seq<char>>::empty());
        assert(ls.drop_first() =~= Seq::<Seq<char>>::empty());
        assert(lines_text(ls) =~= ls[0].push('\n') + lines_text(ls.drop_first()));
    } else {
        lemma_lines_text_first(ls.drop_last());
        assert(ls.drop_last().drop_first() =~= ls.drop_first().drop_last());
        assert(ls.drop_last()[0] == ls[0]);
        assert(ls.drop_first().last() == ls.last());
        assert(lines_text(ls) =~= ls[0].push('\n') + lines_text(ls.drop_first()));
    }
}

/// Reading entries from `p + s` at `p.len() + j` is reading `s` at `j`.
proof fn lemma_entries_shift(p: Seq<char>, s: Seq<char>, j: int)
    requires
        0 <= j <= s.len(),
    ensures
        entries_from(p + s, p.len() + j) == entries_from(s, j),
    decreases s.len() - j,
{
    let t = p + s;
    if j < s.len() {
        lemma_line_end_shift(p, s, j);
        lemma_line_end(s, j);
        if line_end(s, j) < s.len() {
            lemma_entries_shift(p, s, line_end(s, j) + 1);
        }
        assert(raw_line(t, p.len() + j) =~= raw_line(s, j));
    }
}

proof fn lemma_line_end_shift(p: Seq<char>, s: Seq<char>, j: int)
    requires
        0 <= j <= s.len(),
    ensures
        line_end(p + s, p.len() + j) == p.len() + line_end(s, j),
    decreases s.len() - j,
{
    if j < s.len() {
        assert((p + s)[p.len() + j] == s[j]);
        lemma_line_end_shift(p, s, j + 1);
    }
}

/// A line without line feeds ends at its own end.
proof fn lemma_line_end_of_line(x: Seq<char>, s: Seq<char>, i: int)
    requires
        0 <= i <= x.len(),
        !x.contains('\n'),
    ensures
        line_end(x.push('\n') + s, i) == x.len(),
    decreases x.len() - i,
{
    let t = x.push('\n') + s;
    if i < x.len() {
        assert(t[i] == x[i]);
        assert(x[i] != '\n') by {
            if x[i] == '\n' {
                assert(x.contains('\n'));
            }
        }
        lemma_line_end_of_line(x, s, i + 1);
    } else {
        assert(t[i] == '\n');
    }
}

/// The history file that is written when the editor is left reads back as
/// the entries it kept: the last `history_max` entries, in order, provided
/// each entry is non-empty and holds no line feed.
pub proof fn lemma_history_file_reads_back(hist: Seq<Seq<char>>, max: nat)
    requires
        max > 0,
        forall|k: int| 0 <= k < hist.len() ==> #[trigger] hist[k].len() > 0 && !hist[k].contains('\n'),
    ensures
        saved_lines(hist, max) matches Some(ls) && file_entries(lines_text(ls)) == ls,
{
    let ls = saved_lines(hist, max).unwrap();
    assert forall|k: int| 0 <= k < ls.len() implies #[trigger] ls[k].len() > 0 && !ls[k].contains('\n') by {
        if hist.len() > max {
            assert(ls[k] == hist[hist.len() - max + k]);
        }
    }
    lemma_lines_read_back(ls);
}

proof fn lemma_lines_read_back(ls: Seq<Seq<char>>)
    requires
        forall|k: int| 0 <= k < ls.len() ==> #[trigger] ls[k].len() > 0 && !ls[k].contains('\n'),
    ensures
        entries_from(lines_text(ls), 0) == ls,
    decreases ls.len(),
{
    if ls.len() == 0 {
        assert(entries_from(lines_text(ls), 0) =~= ls);
    } else {
        let x = ls[0];
        let tail = ls.drop_first();
        assert(ls[0].len() > 0 && !ls[0].contains('\n'));
        assert forall|k: int| 0 <= k < tail.len() implies #[trigger] tail[k].len() > 0
            && !tail[k].contains('\n') by {
            assert(tail[k] == ls[k + 1]);
        }
        lemma_lines_read_back(tail);
        lemma_lines_text_first(ls);
        let rest = lines_text(tail);
        let t = x.push('\n') + rest;
        lemma_line_end_of_line(x, rest, 0);
        assert(raw_line(t, 0) =~= x.push('\n'));
        assert(x.push('\n').drop_last() =~= x);
        lemma_entries_shift(x.push('\n'), rest, 0);
        assert(x.push('\n').len() == x.len() + 1);
        assert(entries_from(t, 0) == seq![x] + entries_from(t, x.len() + 1int));
        assert(entries_from(lines_text(ls), 0) =~= ls);
    }
}

} // verus!
