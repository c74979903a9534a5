//! The line editor's rules: editing the input line at the cursor, finding
//! the parenthesis that matches the one under the cursor, and the reaction to
//! each key (history, submission, redraw).
//!
//! Cursor positions count bytes of the line's UTF-8 text, as `String`
//! positions do; an edit at a position inside a character is refused.
use vstd::prelude::*;

use crate::env::{keys_of, Env};
use crate::strings::{chars_of, string_from_chars};

verus! {

/// The number of characters of a line.
pub fn line_len(line: &String) -> (n: usize)
    ensures
        n == line@.len(),
{
    let cs = chars_of(line.as_str());
    cs.len()
}

// ----------------------------------------------------------------------
// Byte positions
/// The number of bytes the UTF-8 encoding of `c` takes.
pub open spec fn utf8_width(c: char) -> int {
    if (c as u32) < 0x80 {
        1
    } else if (c as u32) < 0x800 {
        2
    } else if (c as u32) < 0x10000 {
        3
    } else {
        4
    }
}

/// The byte position at which the character at index `k` of `s` starts
/// (for `k == s.len()`, the number of bytes of `s`).
pub open spec fn byte_pos(s: Seq<char>, k: int) -> int
    decreases k,
{
    if k <= 0 {
        0
    } else {
        byte_pos(s, k - 1) + utf8_width(s[k - 1])
    }
}

/// The number of bytes of the UTF-8 text `s`.
pub open spec fn byte_len(s: Seq<char>) -> int {
    byte_pos(s, s.len() as int)
}

proof fn lemma_byte_pos_first(s: Seq<char>, k: int)
    requires
        1 <= k <= s.len(),
    ensures
        byte_pos(s, k) == utf8_width(s[0]) + byte_pos(s.drop_first(), k - 1),
    decreases k,
{
    reveal_with_fuel(byte_pos, 2);
    if k > 1 {
        lemma_byte_pos_first(s, k - 1);
        assert(s.drop_first()[k - 2] == s[k - 1]);
    }
}

/// `byte_len` is the length of the text's UTF-8 encoding, the number of
/// bytes of a `String` holding it.
pub proof fn lemma_byte_len_utf8(s: Seq<char>)
    ensures
        byte_len(s) == vstd::utf8::encode_utf8(s).len(),
    decreases s.len(),
{
    if s.len() > 0 {
        lemma_byte_pos_first(s, s.len() as int);
        lemma_byte_len_utf8(s.drop_first());
        vstd::utf8::char_is_scalar(s[0]);
        let v = s[0] as u32;
        assert(vstd::utf8::encode_scalar(v).len() == utf8_width(s[0])) by {
            if v < 0x80 {
                assert(vstd::utf8::has_width_1_encoding(v));
            } else if v < 0x800 {
                assert(vstd::utf8::has_width_2_encoding(v));
            } else if v < 0x10000 {
                assert(vstd::utf8::has_width_3_encoding(v));
            } else {
                assert(vstd::utf8::has_width_4_encoding(v));
            }
        }
        assert(vstd::utf8::encode_utf8(s) == vstd::utf8::encode_scalar(v) + vstd::utf8::encode_utf8(
            s.drop_first(),
        ));
    }
}

/// The index of the character that starts at byte `b` (`s.len()` when `b`
/// is the end of the text), if a character starts there.
pub open spec fn char_at_byte(s: Seq<char>, b: int) -> Option<int> {
    if exists|k: int| 0 <= k <= s.len() && #[trigger] byte_pos(s, k) == b {
        Some(choose|k: int| 0 <= k <= s.len() && #[trigger] byte_pos(s, k) == b)
    } else {
        None
    }
}

/// Byte positions grow with the character index, by one to four bytes a
/// character.
pub proof fn lemma_byte_pos_mono(s: Seq<char>, j: int, k: int)
    requires
        0 <= j <= k <= s.len(),
    ensures
        byte_pos(s, j) + (k - j) <= byte_pos(s, k) <= byte_pos(s, j) + 4 * (k - j),
    decreases k - j,
{
    if j < k {
        lemma_byte_pos_mono(s, j, k - 1);
    }
}

/// The character at index `k` starts at `byte_pos(s, k)`, and no other does.
pub proof fn lemma_char_at_byte(s: Seq<char>, k: int)
    requires
        0 <= k <= s.len(),
    ensures
        char_at_byte(s, byte_pos(s, k)) == Some(k),
{
    let b = byte_pos(s, k);
    assert(exists|m: int| 0 <= m <= s.len() && #[trigger] byte_pos(s, m) == b);
    let m = choose|m: int| 0 <= m <= s.len() && #[trigger] byte_pos(s, m) == b;
    if m < k {
        lemma_byte_pos_mono(s, m, k);
    } else if m > k {
        lemma_byte_pos_mono(s, k, m);
    }
}

/// Byte positions depend only on the characters before them.
proof fn lemma_byte_pos_prefix(s: Seq<char>, t: Seq<char>, k: int)
    requires
        0 <= k <= s.len(),
        k <= t.len(),
        forall|i: int| 0 <= i < k ==> s[i] == t[i],
    ensures
        byte_pos(s, k) == byte_pos(t, k),
    decreases k,
{
    if k > 0 {
        lemma_byte_pos_prefix(s, t, k - 1);
    }
}

/// Removing the character at index `k` takes its bytes out of the text.
proof fn lemma_byte_len_remove(s: Seq<char>, k: int)
    requires
        0 <= k < s.len(),
    ensures
        byte_len(s.remove(k)) == byte_len(s) - utf8_width(s[k]),
        byte_pos(s.remove(k), k) == byte_pos(s, k),
{
    let t = s.remove(k);
    lemma_byte_pos_prefix(s, t, k);
    lemma_byte_pos_shift(s, t, k + 1, k, -utf8_width(s[k]));
}

/// Inserting `c` at index `k` adds its bytes to the text.
proof fn lemma_byte_len_insert(s: Seq<char>, k: int, c: char)
    requires
        0 <= k <= s.len(),
    ensures
        byte_len(s.insert(k, c)) == byte_len(s) + utf8_width(c),
        byte_pos(s.insert(k, c), k) == byte_pos(s, k),
{
    let t = s.insert(k, c);
    lemma_byte_pos_prefix(s, t, k);
    assert(byte_pos(t, k + 1) == byte_pos(s, k) + utf8_width(c));
    lemma_byte_pos_shift(t, s, k + 1, k, -utf8_width(c));
}

/// When `s` from index `i` on and `t` from index `j` on hold the same
/// characters, their byte positions keep the same distance.
proof fn lemma_byte_pos_shift(s: Seq<char>, t: Seq<char>, i: int, j: int, d: int)
    requires
        0 <= i <= s.len(),
        0 <= j <= t.len(),
        s.len() - i == t.len() - j,
        forall|m: int| i <= m < s.len() ==> #[trigger] s[m] == t[m - i + j],
        byte_pos(t, j) == byte_pos(s, i) + d,
    ensures
        byte_len(t) == byte_len(s) + d,
    decreases s.len() - i,
{
    if i < s.len() {
        assert(s[i] == t[i - i + j]);
        lemma_byte_pos_shift(s, t, i + 1, j + 1, d);
    }
}

/// The number of bytes of `c` in UTF-8.
fn width_of(c: char) -> (w: u128)
    ensures
        w == utf8_width(c),
{
    let v = c as u32;
    if v < 0x80 {
        1
    } else if v < 0x800 {
        2
    } else if v < 0x10000 {
        3
    } else {
        4
    }
}

/// The number of bytes of the text `cs`.
fn byte_length(cs: &Vec<char>) -> (n: u128)
    ensures
        n == byte_len(cs@),
{
    let mut i: usize = 0;
    let mut off: u128 = 0;
    while i < cs.len()
        invariant
            0 <= i <= cs.len(),
            off == byte_pos(cs@, i as int),
        decreases cs.len() - i,
    {
        proof {
            lemma_byte_pos_mono(cs@, 0, i as int + 1);
        }
        off = off + width_of(cs[i]);
        i = i + 1;
    }
    off
}

/// The index of the character that starts at byte `b`, if one does.
fn char_index_of_byte(cs: &Vec<char>, b: usize) -> (r: Option<usize>)
    ensures
        match r {
            Some(k) => char_at_byte(cs@, b as int) == Some(k as int),
            None => char_at_byte(cs@, b as int) is None,
        },
{
    let mut i: usize = 0;
    let mut off: u128 = 0;
    while i < cs.len() && off < b as u128
        invariant
            0 <= i <= cs.len(),
            off == byte_pos(cs@, i as int),
            forall|j: int| 0 <= j < i ==> byte_pos(cs@, j) < b,
        decreases cs.len() - i,
    {
        proof {
            lemma_byte_pos_mono(cs@, 0, i as int + 1);
        }
        off = off + width_of(cs[i]);
        i = i + 1;
    }
    if off == b as u128 {
        proof {
            lemma_char_at_byte(cs@, i as int);
        }
        Some(i)
    } else {
        proof {
            assert forall|k: int| 0 <= k <= cs@.len() implies #[trigger] byte_pos(cs@, k) != b by {
                if k > i {
                    lemma_byte_pos_mono(cs@, i as int, k);
                }
            }
        }
        None
    }
}

/// What an editing operation needs of the line: its number of bytes fits
/// the `u16` cursor, which counts bytes.
pub open spec fn editable(line: Seq<char>) -> bool {
    byte_len(line) <= u16::MAX
}

/// Delete key: removes the character that starts at the cursor, if the
/// cursor is before the end; the cursor stays.
pub fn do_delete(line: &mut String, prev: u16) -> (cur: u16)
    requires
        editable(old(line)@),
        prev < byte_len(old(line)@) ==> char_at_byte(old(line)@, prev as int) is Some,
    ensures
        cur == prev,
        final(line)@ == if (prev as int) < byte_len(old(line)@) {
            old(line)@.remove(char_at_byte(old(line)@, prev as int).unwrap())
        } else {
            old(line)@
        },
{
    let mut cs = chars_of(line.as_str());
    let n = byte_length(&cs);
    if (prev as u128) < n {
        let k = char_index_of_byte(&cs, prev as usize).unwrap();
        proof {
            if k == cs@.len() {
                assert(byte_pos(cs@, k as int) == byte_len(cs@));
            }
            lemma_char_at_byte(cs@, k as int);
        }
        cs.remove(k);
        *line = string_from_chars(&cs);
    }
    prev
}

/// Backspace key: removes the character that starts the byte before the
/// cursor and moves the cursor back one byte; at the start of the line
/// nothing changes.
pub fn do_backspace(line: &mut String, prev: u16) -> (cur: u16)
    requires
        editable(old(line)@),
        prev as int <= byte_len(old(line)@),
        prev > 0 ==> char_at_byte(old(line)@, prev - 1) is Some,
    ensures
        prev == 0 ==> cur == 0 && final(line)@ == old(line)@,
        prev > 0 ==> cur == prev - 1 && final(line)@ == old(line)@.remove(
            char_at_byte(old(line)@, prev - 1).unwrap(),
        ),
{
    if prev == 0 {
        0
    } else {
        let mut cs = chars_of(line.as_str());
        let k = char_index_of_byte(&cs, (prev - 1) as usize).unwrap();
        proof {
            if k == cs@.len() {
                assert(byte_pos(cs@, k as int) == byte_len(cs@));
            }
        }
        cs.remove(k);
        *line = string_from_chars(&cs);
        prev - 1
    }
}

/// Left key: the cursor moves one byte left, stopping at the start.
pub fn do_left(line: &mut String, prev: u16) -> (cur: u16)
    requires
        editable(old(line)@),
        prev as int <= byte_len(old(line)@),
    ensures
        final(line)@ == old(line)@,
        cur == if prev == 0 {
            0
        } else {
            prev - 1
        },
{
    if prev == 0 {
        0
    } else {
        prev - 1
    }
}

/// Right key: the cursor moves one byte right, stopping at the end.
pub fn do_right(line: &mut String, prev: u16) -> (cur: u16)
    requires
        editable(old(line)@),
    ensures
        final(line)@ == old(line)@,
        cur == if (prev as int) < byte_len(old(line)@) {
            prev + 1
        } else {
            prev as int
        },
{
    let cs = chars_of(line.as_str());
    let n = byte_length(&cs);
    if (prev as u128) < n {
        prev + 1
    } else {
        prev
    }
}

/// A printable key: inserts `c` at the cursor (a byte position at which a
/// character starts, or the end) and moves the cursor one byte on.
pub fn do_insert(line: &mut String, prev: u16, c: char) -> (cur: u16)
    requires
        editable(old(line)@),
        char_at_byte(old(line)@, prev as int) is Some,
        prev < u16::MAX,
    ensures
        cur == prev + 1,
        final(line)@ == old(line)@.insert(char_at_byte(old(line)@, prev as int).unwrap(), c),
{
    let mut cs = chars_of(line.as_str());
    let k = char_index_of_byte(&cs, prev as usize).unwrap();
    cs.insert(k, c);
    *line = string_from_chars(&cs);
    prev + 1
}

// ----------------------------------------------------------------------
// Matching parentheses
/// Scans right from `pos` for the `)` that closes a `(`, with `count`
/// parentheses opened since.
pub open spec fn scan_close(s: Seq<char>, pos: int, count: int) -> Option<int>
    decreases s.len() - pos,
{
    if pos < 0 || pos >= s.len() {
        None
    } else if s[pos] == '(' {
        scan_close(s, pos + 1, count + 1)
    } else if s[pos] == ')' {
        if count == 0 {
            Some(pos)
        } else {
            scan_close(s, pos + 1, count - 1)
        }
    } else {
        scan_close(s, pos + 1, count)
    }
}

/// Scans left from `pos` for the `(` that opens a `)`, with `count`
/// parentheses closed since.
pub open spec fn scan_open(s: Seq<char>, pos: int, count: int) -> Option<int>
    decreases pos,
{
    if pos < 0 || pos >= s.len() {
        None
    } else if s[pos] == '(' && count == 0 {
        Some(pos)
    } else {
        let next = if s[pos] == ')' {
            count + 1
        } else if s[pos] == '(' {
            count - 1
        } else {
            count
        };
        if pos == 0 {
            None
        } else {
            scan_open(s, pos - 1, next)
        }
    }
}

/// The position of the parenthesis that matches the one at `index`, if
/// `index` holds a parenthesis that has a match.
pub open spec fn match_paren(s: Seq<char>, index: int) -> Option<int> {
    if index < 0 || index >= s.len() {
        None
    } else if s[index] == ')' {
        scan_open(s, index - 1, 0)
    } else if s[index] == '(' {
        scan_close(s, index + 1, 0)
    } else {
        None
    }
}

proof fn lemma_scan_close_in(s: Seq<char>, pos: int, count: int)
    ensures
        scan_close(s, pos, count) matches Some(p) ==> 0 <= p < s.len(),
    decreases s.len() - pos,
{
    if 0 <= pos < s.len() {
        lemma_scan_close_in(s, pos + 1, count + 1);
        lemma_scan_close_in(s, pos + 1, count - 1);
        lemma_scan_close_in(s, pos + 1, count);
    }
}

proof fn lemma_scan_open_in(s: Seq<char>, pos: int, count: int)
    ensures
        scan_open(s, pos, count) matches Some(p) ==> 0 <= p < s.len(),
    decreases pos,
{
    if 0 < pos < s.len() {
        lemma_scan_open_in(s, pos - 1, count + 1);
        lemma_scan_open_in(s, pos - 1, count - 1);
        lemma_scan_open_in(s, pos - 1, count);
    }
}

/// A matching parenthesis lies within the line.
pub proof fn lemma_match_paren_in_line(s: Seq<char>, index: int)
    ensures
        match_paren(s, index) matches Some(p) ==> 0 <= p < s.len(),
{
    lemma_scan_open_in(s, index - 1, 0);
    lemma_scan_close_in(s, index + 1, 0);
}

/// Finds the parenthesis that matches the one at `index` (for
/// highlighting); `index` counts characters, and a position past the
/// line's bytes has no match.
pub fn find_match_paren(line: &str, index: usize) -> (r: Option<usize>)
    requires
        line@.len() <= i32::MAX,
        index < byte_len(line@) ==> index < line@.len(),
        index < line@.len() && line@[index as int] == ')' ==> index > 0,
    ensures
        match r {
            Some(p) => match_paren(line@, index as int) == Some(p as int),
            None => match_paren(line@, index as int) is None,
        },
{
    let chars = chars_of(line);
    if chars.len() <= index {
        return None;
    }
    let ghost s = chars@;
    let mut count: i32 = 0;
    if chars[index] == ')' {
        let mut pos: usize = index - 1;
        loop
            invariant
                s == chars@,
                s == line@,
                s.len() <= i32::MAX,
                pos < index < s.len(),
                s[index as int] == ')',
                0 <= count <= index - pos,
                scan_open(s, pos as int, count as int) == scan_open(s, index - 1, 0),
            decreases pos,
        {
            let c = chars[pos];
            if c == ')' {
                count = count + 1;
            } else if c == '(' {
                if count == 0 {
                    return Some(pos);
                } else {
                    count = count - 1;
                }
            }
            if pos == 0 {
                return None;
            }
            pos = pos - 1;
        }
    }
    if chars[index] == '(' {
        let mut pos: usize = index + 1;
        while pos < chars.len()
            invariant
                s == chars@,
                s == line@,
                s.len() <= i32::MAX,
                index < pos <= s.len(),
                s[index as int] == '(',
                0 <= count <= pos - index,
                scan_close(s, pos as int, count as int) == scan_close(s, index + 1, 0),
            decreases s.len() - pos,
        {
            let c = chars[pos];
            if c == '(' {
                count = count + 1;
            } else if c == ')' {
                if count == 0 {
                    return Some(pos);
                } else {
                    count = count - 1;
                }
            }
            pos = pos + 1;
        }
    }
    None
}

// ----------------------------------------------------------------------
// The reaction to a key
/// The keys the editor reacts to.
#[derive(Debug, Clone, Copy, PartialEq, Eq, Structural)]
pub enum Key {
    /// Control and `c`: leave the editor.
    CtrlC,
    Delete,
    Backspace,
    Left,
    Right,
    Up,
    Down,
    Enter,
    /// A character key (with any modifiers but Control-c).
    Char(char),
    /// Any other key.
    Other,
}

/// What the terminal side does after a key.
#[derive(Debug, PartialEq, Eq)]
pub enum EditAction {
    /// Nothing.
    Nothing,
    /// Write CR LF, save the history and leave the editor.
    Quit,
    /// Redraw the line; the cursor was at the first position and is now at
    /// the second.
    Redraw(u16, u16),
    /// Redraw the line with the character at the third position
    /// highlighted (a matching parenthesis).
    Highlight(u16, u16, u16),
    /// Redraw the line with the cursor at the first position and the
    /// character at the third position highlighted, pause briefly, then
    /// redraw with the cursor at the second position.
    Flash(u16, u16, u16),
    /// Write CR LF, evaluate the line and print its result, then redraw the
    /// (now empty) line.
    Submit(String),
}

pub enum ActionView {
    Nothing,
    Quit,
    Redraw(int, int),
    Highlight(int, int, int),
    Flash(int, int, int),
    Submit(Seq<char>),
}

impl View for EditAction {
    type V = ActionView;

    open spec fn view(&self) -> ActionView {
        match self {
            EditAction::Nothing => ActionView::Nothing,
            EditAction::Quit => ActionView::Quit,
            EditAction::Redraw(a, b) => ActionView::Redraw(*a as int, *b as int),
            EditAction::Highlight(a, b, c) => ActionView::Highlight(*a as int, *b as int, *c as int),
            EditAction::Flash(a, b, c) => ActionView::Flash(*a as int, *b as int, *c as int),
            EditAction::Submit(l) => ActionView::Submit(l@),
        }
    }
}

/// The line being edited and the cursor position.
pub struct LineEditor {
    pub line: String,
    pub cur: u16,
}

impl LineEditor {
    /// An empty line with the cursor at its start.
    pub fn new() -> (e: LineEditor)
        ensures
            e.line@ == Seq::<char>::empty(),
            e.cur == 0,
            e.wf(),
    {
        LineEditor { line: String::new(), cur: 0 }
    }

    /// The line can be edited and the cursor stands within its bytes or
    /// just after them.
    pub open spec fn wf(&self) -> bool {
        editable(self.line@) && self.cur as int <= byte_len(self.line@)
    }
}

/// The editor's state: the line, the cursor, the history and the history
/// entry shown.
pub struct EdState {
    pub line: Seq<char>,
    pub cur: int,
    pub hist: Seq<Seq<char>>,
    pub hidx: int,
}

/// Whether `t` occurs in `s`.
pub open spec fn contains_text(s: Seq<char>, t: Seq<char>) -> bool {
    exists|i: int| 0 <= i && i + t.len() <= s.len() && #[trigger] s.subrange(i, i + t.len()) == t
}

/// An entered line goes into the history unless it is empty or mentions
/// `history` or `exit`.
pub open spec fn recorded(line: Seq<char>) -> bool {
    line.len() > 0 && !contains_text(line, "history"@) && !contains_text(line, "exit"@)
}

/// After the cursor moves to `cur`: highlight the matching parenthesis if
/// the cursor stands on one that has a match.
pub open spec fn move_action(line: Seq<char>, prev: int, cur: int) -> ActionView {
    match match_paren(line, cur) {
        Some(p) => ActionView::Highlight(prev, cur, p),
        None => ActionView::Redraw(prev, cur),
    }
}

/// The reaction to key `k` in state `s`: the next state and what the
/// terminal side does.  The cursor counts bytes; a character is inserted
/// and removed at the byte where it starts.  History entries longer than a
/// `u16` cursor can address are not loaded, and a character that would make
/// the line too long is not inserted.
pub open spec fn key_step_spec(s: EdState, k: Key) -> (EdState, ActionView) {
    let len = byte_len(s.line);
    match k {
        Key::CtrlC => (s, ActionView::Quit),
        Key::Delete => {
            let l = if s.cur < len {
                s.line.remove(char_at_byte(s.line, s.cur).unwrap())
            } else {
                s.line
            };
            (EdState { line: l, ..s }, ActionView::Redraw(s.cur, s.cur))
        },
        Key::Backspace => if s.cur == 0 {
            (s, ActionView::Redraw(0, 0))
        } else {
            (
                EdState {
                    line: s.line.remove(char_at_byte(s.line, s.cur - 1).unwrap()),
                    cur: s.cur - 1,
                    ..s
                },
                ActionView::Redraw(s.cur, s.cur - 1),
            )
        },
        Key::Left => {
            let c = if s.cur == 0 {
                0
            } else {
                s.cur - 1
            };
            (EdState { cur: c, ..s }, move_action(s.line, s.cur, c))
        },
        Key::Right => {
            let c = if s.cur < len {
                s.cur + 1
            } else {
                s.cur
            };
            (EdState { cur: c, ..s }, move_action(s.line, s.cur, c))
        },
        Key::Up => if s.hidx > 0 {
            let h = s.hidx - 1;
            if h < s.hist.len() && editable(s.hist[h]) {
                (
                    EdState { line: s.hist[h], cur: byte_len(s.hist[h]), hidx: h, ..s },
                    ActionView::Redraw(len, byte_len(s.hist[h])),
                )
            } else {
                (EdState { hidx: h, ..s }, ActionView::Nothing)
            }
        } else {
            (s, ActionView::Nothing)
        },
        Key::Down => {
            let h = s.hidx + 1;
            let l = if h < s.hist.len() {
                if editable(s.hist[h]) {
                    s.hist[h]
                } else {
                    s.line
                }
            } else {
                Seq::<char>::empty()
            };
            (
                EdState { line: l, cur: byte_len(l), hidx: h, ..s },
                ActionView::Redraw(len, byte_len(l)),
            )
        },
        Key::Enter => {
            let hist = if recorded(s.line) {
                s.hist.push(s.line)
            } else {
                s.hist
            };
            let hidx = if recorded(s.line) {
                hist.len() as int
            } else {
                s.hidx
            };
            (
                EdState { line: Seq::empty(), cur: 0, hist: hist, hidx: hidx },
                ActionView::Submit(s.line),
            )
        },
        Key::Char(c) => if len + utf8_width(c) <= u16::MAX {
            let l = s.line.insert(char_at_byte(s.line, s.cur).unwrap(), c);
            let a = if c == ')' {
                match match_paren(l, s.cur) {
                    Some(p) => ActionView::Flash(s.cur, s.cur + 1, p),
                    None => ActionView::Redraw(s.cur, s.cur + 1),
                }
            } else {
                ActionView::Redraw(s.cur, s.cur + 1)
            };
            (EdState { line: l, cur: s.cur + 1, ..s }, a)
        } else {
            (s, ActionView::Nothing)
        },
        Key::Other => (s, ActionView::Nothing),
    }
}

/// Looking for the parenthesis that matches the one at byte position `i`
/// cannot be done: `i` is within the bytes of `l` but beyond its
/// characters, or a `)` at the start would be searched for before it.
pub open spec fn paren_fails(l: Seq<char>, i: int) -> bool {
    ||| (i < byte_len(l) && i >= l.len())
    ||| (i == 0 && l.len() > 0 && l[0] == ')')
}

/// The keys that the editor cannot take at cursor `cur`: an edit at a byte
/// inside a character, or a search for a matching parenthesis that cannot
/// be done (see `paren_fails`).
pub open spec fn key_step_fails(line: Seq<char>, cur: int, k: Key) -> bool {
    let len = byte_len(line);
    match k {
        Key::Delete => cur < len && char_at_byte(line, cur) is None,
        Key::Backspace => cur > 0 && char_at_byte(line, cur - 1) is None,
        Key::Left => paren_fails(
            line,
            if cur == 0 {
                0
            } else {
                cur - 1
            },
        ),
        Key::Right => paren_fails(
            line,
            if cur < len {
                cur + 1
            } else {
                cur
            },
        ),
        Key::Char(c) => len + utf8_width(c) <= u16::MAX && (char_at_byte(line, cur) is None || (c
            == ')' && paren_fails(line.insert(char_at_byte(line, cur).unwrap(), c), cur))),
        _ => false,
    }
}

pub open spec fn ed_state(env: Env, ed: LineEditor) -> EdState {
    EdState {
        line: ed.line@,
        cur: ed.cur as int,
        hist: keys_of(env.history@),
        hidx: env.history_index as int,
    }
}

/// The number of bytes of `s`.
fn byte_len_of(s: &String) -> (n: u128)
    ensures
        n == byte_len(s@),
{
    let cs = chars_of(s.as_str());
    byte_length(&cs)
}

/// Whether the editor can hold `s`.
fn is_editable(s: &String) -> (b: bool)
    ensures
        b == editable(s@),
{
    byte_len_of(s) <= 65535
}

/// What removing the character that starts at byte `b` does to the byte
/// positions.
proof fn lemma_remove_at_byte(l: Seq<char>, b: int)
    requires
        char_at_byte(l, b) is Some,
        b < byte_len(l),
    ensures
        0 <= char_at_byte(l, b).unwrap() < l.len(),
        byte_len(l.remove(char_at_byte(l, b).unwrap())) < byte_len(l),
        b <= byte_len(l.remove(char_at_byte(l, b).unwrap())),
{
    let k = char_at_byte(l, b).unwrap();
    assert(0 <= k <= l.len() && byte_pos(l, k) == b);
    lemma_byte_len_remove(l, k);
    let t = l.remove(k);
    lemma_byte_pos_mono(t, k, t.len() as int);
}

/// What inserting `c` at the character that starts at byte `b` does to the
/// byte positions.
proof fn lemma_insert_at_byte(l: Seq<char>, b: int, c: char)
    requires
        char_at_byte(l, b) is Some,
    ensures
        0 <= char_at_byte(l, b).unwrap() <= l.len(),
        byte_pos(l, char_at_byte(l, b).unwrap()) == b,
        byte_len(l.insert(char_at_byte(l, b).unwrap(), c)) == byte_len(l) + utf8_width(c),
        char_at_byte(l.insert(char_at_byte(l, b).unwrap(), c), b) == Some(char_at_byte(l, b).unwrap()),
        b < byte_len(l.insert(char_at_byte(l, b).unwrap(), c)),
{
    let k = char_at_byte(l, b).unwrap();
    assert(0 <= k <= l.len() && byte_pos(l, k) == b);
    lemma_byte_len_insert(l, k, c);
    let t = l.insert(k, c);
    lemma_char_at_byte(t, k);
    lemma_byte_pos_mono(t, k, k + 1);
    lemma_byte_pos_mono(t, k + 1, t.len() as int);
}

/// Whether looking for a match at byte `i` cannot be done (see
/// `paren_fails`).
fn paren_fails_exec(cs: &Vec<char>, n: u128, i: u128) -> (b: bool)
    requires
        n == byte_len(cs@),
    ensures
        b == paren_fails(cs@, i as int),
{
    ((i < n) && i >= cs.len() as u128) || (i == 0 && cs.len() > 0 && cs[0] == ')')
}

/// Whether `t` occurs in `s`.
fn has_text(s: &String, t: &str) -> (b: bool)
    ensures
        b == contains_text(s@, t@),
{
    let a = chars_of(s.as_str());
    let w = chars_of(t);
    if w.len() > a.len() {
        proof {
            assert forall|i: int| 0 <= i && i + w@.len() <= a@.len() implies #[trigger] a@.subrange(
                i,
                i + w@.len(),
            ) != w@ by {}
        }
        return false;
    }
    let mut i: usize = 0;
    while i <= a.len() - w.len()
        invariant
            a@ == s@,
            w@ == t@,
            w.len() <= a.len(),
            0 <= i <= a.len() - w.len() + 1,
            forall|m: int| 0 <= m < i ==> #[trigger] a@.subrange(m, m + w@.len()) != w@,
        decreases a.len() - i,
    {
        let mut j: usize = 0;
        while j < w.len() && a[i + j] == w[j]
            invariant
                a@ == s@,
                w@ == t@,
                i + w.len() <= a.len(),
                0 <= j <= w.len(),
                forall|q: int| 0 <= q < j ==> a@[i + q] == w@[q],
            decreases w.len() - j,
        {
            j = j + 1;
        }
        if j == w.len() {
            assert(a@.subrange(i as int, i + w@.len()) =~= w@);
            return true;
        }
        assert(a@.subrange(i as int, i + w@.len())[j as int] != w@[j as int]);
        i = i + 1;
    }
    false
}

/// Whether `key_step` cannot take key `k` (see `key_step_fails`).
pub fn key_step_would_fail(ed: &LineEditor, k: Key) -> (b: bool)
    requires
        ed.wf(),
    ensures
        b == key_step_fails(ed.line@, ed.cur as int, k),
{
    let cs = chars_of(ed.line.as_str());
    let n = byte_length(&cs);
    let cur = ed.cur;
    match k {
        Key::Delete => (cur as u128) < n && char_index_of_byte(&cs, cur as usize).is_none(),
        Key::Backspace => cur > 0 && char_index_of_byte(&cs, (cur - 1) as usize).is_none(),
        Key::Left => {
            let c: u128 = if cur == 0 {
                0
            } else {
                (cur - 1) as u128
            };
            paren_fails_exec(&cs, n, c)
        },
        Key::Right => {
            let c: u128 = if (cur as u128) < n {
                cur as u128 + 1
            } else {
                cur as u128
            };
            paren_fails_exec(&cs, n, c)
        },
        Key::Char(ch) => {
            if n + width_of(ch) <= 65535 {
                match char_index_of_byte(&cs, cur as usize) {
                    None => true,
                    Some(kk) => {
                        if ch == ')' {
                            let mut l: Vec<char> = Vec::new();
                            let mut j: usize = 0;
                            while j < cs.len()
                                invariant
                                    0 <= j <= cs.len(),
                                    l@ == cs@.take(j as int),
                                decreases cs.len() - j,
                            {
                                l.push(cs[j]);
                                j = j + 1;
                                assert(l@ =~= cs@.take(j as int));
                            }
                            assert(cs@.take(cs.len() as int) =~= cs@);
                            l.insert(kk, ch);
                            let nl = byte_length(&l);
                            paren_fails_exec(&l, nl, cur as u128)
                        } else {
                            false
                        }
                    },
                }
            } else {
                false
            }
        },
        _ => false,
    }
}

/// The editor's reaction to a key (see `key_step_spec`).
pub fn key_step(env: &mut Env, ed: &mut LineEditor, k: Key) -> (a: EditAction)
    requires
        old(ed).wf(),
        old(env).history_index < usize::MAX,
        !key_step_fails(old(ed).line@, old(ed).cur as int, k),
    ensures
        final(ed).wf(),
        (ed_state(*final(env), *final(ed)), a@) == key_step_spec(ed_state(*old(env), *old(ed)), k),
        final(env).constant@ == old(env).constant@,
        final(env).variable@ == old(env).variable@,
        final(env).func@ == old(env).func@,
        final(env).user_func@ == old(env).user_func@,
        final(env).cmd@ == old(env).cmd@,
        final(env).debug == old(env).debug,
        final(env).output_radix == old(env).output_radix,
        final(env).separate_digit == old(env).separate_digit,
        final(env).float_format == old(env).float_format,
        final(env).history_max == old(env).history_max,
{
    let ghost s0 = ed_state(*env, *ed);
    let ghost l0 = ed.line@;
    let cs = chars_of(ed.line.as_str());
    let n = byte_length(&cs);
    proof {
        lemma_byte_pos_mono(l0, 0, l0.len() as int);
    }
    let prev = ed.cur;
    match k {
        Key::CtrlC => EditAction::Quit,
        Key::Delete => {
            proof {
                if (prev as int) < byte_len(l0) {
                    lemma_remove_at_byte(l0, prev as int);
                }
            }
            let c = do_delete(&mut ed.line, prev);
            ed.cur = c;
            EditAction::Redraw(prev, c)
        },
        Key::Backspace => {
            proof {
                if prev > 0 {
                    lemma_remove_at_byte(l0, prev - 1);
                }
            }
            let c = do_backspace(&mut ed.line, prev);
            ed.cur = c;
            EditAction::Redraw(prev, c)
        },
        Key::Left | Key::Right => {
            let c = if k == Key::Left {
                do_left(&mut ed.line, prev)
            } else {
                do_right(&mut ed.line, prev)
            };
            ed.cur = c;
            proof {
                lemma_match_paren_in_line(ed.line@, c as int);
            }
            match find_match_paren(ed.line.as_str(), c as usize) {
                Some(p) => EditAction::Highlight(prev, c, p as u16),
                None => EditAction::Redraw(prev, c),
            }
        },
        Key::Up => {
            if env.history_index > 0 {
                env.history_index = env.history_index - 1;
                let h = env.history_index;
                if h < env.history.len() {
                    let entry = env.history[h].clone();
                    let m = byte_len_of(&entry);
                    if m <= 65535 {
                        ed.line = entry;
                        ed.cur = m as u16;
                        return EditAction::Redraw(n as u16, m as u16);
                    }
                }
            }
            EditAction::Nothing
        },
        Key::Down => {
            env.history_index = env.history_index + 1;
            let h = env.history_index;
            if h < env.history.len() {
                let entry = env.history[h].clone();
                if is_editable(&entry) {
                    ed.line = entry;
                }
            } else {
                ed.line = String::new();
                proof {
                    assert(byte_len(ed.line@) == 0);
                }
            }
            let m = byte_len_of(&ed.line);
            ed.cur = m as u16;
            EditAction::Redraw(n as u16, m as u16)
        },
        Key::Enter => {
            let line = ed.line.clone();
            if cs.len() > 0 && !has_text(&line, "history") && !has_text(&line, "exit") {
                env.history.push(line.clone());
                env.history_index = env.history.len();
                proof {
                    assert(keys_of(env.history@) =~= keys_of(old(env).history@).push(line@));
                }
            }
            ed.line = String::new();
            ed.cur = 0;
            proof {
                assert(byte_len(ed.line@) == 0);
            }
            EditAction::Submit(line)
        },
        Key::Char(c) => {
            if n + width_of(c) <= 65535 {
                proof {
                    lemma_insert_at_byte(l0, prev as int, c);
                }
                let c2 = do_insert(&mut ed.line, prev, c);
                ed.cur = c2;
                proof {
                    let kk = char_at_byte(l0, prev as int).unwrap();
                    let t = l0.insert(kk, c);
                    lemma_byte_pos_mono(t, kk, kk + 1);
                    lemma_byte_pos_mono(t, kk + 1, t.len() as int);
                    lemma_byte_pos_mono(t, 0, t.len() as int);
                }
                if c == ')' {
                    proof {
                        lemma_match_paren_in_line(ed.line@, prev as int);
                    }
                    match find_match_paren(ed.line.as_str(), prev as usize) {
                        Some(p) => EditAction::Flash(prev, c2, p as u16),
                        None => EditAction::Redraw(prev, c2),
                    }
                } else {
                    EditAction::Redraw(prev, c2)
                }
            } else {
                EditAction::Nothing
            }
        },
        Key::Other => EditAction::Nothing,
    }
}

// ----------------------------------------------------------------------
// Laws of the editor
/// A state the editor can be in: an editable line with the cursor within
/// its bytes or just after them.
pub open spec fn ed_wf(s: EdState) -> bool {
    editable(s.line) && 0 <= s.cur <= byte_len(s.line)
}

/// Typing a character where one starts (the line having room for it) and
/// then Backspace leaves the line and the cursor as they were.
pub proof fn lemma_insert_then_backspace(s: EdState, c: char)
    requires
        ed_wf(s),
        char_at_byte(s.line, s.cur) is Some,
        byte_len(s.line) + utf8_width(c) <= u16::MAX,
    ensures
        ({
            let s2 = key_step_spec(key_step_spec(s, Key::Char(c)).0, Key::Backspace).0;
            s2.line == s.line && s2.cur == s.cur && s2.hist == s.hist && s2.hidx == s.hidx
        }),
{
    let k = char_at_byte(s.line, s.cur).unwrap();
    lemma_insert_at_byte(s.line, s.cur, c);
    let s1 = key_step_spec(s, Key::Char(c)).0;
    assert(s1.line == s.line.insert(k, c));
    assert(s1.cur == s.cur + 1);
    assert(char_at_byte(s1.line, s1.cur - 1) == Some(k));
    assert(s1.line.remove(k) =~= s.line);
}

/// A line entered with Enter is shown again by Up (when it went into the
/// history), with the cursor after its last byte.
pub proof fn lemma_enter_then_up(s: EdState)
    requires
        ed_wf(s),
        recorded(s.line),
    ensures
        key_step_spec(key_step_spec(s, Key::Enter).0, Key::Up).0.line == s.line,
        key_step_spec(key_step_spec(s, Key::Enter).0, Key::Up).0.cur == byte_len(s.line),
{
    let s1 = key_step_spec(s, Key::Enter).0;
    assert(s1.hist == s.hist.push(s.line));
    assert(s1.hidx == s.hist.len() + 1);
    assert(s1.hist[s1.hidx - 1] == s.line);
}

// ----------------------------------------------------------------------
// Matching parentheses match each other
/// `(` opens (+1), `)` closes (-1), anything else is 0.
pub open spec fn paren_step(c: char) -> int {
    if c == '(' {
        1
    } else if c == ')' {
        -1
    } else {
        0
    }
}

/// Opened minus closed parentheses in `s[a..b]`.
pub open spec fn bal(s: Seq<char>, a: int, b: int) -> int
    decreases b - a,
{
    if b <= a {
        0
    } else {
        bal(s, a, b - 1) + paren_step(s[b - 1])
    }
}

proof fn lemma_bal_split(s: Seq<char>, a: int, b: int, c: int)
    requires
        a <= b <= c,
    ensures
        bal(s, a, c) == bal(s, a, b) + bal(s, b, c),
    decreases c - b,
{
    if b < c {
        lemma_bal_split(s, a, b, c - 1);
    }
}

proof fn lemma_bal_front(s: Seq<char>, a: int, b: int)
    requires
        a < b,
    ensures
        bal(s, a, b) == paren_step(s[a]) + bal(s, a + 1, b),
{
    assert(bal(s, a, a) == 0);
    assert(bal(s, a, a + 1) == paren_step(s[a]));
    lemma_bal_split(s, a, a + 1, b);
}

/// What a forward scan that finds `j` has seen: `j` closes with the count
/// at zero, and no earlier `)` did.
pub open spec fn closes_at(s: Seq<char>, pos: int, count: int, j: int) -> bool {
    &&& pos <= j < s.len()
    &&& s[j] == ')'
    &&& count + bal(s, pos, j) == 0
    &&& forall|m: int| pos <= m <= j ==> count + #[trigger] bal(s, pos, m) >= 0
    &&& forall|m: int| pos <= m < j ==> !(s[m] == ')' && count + #[trigger] bal(s, pos, m) == 0)
}

proof fn lemma_scan_close_sound(s: Seq<char>, pos: int, count: int)
    requires
        0 <= pos,
        count >= 0,
    ensures
        scan_close(s, pos, count) matches Some(j) ==> closes_at(s, pos, count, j),
    decreases s.len() - pos,
{
    if pos < s.len() {
        let c = s[pos];
        let next = if c == '(' {
            count + 1
        } else if c == ')' {
            count - 1
        } else {
            count
        };
        if !(c == ')' && count == 0) {
            lemma_scan_close_sound(s, pos + 1, next);
            if let Some(j) = scan_close(s, pos + 1, next) {
                assert forall|m: int| pos < m <= j implies count + #[trigger] bal(s, pos, m) == next + bal(
                    s,
                    pos + 1,
                    m,
                ) by {
                    lemma_bal_front(s, pos, m);
                }
                assert(bal(s, pos, pos) == 0);
                assert forall|m: int| pos <= m <= j implies count + #[trigger] bal(s, pos, m) >= 0 by {
                    if m > pos {
                        assert(next + bal(s, pos + 1, m) >= 0);
                    }
                }
                assert forall|m: int| pos <= m < j implies !(s[m] == ')' && count + #[trigger] bal(
                    s,
                    pos,
                    m,
                ) == 0) by {
                    if m > pos {
                        assert(!(s[m] == ')' && next + bal(s, pos + 1, m) == 0));
                    }
                }
                assert(count + bal(s, pos, j) == next + bal(s, pos + 1, j));
            }
        } else {
            assert(bal(s, pos, pos) == 0);
        }
    }
}

proof fn lemma_scan_close_complete(s: Seq<char>, pos: int, count: int, j: int)
    requires
        0 <= pos,
        closes_at(s, pos, count, j),
    ensures
        scan_close(s, pos, count) == Some(j),
    decreases j - pos,
{
    assert(bal(s, pos, pos) == 0);
    if pos < j {
        let c = s[pos];
        let next = if c == '(' {
            count + 1
        } else if c == ')' {
            count - 1
        } else {
            count
        };
        assert(!(c == ')' && count + bal(s, pos, pos) == 0));
        assert forall|m: int| pos < m <= j implies count + #[trigger] bal(s, pos, m) == next + bal(
            s,
            pos + 1,
            m,
        ) by {
            lemma_bal_front(s, pos, m);
        }
        assert forall|m: int| pos + 1 <= m <= j implies next + #[trigger] bal(s, pos + 1, m) >= 0 by {
            assert(count + bal(s, pos, m) >= 0);
        }
        assert forall|m: int| pos + 1 <= m < j implies !(s[m] == ')' && next + #[trigger] bal(
            s,
            pos + 1,
            m,
        ) == 0) by {
            assert(!(s[m] == ')' && count + bal(s, pos, m) == 0));
        }
        assert(next + bal(s, pos + 1, j) == 0);
        lemma_scan_close_complete(s, pos + 1, next, j);
    }
}

/// What a backward scan from `pos` that finds `m` has seen: `m` opens with
/// the count at zero, and no later `(` did.
pub open spec fn opens_at(s: Seq<char>, pos: int, count: int, m: int) -> bool {
    &&& 0 <= m <= pos < s.len()
    &&& s[m] == '('
    &&& count - bal(s, m + 1, pos + 1) == 0
    &&& forall|k: int| m <= k <= pos ==> count - #[trigger] bal(s, k + 1, pos + 1) >= 0
    &&& forall|k: int| m < k <= pos ==> !(s[k] == '(' && count - #[trigger] bal(s, k + 1, pos + 1) == 0)
}

proof fn lemma_scan_open_sound(s: Seq<char>, pos: int, count: int)
    requires
        pos < s.len(),
        count >= 0,
    ensures
        scan_open(s, pos, count) matches Some(m) ==> opens_at(s, pos, count, m),
    decreases pos,
{
    if 0 <= pos {
        assert(bal(s, pos + 1, pos + 1) == 0);
        let c = s[pos];
        if !(c == '(' && count == 0) && pos > 0 {
            let next = if c == ')' {
                count + 1
            } else if c == '(' {
                count - 1
            } else {
                count
            };
            lemma_scan_open_sound(s, pos - 1, next);
            if let Some(m) = scan_open(s, pos - 1, next) {
                assert forall|k: int| m <= k <= pos - 1 implies count - #[trigger] bal(s, k + 1, pos + 1)
                    == next - bal(s, k + 1, pos) by {
                    lemma_bal_split(s, k + 1, pos, pos + 1);
                    assert(bal(s, pos, pos + 1) == paren_step(s[pos])) by {
                        assert(bal(s, pos, pos) == 0);
                    }
                }
                assert forall|k: int| m <= k <= pos implies count - #[trigger] bal(
                    s,
                    k + 1,
                    pos + 1,
                ) >= 0 by {
                    if k < pos {
                        assert(next - bal(s, k + 1, pos) >= 0);
                    }
                }
                assert forall|k: int| m < k <= pos implies !(s[k] == '(' && count - #[trigger] bal(
                    s,
                    k + 1,
                    pos + 1,
                ) == 0) by {
                    if k < pos {
                        assert(!(s[k] == '(' && next - bal(s, k + 1, pos) == 0));
                    }
                }
            }
        }
    }
}

proof fn lemma_scan_open_complete(s: Seq<char>, pos: int, count: int, m: int)
    requires
        opens_at(s, pos, count, m),
    ensures
        scan_open(s, pos, count) == Some(m),
    decreases pos - m,
{
    assert(bal(s, pos + 1, pos + 1) == 0);
    if m < pos {
        let c = s[pos];
        assert(!(c == '(' && count - bal(s, pos + 1, pos + 1) == 0));
        let next = if c == ')' {
            count + 1
        } else if c == '(' {
            count - 1
        } else {
            count
        };
        assert forall|k: int| m <= k <= pos - 1 implies count - #[trigger] bal(s, k + 1, pos + 1) == next
            - bal(s, k + 1, pos) by {
            lemma_bal_split(s, k + 1, pos, pos + 1);
            assert(bal(s, pos, pos + 1) == paren_step(s[pos])) by {
                assert(bal(s, pos, pos) == 0);
            }
        }
        assert forall|k: int| m <= k <= pos - 1 implies next - #[trigger] bal(s, k + 1, pos) >= 0 by {
            assert(count - bal(s, k + 1, pos + 1) >= 0);
        }
        assert forall|k: int| m < k <= pos - 1 implies !(s[k] == '(' && next - #[trigger] bal(
            s,
            k + 1,
            pos,
        ) == 0) by {
            assert(!(s[k] == '(' && count - bal(s, k + 1, pos + 1) == 0));
        }
        assert(next - bal(s, m + 1, pos) == 0);
        lemma_scan_open_complete(s, pos - 1, next, m);
    }
}

/// Parenthesis matching pairs a `(` with a later `)` such that the text
/// between them is balanced (as many `(` as `)`, and no prefix of it closes
/// more than it opens), and it is symmetric: when the parenthesis at `i`
/// matches the one at `j`, the one at `j` matches the one at `i`.
pub proof fn lemma_match_paren_symmetric(s: Seq<char>, i: int, j: int)
    requires
        match_paren(s, i) == Some(j),
    ensures
        match_paren(s, j) == Some(i),
        s[i] == '(' ==> i < j && closes_at(s, i + 1, 0, j),
        s[i] == ')' ==> j < i && s[j] == '(' && closes_at(s, j + 1, 0, i),
{
    if s[i] == '(' {
        lemma_scan_close_sound(s, i + 1, 0);
        assert(closes_at(s, i + 1, 0, j));
        // the backward scan from before j stops exactly at i
        assert(bal(s, i + 1, j) == 0);
        assert forall|k: int| i <= k <= j - 1 implies 0 - #[trigger] bal(s, k + 1, j) >= 0 by {
            lemma_bal_split(s, i + 1, k + 1, j);
            assert(0 + bal(s, i + 1, k + 1) >= 0);
        }
        assert forall|k: int| i < k <= j - 1 implies !(s[k] == '(' && 0 - #[trigger] bal(
            s,
            k + 1,
            j,
        ) == 0) by {
            lemma_bal_split(s, i + 1, k + 1, j);
            if s[k] == '(' {
                assert(bal(s, i + 1, k + 1) == bal(s, i + 1, k) + 1);
                assert(0 + bal(s, i + 1, k) >= 0);
            }
        }
        assert(opens_at(s, j - 1, 0, i));
        lemma_scan_open_complete(s, j - 1, 0, i);
    } else {
        assert(s[i] == ')');
        lemma_scan_open_sound(s, i - 1, 0);
        assert(opens_at(s, i - 1, 0, j));
        assert(bal(s, j + 1, i) == 0);
        assert forall|k: int| j + 1 <= k <= i implies 0 + #[trigger] bal(s, j + 1, k) >= 0 by {
            if k <= i - 1 {
                lemma_bal_split(s, j + 1, k, i);
                assert(0 - bal(s, k, i) >= 0) by {
                    if k >= j + 1 {
                        assert(0 - bal(s, (k - 1) + 1, (i - 1) + 1) >= 0);
                    }
                }
            }
        }
        assert forall|k: int| j + 1 <= k < i implies !(s[k] == ')' && 0 + #[trigger] bal(
            s,
            j + 1,
            k,
        ) == 0) by {
            lemma_bal_split(s, j + 1, k, i);
            if s[k] == ')' {
                lemma_bal_front(s, k, i);
                assert(0 - bal(s, k + 1, i) >= 0);
            }
        }
        assert(closes_at(s, j + 1, 0, i));
        lemma_scan_close_complete(s, j + 1, 0, i);
    }
}

} // verus!
