//! An editor widget: a text buffer and a cursor, driven by key events.
use vstd::prelude::*;

use crate::buffer::{
    char_index, law_undo_reverts_delete, law_undo_reverts_insert, BufferModel, Position, TextBuffer,
};
use crate::lines::{
    break_ends_at, cut, cut_keeps_crlf_apart, insert_char_at, lemma_join_lines, is_plain_char, is_trimmed_len, law_lines_start_after_breaks,
    lemma_insert_line_starts, lemma_insert_newline, lemma_lf_keeps_insert, lemma_line_bounds,
    lemma_line_of, lemma_line_of_unique,
    lemma_line_starts, lf_only, line_count, line_end, line_len, line_of, line_start, line_starts,
    line_text, shift_after, splits_crlf,
};

verus! {

/// The keys that the editor handles.
#[derive(Debug, Clone, Copy, PartialEq, Eq, Structural)]
pub enum Key {
    Char(char),
    Backspace,
    Delete,
    Enter,
    ArrowLeft,
    ArrowRight,
    ArrowUp,
    ArrowDown,
    Home,
    End,
}

/// A key press.
#[derive(Debug, Clone, Copy)]
pub struct KeyEvent {
    pub key: Key,
}

impl KeyEvent {
    pub fn new(key: Key) -> (e: Self)
        ensures
            e.key == key,
    {
        Self { key }
    }
}

/// `s` without the CR and LF chars at its end.
pub open spec fn trim_line_end(s: Seq<char>) -> Seq<char>
    decreases s.len(),
{
    if s.len() > 0 && (s.last() == '\n' || s.last() == '\r') {
        trim_line_end(s.drop_last())
    } else {
        s
    }
}

/// The number of chars of line `line` before its trailing CR and LF chars,
/// or 0 past the last line: where the End key puts the cursor.
pub open spec fn visible_len(text: Seq<char>, line: int) -> nat {
    if 0 <= line < line_count(text) {
        trim_line_end(line_text(text, line)).len()
    } else {
        0
    }
}

/// The number of chars of `s` before its trailing CR and LF chars.
pub fn trimmed_char_count(s: &str) -> (n: usize)
    ensures
        n == trim_line_end(s@).len(),
{
    let mut n = s.unicode_len();
    assert(s@.take(n as int) =~= s@);
    while n > 0 && (s.get_char(n - 1) == '\n' || s.get_char(n - 1) == '\r')
        invariant
            n <= s@.len(),
            trim_line_end(s@.take(n as int)) == trim_line_end(s@),
        decreases n,
    {
        assert(s@.take(n as int).drop_last() =~= s@.take(n - 1));
        n = n - 1;
    }
    n
}

/// The cursor after ArrowLeft.
pub open spec fn move_left(text: Seq<char>, c: Position) -> Position {
    if c.column > 0 {
        Position { line: c.line, column: (c.column - 1) as usize }
    } else if c.line > 0 {
        Position { line: (c.line - 1) as usize, column: visible_len(text, c.line - 1) as usize }
    } else {
        c
    }
}

/// The cursor after ArrowRight.
pub open spec fn move_right(text: Seq<char>, c: Position) -> Position {
    if c.column < visible_len(text, c.line as int) {
        Position { line: c.line, column: (c.column + 1) as usize }
    } else if c.line + 1 < line_count(text) {
        Position { line: (c.line + 1) as usize, column: 0 }
    } else {
        c
    }
}

pub open spec fn min(a: int, b: int) -> int {
    if a <= b {
        a
    } else {
        b
    }
}

/// The cursor after ArrowUp: the line above, its column clamped to that
/// line's visible length.
pub open spec fn move_up(text: Seq<char>, c: Position) -> Position {
    if c.line > 0 {
        Position {
            line: (c.line - 1) as usize,
            column: min(c.column as int, visible_len(text, c.line - 1) as int) as usize,
        }
    } else {
        c
    }
}

/// The cursor after ArrowDown: the line below, its column clamped to that
/// line's visible length.
pub open spec fn move_down(text: Seq<char>, c: Position) -> Position {
    if c.line + 1 < line_count(text) {
        Position {
            line: (c.line + 1) as usize,
            column: min(c.column as int, visible_len(text, c.line + 1) as int) as usize,
        }
    } else {
        c
    }
}

/// Typing `ch`: it goes in at the cursor; on success the cursor moves past
/// it (to the start of the next line for LF). On failure nothing changes.
pub open spec fn insert_step(m: BufferModel, c: Position, ch: char) -> (BufferModel, Position) {
    if m.insert_result(c, seq![ch]) is Ok {
        let p = if ch == '\n' {
            Position { line: (c.line + 1) as usize, column: 0 }
        } else {
            Position { line: c.line, column: (c.column + 1) as usize }
        };
        (m.after_insert(c, seq![ch]), p)
    } else {
        (m, c)
    }
}

/// Backspace: deletes the char before the cursor, or at a line's start
/// joins it to the line above; on success the cursor moves to the start of
/// the deleted range.
pub open spec fn backspace_step(m: BufferModel, c: Position) -> (BufferModel, Position) {
    if c.column > 0 || c.line > 0 {
        let start = if c.column > 0 {
            Position { line: c.line, column: (c.column - 1) as usize }
        } else {
            Position {
                line: (c.line - 1) as usize,
                column: visible_len(m.text, c.line - 1) as usize,
            }
        };
        if m.delete_result(start, c) is Ok {
            (m.after_delete(start, c), start)
        } else {
            (m, c)
        }
    } else {
        (m, c)
    }
}

/// Delete: deletes the char after the cursor, or at a line's visible end
/// joins the next line to it; the cursor stays.
pub open spec fn delete_forward_step(m: BufferModel, c: Position) -> (BufferModel, Position) {
    if c.column < visible_len(m.text, c.line as int) {
        (m.after_delete(c, Position { line: c.line, column: (c.column + 1) as usize }), c)
    } else if c.line + 1 < line_count(m.text) {
        (m.after_delete(c, Position { line: (c.line + 1) as usize, column: 0 }), c)
    } else {
        (m, c)
    }
}

/// The buffer and cursor after a key press.
pub open spec fn key_step(m: BufferModel, c: Position, key: Key) -> (BufferModel, Position) {
    match key {
        Key::Char(ch) => insert_step(m, c, ch),
        Key::Enter => insert_step(m, c, '\n'),
        Key::Backspace => backspace_step(m, c),
        Key::Delete => delete_forward_step(m, c),
        Key::ArrowLeft => (m, move_left(m.text, c)),
        Key::ArrowRight => (m, move_right(m.text, c)),
        Key::ArrowUp => (m, move_up(m.text, c)),
        Key::ArrowDown => (m, move_down(m.text, c)),
        Key::Home => (m, Position { line: c.line, column: 0 }),
        Key::End => (m, Position { line: c.line, column: visible_len(m.text, c.line as int) as usize }),
    }
}

/// Keys that move the cursor leave the buffer as it is.
pub proof fn law_moves_keep_buffer(m: BufferModel, c: Position, key: Key)
    requires
        !(key is Char || key is Enter || key is Backspace || key is Delete),
    ensures
        key_step(m, c, key).0 == m,
{
}

/// The cursor stands on a line of `text`, within its visible part.
pub open spec fn cursor_valid(text: Seq<char>, c: Position) -> bool {
    c.line < line_count(text) && c.column <= visible_len(text, c.line as int)
}

/// A line's visible part is no longer than the text.
proof fn lemma_visible_len_bound(text: Seq<char>, line: int)
    ensures
        visible_len(text, line) <= text.len(),
{
    if 0 <= line < line_count(text) {
        lemma_line_bounds(text, line);
        lemma_trim_is_trimmed_len(line_text(text, line));
    }
}

/// The cursor keys keep a valid cursor valid.
pub proof fn law_moves_keep_cursor_valid(m: BufferModel, c: Position, key: Key)
    requires
        m.wf(),
        cursor_valid(m.text, c),
        !(key is Char || key is Enter || key is Backspace || key is Delete),
    ensures
        cursor_valid(m.text, key_step(m, c, key).1),
{
    lemma_line_starts(m.text);
    lemma_visible_len_bound(m.text, c.line as int);
    lemma_visible_len_bound(m.text, c.line - 1);
    lemma_visible_len_bound(m.text, c.line + 1);
}

/// ArrowUp from a line that has one above moves to that line and keeps the
/// column where it fits before the line's trailing CR and LF chars, else
/// puts it right before them; the buffer stays.
pub proof fn law_arrow_up_clamps(m: BufferModel, c: Position, n: int)
    requires
        0 < c.line < line_count(m.text),
        is_trimmed_len(line_text(m.text, c.line - 1), n),
    ensures
        key_step(m, c, Key::ArrowUp).0 == m,
        key_step(m, c, Key::ArrowUp).1.line == c.line - 1,
        key_step(m, c, Key::ArrowUp).1.column == (if c.column <= n {
            c.column as int
        } else {
            n
        }),
{
    lemma_trimmed_len_unique(line_text(m.text, c.line - 1), n);
}

/// ArrowDown from a line that has one below moves to that line and keeps
/// the column where it fits before the line's trailing CR and LF chars,
/// else puts it right before them; the buffer stays.
pub proof fn law_arrow_down_clamps(m: BufferModel, c: Position, n: int)
    requires
        m.wf(),
        c.line + 1 < line_count(m.text),
        is_trimmed_len(line_text(m.text, c.line + 1), n),
    ensures
        key_step(m, c, Key::ArrowDown).0 == m,
        key_step(m, c, Key::ArrowDown).1.line == c.line + 1,
        key_step(m, c, Key::ArrowDown).1.column == (if c.column <= n {
            c.column as int
        } else {
            n
        }),
{
    lemma_line_starts(m.text);
    lemma_trimmed_len_unique(line_text(m.text, c.line + 1), n);
}

/// Backspace at the start of a line below another whose line break is made
/// of CR and LF chars (LF, CR, or CR LF) removes exactly that break: the
/// text has one line fewer, the line above becomes its part before the
/// break followed by the old line, and the cursor goes to the end of that
/// part. (Cutting must not bring a CR right before an LF.)
pub proof fn law_backspace_joins_lines(m: BufferModel, c: Position, n: int)
    requires
        m.wf(),
        0 < c.line < line_count(m.text),
        c.column == 0,
        is_trimmed_len(line_text(m.text, c.line - 1), n),
        n < line_len(m.text, c.line - 1),
        cut_keeps_crlf_apart(m.text, line_start(m.text, c.line - 1) + n, line_start(m.text, c.line as int)),
    ensures
        line_count(key_step(m, c, Key::Backspace).0.text) == line_count(m.text) - 1,
        line_text(key_step(m, c, Key::Backspace).0.text, c.line - 1) == line_text(m.text, c.line - 1).take(n)
            + line_text(m.text, c.line as int),
        key_step(m, c, Key::Backspace).1 == (Position { line: (c.line - 1) as usize, column: n as usize }),
{
    let s = m.text;
    let j = c.line - 1;
    lemma_line_starts(s);
    lemma_line_bounds(s, j);
    lemma_line_bounds(s, c.line as int);
    lemma_trimmed_len_unique(line_text(s, j), n);
    lemma_join_lines(s, j, n);
    let a = line_start(s, j) + n;
    let b = line_start(s, c.line as int);
    let start = Position { line: (c.line - 1) as usize, column: n as usize };
    assert(char_index(s, start) == Ok::<int, crate::buffer::BufferError>(a));
    assert(char_index(s, c) == Ok::<int, crate::buffer::BufferError>(b));
    assert(m.after_delete(start, c).text =~= cut(s, a, b));
}

/// Delete at the end of a line's part before its line break, when the
/// break is made of CR and LF chars and a line follows, removes the whole
/// break: the text has one line fewer, the line becomes that part followed
/// by the next line, and the cursor stays. (Cutting must not bring a CR
/// right before an LF.)
pub proof fn law_delete_joins_lines(m: BufferModel, c: Position)
    requires
        m.wf(),
        c.line + 1 < line_count(m.text),
        is_trimmed_len(line_text(m.text, c.line as int), c.column as int),
        c.column < line_len(m.text, c.line as int),
        cut_keeps_crlf_apart(m.text, line_start(m.text, c.line as int) + c.column, line_start(m.text, c.line + 1)),
    ensures
        line_count(key_step(m, c, Key::Delete).0.text) == line_count(m.text) - 1,
        line_text(key_step(m, c, Key::Delete).0.text, c.line as int) == line_text(m.text, c.line as int).take(
            c.column as int,
        ) + line_text(m.text, c.line + 1),
        key_step(m, c, Key::Delete).1 == c,
{
    let s = m.text;
    let j = c.line as int;
    let n = c.column as int;
    lemma_line_starts(s);
    lemma_line_bounds(s, j);
    lemma_line_bounds(s, j + 1);
    lemma_trimmed_len_unique(line_text(s, j), n);
    lemma_join_lines(s, j, n);
    let a = line_start(s, j) + n;
    let b = line_start(s, j + 1);
    let end = Position { line: (c.line + 1) as usize, column: 0 };
    assert(char_index(s, c) == Ok::<int, crate::buffer::BufferError>(a));
    assert(char_index(s, end) == Ok::<int, crate::buffer::BufferError>(b));
    assert(m.after_delete(c, end).text =~= cut(s, a, b));
}

/// Home goes to the start of the line; End goes right before the line's
/// trailing CR and LF chars; ArrowLeft steps back one column, or from a
/// line's start to the end of the line above (before its CR and LF chars);
/// ArrowRight steps forward one column up to that end, then to the start of
/// the next line. None of them changes the buffer.
pub proof fn law_cursor_keys(m: BufferModel, c: Position, n: int, n_above: int)
    requires
        m.wf(),
        c.line < line_count(m.text),
        is_trimmed_len(line_text(m.text, c.line as int), n),
        c.line > 0 ==> is_trimmed_len(line_text(m.text, c.line - 1), n_above),
    ensures
        key_step(m, c, Key::Home) == (m, Position { line: c.line, column: 0 }),
        key_step(m, c, Key::End) == (m, Position { line: c.line, column: n as usize }),
        key_step(m, c, Key::ArrowLeft).0 == m,
        c.column > 0 ==> key_step(m, c, Key::ArrowLeft).1 == (Position {
            line: c.line,
            column: (c.column - 1) as usize,
        }),
        c.column == 0 && c.line > 0 ==> key_step(m, c, Key::ArrowLeft).1 == (Position {
            line: (c.line - 1) as usize,
            column: n_above as usize,
        }),
        c.column == 0 && c.line == 0 ==> key_step(m, c, Key::ArrowLeft).1 == c,
        key_step(m, c, Key::ArrowRight).0 == m,
        c.column < n ==> key_step(m, c, Key::ArrowRight).1 == (Position {
            line: c.line,
            column: (c.column + 1) as usize,
        }),
        c.column >= n && c.line + 1 < line_count(m.text) ==> key_step(m, c, Key::ArrowRight).1 == (
        Position { line: (c.line + 1) as usize, column: 0 }),
        c.column >= n && c.line + 1 == line_count(m.text) ==> key_step(m, c, Key::ArrowRight).1
            == c,
{
    lemma_line_starts(m.text);
    lemma_trimmed_len_unique(line_text(m.text, c.line as int), n);
    if c.line > 0 {
        lemma_trimmed_len_unique(line_text(m.text, c.line - 1), n_above);
    }
}

/// A typed char goes in at the cursor's char index (its line's start plus
/// its column, the column within the line, line break included) and the
/// cursor moves past it, to the next line's start for LF. Backspace within a
/// line removes the char before the cursor and steps back; Delete before
/// the line's trailing CR and LF chars removes the char after the cursor
/// and stays.
pub proof fn law_editing_keys(m: BufferModel, c: Position, ch: char, n: int)
    requires
        m.wf(),
        c.line < line_count(m.text),
        c.column <= line_len(m.text, c.line as int),
        is_trimmed_len(line_text(m.text, c.line as int), n),
    ensures
        key_step(m, c, Key::Char(ch)).0.text == m.text.take(line_start(m.text, c.line as int) + c.column)
            + seq![ch] + m.text.skip(line_start(m.text, c.line as int) + c.column),
        ch == '\n' ==> key_step(m, c, Key::Char(ch)).1 == (Position {
            line: (c.line + 1) as usize,
            column: 0,
        }),
        ch != '\n' ==> key_step(m, c, Key::Char(ch)).1 == (Position {
            line: c.line,
            column: (c.column + 1) as usize,
        }),
        c.column > 0 ==> key_step(m, c, Key::Backspace).0.text == m.text.take(
            line_start(m.text, c.line as int) + c.column - 1,
        ) + m.text.skip(line_start(m.text, c.line as int) + c.column),
        c.column > 0 ==> key_step(m, c, Key::Backspace).1 == (Position {
            line: c.line,
            column: (c.column - 1) as usize,
        }),
        c.column < n ==> key_step(m, c, Key::Delete).0.text == m.text.take(
            line_start(m.text, c.line as int) + c.column,
        ) + m.text.skip(line_start(m.text, c.line as int) + c.column + 1),
        c.column < n ==> key_step(m, c, Key::Delete).1 == c,
{
    let s = m.text;
    let i = line_start(s, c.line as int) + c.column;
    lemma_line_starts(s);
    lemma_line_bounds(s, c.line as int);
    lemma_trimmed_len_unique(line_text(s, c.line as int), n);
    assert(char_index(s, c) == Ok::<int, crate::buffer::BufferError>(i));
    assert(key_step(m, c, Key::Char(ch)).0.text =~= s.take(i) + seq![ch] + s.skip(i));
    if c.column > 0 {
        let start = Position { line: c.line, column: (c.column - 1) as usize };
        assert(char_index(s, start) == Ok::<int, crate::buffer::BufferError>(i - 1));
        assert(m.after_delete(start, c).text =~= s.take(i - 1) + s.skip(i));
    }
    if c.column < n {
        let end = Position { line: c.line, column: (c.column + 1) as usize };
        assert(char_index(s, end) == Ok::<int, crate::buffer::BufferError>(i + 1));
        assert(m.after_delete(c, end).text =~= s.take(i) + s.skip(i + 1));
    }
}

/// ArrowRight takes back ArrowLeft from any valid cursor but the very
/// first position.
pub proof fn law_right_reverts_left(text: Seq<char>, c: Position)
    requires
        text.len() <= usize::MAX,
        cursor_valid(text, c),
        c.line > 0 || c.column > 0,
    ensures
        move_right(text, move_left(text, c)) == c,
{
    lemma_line_starts(text);
    lemma_visible_len_bound(text, c.line as int);
    lemma_visible_len_bound(text, c.line - 1);
}

/// ArrowLeft takes back ArrowRight from any valid cursor but the very last
/// position.
pub proof fn law_left_reverts_right(text: Seq<char>, c: Position)
    requires
        text.len() <= usize::MAX,
        cursor_valid(text, c),
        c.line + 1 < line_count(text) || c.column < visible_len(text, c.line as int),
    ensures
        move_left(text, move_right(text, c)) == c,
{
    lemma_line_starts(text);
    lemma_visible_len_bound(text, c.line as int);
    lemma_visible_len_bound(text, c.line + 1);
}

/// Undo right after typing a char that went in gives the text back.
pub proof fn law_undo_reverts_typing(m: BufferModel, c: Position, ch: char)
    requires
        m.wf(),
        m.insert_result(c, seq![ch]) is Ok,
    ensures
        key_step(m, c, Key::Char(ch)).0.after_undo().text == m.text,
        key_step(m, c, Key::Char(ch)).0.after_undo().undo == m.undo,
{
    law_undo_reverts_insert(m, c, seq![ch]);
}

/// Undo right after a Backspace or Delete that removed something gives the
/// text back.
pub proof fn law_undo_reverts_erasing(m: BufferModel, c: Position, key: Key)
    requires
        m.wf(),
        key is Backspace || key is Delete,
        key_step(m, c, key).0.text != m.text,
    ensures
        key_step(m, c, key).0.after_undo().text == m.text,
        key_step(m, c, key).0.after_undo().undo == m.undo,
{
    let (start, end) = if key is Backspace {
        (
            if c.column > 0 {
                Position { line: c.line, column: (c.column - 1) as usize }
            } else {
                Position {
                    line: (c.line - 1) as usize,
                    column: visible_len(m.text, c.line - 1) as usize,
                }
            },
            c,
        )
    } else {
        (
            c,
            if c.column < visible_len(m.text, c.line as int) {
                Position { line: c.line, column: (c.column + 1) as usize }
            } else {
                Position { line: (c.line + 1) as usize, column: 0 }
            },
        )
    };
    assert(m.after_delete(start, end) == key_step(m, c, key).0);
    assert(m.delete_result(start, end) is Ok);
    assert(char_index(m.text, start) != char_index(m.text, end));
    law_undo_reverts_delete(m, start, end);
}

proof fn lemma_trim_is_trimmed_len(t: Seq<char>)
    ensures
        is_trimmed_len(t, trim_line_end(t).len() as int),
        trim_line_end(t) == t.take(trim_line_end(t).len() as int),
    decreases t.len(),
{
    if t.len() > 0 && (t.last() == '\n' || t.last() == '\r') {
        let d = t.drop_last();
        lemma_trim_is_trimmed_len(d);
        let n = trim_line_end(t).len() as int;
        assert(trim_line_end(t) == trim_line_end(d));
        assert forall|j: int| n <= j < t.len() implies #[trigger] t[j] == '\n' || t[j] == '\r' by {
            if j < d.len() {
                assert(t[j] == d[j]);
            }
        }
        if n > 0 {
            assert(t[n - 1] == d[n - 1]);
        }
        assert(d.take(n) =~= t.take(n));
    } else {
        assert(t.take(t.len() as int) =~= t);
    }
}

proof fn lemma_trimmed_len_unique(t: Seq<char>, n: int)
    requires
        is_trimmed_len(t, n),
    ensures
        trim_line_end(t).len() == n,
{
    lemma_trim_is_trimmed_len(t);
    let m = trim_line_end(t).len() as int;
    if m < n {
        assert(t[n - 1] == '\n' || t[n - 1] == '\r');
    } else if n < m {
        assert(t[m - 1] == '\n' || t[m - 1] == '\r');
    }
}

/// Putting a plain char into a line within its visible part makes the
/// visible part one longer.
proof fn lemma_trim_insert(t: Seq<char>, col: int, x: char)
    requires
        0 <= col <= trim_line_end(t).len(),
        is_plain_char(x),
    ensures
        trim_line_end(insert_char_at(t, col, x)).len() == trim_line_end(t).len() + 1,
{
    lemma_trim_is_trimmed_len(t);
    let n = trim_line_end(t).len() as int;
    let u = insert_char_at(t, col, x);
    assert(u.len() == t.len() + 1);
    assert forall|j: int| n + 1 <= j < u.len() implies #[trigger] u[j] == '\n' || u[j] == '\r' by {
        assert(u[j] == t[j - 1]);
    }
    if col < n {
        assert(u[n] == t[n - 1]);
    } else {
        assert(u[n] == x);
    }
    lemma_trimmed_len_unique(u, n + 1);
}

/// Typing a plain char at a cursor within the visible part of its line
/// keeps the lines: the cursor's line keeps its start and gains the char.
proof fn lemma_typing_line(s: Seq<char>, line: int, col: int, x: char)
    requires
        0 <= line < line_count(s),
        0 <= col <= visible_len(s, line),
        line + 1 == line_count(s) || col < line_len(s, line),
        is_plain_char(x),
    ensures
        !splits_crlf(s, line_start(s, line) + col),
        line_count(insert_char_at(s, line_start(s, line) + col, x)) == line_count(s),
        line_start(insert_char_at(s, line_start(s, line) + col, x), line) == line_start(s, line),
        line_text(insert_char_at(s, line_start(s, line) + col, x), line) == insert_char_at(
            line_text(s, line),
            col,
            x,
        ),
        visible_len(insert_char_at(s, line_start(s, line) + col, x), line) == visible_len(s, line)
            + 1,
{
    let t = line_text(s, line);
    let st = line_start(s, line);
    let i = st + col;
    lemma_line_bounds(s, line);
    lemma_line_starts(s);
    lemma_trim_is_trimmed_len(t);
    let n = visible_len(s, line) as int;
    assert(n <= t.len());
    if splits_crlf(s, i) {
        law_lines_start_after_breaks(s);
        if col == 0 {
            if line > 0 {
                assert(crate::lines::break_ends_at(s, line_start(s, line)));
            }
        } else {
            assert(crate::lines::break_ends_at(s, i + 1));
            let j = choose|j: int| 0 <= j < line_count(s) && #[trigger] line_start(s, j) == i + 1;
            if j <= line {
                assert(line_start(s, j) <= line_start(s, line));
            } else if j > line + 1 {
                assert(line_start(s, line + 1) < line_start(s, j));
            }
            assert(j == line + 1);
            assert(t[col] == s[i]);
            assert(t[col - 1] == s[i - 1]);
            assert(t.len() == col + 1);
        }
    }
    assert(!splits_crlf(s, i));
    let u = insert_char_at(s, i, x);
    lemma_insert_line_starts(s, i, x);
    let starts = crate::lines::line_starts(s);
    assert(crate::lines::line_starts(u)[line] == shift_after(starts, i)[line]);
    assert(line_start(u, line) == st);
    if line + 1 < line_count(s) {
        assert(line_start(u, line + 1) == shift_after(starts, i)[line + 1]);
        assert(line_start(s, line + 1) > i);
        assert(line_end(u, line) == line_end(s, line) + 1);
    } else {
        assert(line_end(u, line) == line_end(s, line) + 1);
    }
    assert(line_text(u, line) =~= insert_char_at(t, col, x));
    lemma_trim_insert(t, col, x);
}

/// Typing a plain char at a cursor within the visible part of its line
/// (and, but on the last line, before the line's end), then Backspace,
/// gives back the text and the cursor; the typing moved the cursor one
/// column right.
#[verifier::rlimit(40)]
pub proof fn law_backspace_reverts_typing(m: BufferModel, c: Position, x: char)
    requires
        m.wf(),
        m.text.len() < usize::MAX,
        is_plain_char(x),
        c.line < line_count(m.text),
        c.column <= visible_len(m.text, c.line as int),
        c.line + 1 == line_count(m.text) || c.column < line_len(m.text, c.line as int),
    ensures
        key_step(m, c, Key::Char(x)).1 == (Position { line: c.line, column: (c.column + 1) as usize }),
        key_step(key_step(m, c, Key::Char(x)).0, key_step(m, c, Key::Char(x)).1, Key::Backspace).0.text
            == m.text,
        key_step(key_step(m, c, Key::Char(x)).0, key_step(m, c, Key::Char(x)).1, Key::Backspace).1
            == c,
{
    let s = m.text;
    let line = c.line as int;
    let col = c.column as int;
    lemma_line_bounds(s, line);
    lemma_trim_is_trimmed_len(line_text(s, line));
    assert(visible_len(s, line) <= line_len(s, line));
    lemma_typing_line(s, line, col, x);
    let i = line_start(s, line) + col;
    assert(char_index(s, c) == Ok::<int, crate::buffer::BufferError>(i));
    let m1 = key_step(m, c, Key::Char(x)).0;
    let c1 = key_step(m, c, Key::Char(x)).1;
    assert(m1.text =~= insert_char_at(s, i, x));
    let u = m1.text;
    lemma_line_bounds(u, line);
    assert(line_text(u, line).len() == line_text(s, line).len() + 1);
    assert(line_len(u, line) == line_len(s, line) + 1);
    let start = Position { line: c.line, column: c.column };
    assert(char_index(u, start) == Ok::<int, crate::buffer::BufferError>(i));
    assert(char_index(u, c1) == Ok::<int, crate::buffer::BufferError>(i + 1));
    assert(m1.delete_result(start, c1) is Ok);
    assert(m1.after_delete(start, c1).text =~= s);
}

/// In a text whose only line break is LF, a line holds no LF but the one
/// that ends it (none for the last line), so its visible part is all plain
/// chars and is one char shorter than the line, but for the last line.
proof fn lemma_lf_line(s: Seq<char>, line: int)
    requires
        lf_only(s),
        0 <= line < line_count(s),
    ensures
        line + 1 < line_count(s) ==> line_len(s, line) >= 1 && s[line_end(s, line) - 1] == '\n'
            && visible_len(s, line) == line_len(s, line) - 1,
        line + 1 == line_count(s) ==> visible_len(s, line) == line_len(s, line),
        forall|p: int|
            line_start(s, line) <= p < line_start(s, line) + visible_len(s, line) ==> is_plain_char(
                #[trigger] s[p],
            ),
{
    lemma_line_bounds(s, line);
    lemma_line_starts(s);
    law_lines_start_after_breaks(s);
    let st = line_start(s, line);
    let en = line_end(s, line);
    let t = line_text(s, line);
    assert forall|p: int| st <= p < en - 1 || (line + 1 == line_count(s) && st <= p < en) implies s[p]
        != '\n' by {
        if s[p] == '\n' {
            assert(break_ends_at(s, p + 1));
            let j = choose|j: int| 0 <= j < line_count(s) && #[trigger] line_start(s, j) == p + 1;
            if j <= line {
                assert(line_start(s, j) <= line_start(s, line));
            } else if j > line + 1 {
                assert(line_start(s, line + 1) < line_start(s, j));
            }
        }
    }
    if line + 1 < line_count(s) {
        assert(break_ends_at(s, line_start(s, line + 1)));
        assert(s[en - 1] == '\n' || is_plain_char(s[en - 1]));
        assert forall|j: int| t.len() - 1 <= j < t.len() implies #[trigger] t[j] == '\n' || t[j]
            == '\r' by {}
        if t.len() - 1 > 0 {
            assert(t[t.len() - 2] == s[en - 2]);
            assert(s[en - 2] == '\n' || is_plain_char(s[en - 2]));
        }
        lemma_trimmed_len_unique(t, t.len() - 1);
    } else {
        if t.len() > 0 {
            assert(t[t.len() - 1] == s[en - 1]);
            assert(s[en - 1] == '\n' || is_plain_char(s[en - 1]));
        }
        lemma_trimmed_len_unique(t, t.len() as int);
    }
    assert forall|p: int| st <= p < st + visible_len(s, line) implies is_plain_char(
        #[trigger] s[p],
    ) by {
        assert(s[p] == '\n' || is_plain_char(s[p]));
    }
}

/// The text without its char at `i`.
pub open spec fn remove_char_at(s: Seq<char>, i: int) -> Seq<char> {
    s.take(i) + s.skip(i + 1)
}

proof fn lemma_lf_keeps_remove(s: Seq<char>, i: int)
    requires
        lf_only(s),
        0 <= i < s.len(),
    ensures
        lf_only(remove_char_at(s, i)),
        insert_char_at(remove_char_at(s, i), i, s[i]) == s,
{
    let u = remove_char_at(s, i);
    assert forall|k: int| 0 <= k < u.len() implies #[trigger] u[k] == '\n' || is_plain_char(u[k]) by {
        if k < i {
            assert(u[k] == s[k]);
        } else {
            assert(u[k] == s[k + 1]);
        }
    }
    assert(insert_char_at(u, i, s[i]) =~= s);
}

/// Removing a char of a line's visible part, in a text whose only line
/// break is LF, keeps the lines and the line's start, and shortens its
/// visible part by one.
proof fn lemma_lf_remove_plain(s: Seq<char>, line: int, col: int)
    requires
        lf_only(s),
        0 <= line < line_count(s),
        0 <= col < visible_len(s, line),
    ensures
        lf_only(remove_char_at(s, line_start(s, line) + col)),
        line_count(remove_char_at(s, line_start(s, line) + col)) == line_count(s),
        visible_len(remove_char_at(s, line_start(s, line) + col), line) == visible_len(s, line) - 1,
{
    let i = line_start(s, line) + col;
    lemma_lf_line(s, line);
    lemma_line_bounds(s, line);
    let x = s[i];
    assert(is_plain_char(x));
    let u = remove_char_at(s, i);
    lemma_lf_keeps_remove(s, i);
    assert(!splits_crlf(u, i)) by {
        if 0 < i < u.len() {
            assert(u[i - 1] == '\n' || is_plain_char(u[i - 1]));
        }
    }
    lemma_insert_line_starts(u, i, x);
    lemma_line_starts(u);
    lemma_line_starts(s);
    let su = line_starts(u);
    assert(line_starts(s)[line] == shift_after(su, i)[line]);
    assert(line_start(u, line) == line_start(s, line));
    if line + 1 < line_count(s) {
        assert(line_starts(s)[line + 1] == shift_after(su, i)[line + 1]);
        assert(line_start(u, line + 1) == line_start(s, line + 1) - 1);
    }
    assert(line_len(u, line) == line_len(s, line) - 1);
    lemma_lf_line(u, line);
}

/// Removing the LF that ends a line, in a text whose only line break is LF,
/// joins the next line to it: one line fewer, the line keeps its start,
/// and its visible part does not shrink.
proof fn lemma_lf_join(s: Seq<char>, line: int)
    requires
        lf_only(s),
        0 <= line,
        line + 1 < line_count(s),
    ensures
        lf_only(remove_char_at(s, line_end(s, line) - 1)),
        line_count(remove_char_at(s, line_end(s, line) - 1)) == line_count(s) - 1,
        line_start(remove_char_at(s, line_end(s, line) - 1), line) == line_start(s, line),
        visible_len(remove_char_at(s, line_end(s, line) - 1), line) >= visible_len(s, line),
{
    lemma_lf_line(s, line);
    lemma_line_bounds(s, line);
    lemma_line_starts(s);
    let i = line_end(s, line) - 1;
    let u = remove_char_at(s, i);
    lemma_lf_keeps_remove(s, i);
    assert(s[i] == '\n');
    lemma_insert_newline(u, i);
    lemma_line_of(u, i);
    let l = line_of(u, i);
    assert(line_start(s, l + 1) == i + 1);
    assert(line_start(s, line + 1) == i + 1);
    if l < line {
        assert(line_start(s, l + 1) <= line_start(s, line));
        assert(line_start(s, line) < line_start(s, line + 1));
    } else if l > line {
        assert(line_start(s, line + 1) < line_start(s, l + 1));
    }
    assert(l == line);
    assert(line_start(u, line) == line_start(s, line));
    lemma_line_bounds(u, line);
    lemma_lf_line(u, line);
}

/// In a text whose only line break is LF, every key but a typed char that
/// is a line break other than LF keeps the text LF-only and a valid cursor
/// valid.
#[verifier::rlimit(60)]
pub proof fn law_keys_keep_cursor_valid(m: BufferModel, c: Position, key: Key)
    requires
        m.wf(),
        m.text.len() < usize::MAX,
        lf_only(m.text),
        cursor_valid(m.text, c),
        key matches Key::Char(ch) ==> ch == '\n' || is_plain_char(ch),
    ensures
        lf_only(key_step(m, c, key).0.text),
        cursor_valid(key_step(m, c, key).0.text, key_step(m, c, key).1),
{
    let s = m.text;
    let line = c.line as int;
    let col = c.column as int;
    let i = line_start(s, line) + col;
    lemma_line_starts(s);
    lemma_line_bounds(s, line);
    lemma_lf_line(s, line);
    lemma_visible_len_bound(s, line);
    match key {
        Key::Char(ch) => {
            lemma_typed_keeps_valid(m, c, ch);
        },
        Key::Enter => {
            lemma_typed_keeps_valid(m, c, '\n');
        },
        Key::Backspace => {
            if col > 0 {
                let start = Position { line: c.line, column: (c.column - 1) as usize };
                assert(char_index(s, start) == Ok::<int, crate::buffer::BufferError>(i - 1));
                assert(char_index(s, c) == Ok::<int, crate::buffer::BufferError>(i));
                lemma_lf_remove_plain(s, line, col - 1);
                assert(m.after_delete(start, c).text =~= remove_char_at(s, i - 1));
            } else if line > 0 {
                let pl = line - 1;
                lemma_line_bounds(s, pl);
                lemma_lf_line(s, pl);
                lemma_visible_len_bound(s, pl);
                let start = Position { line: (c.line - 1) as usize, column: visible_len(s, pl) as usize };
                assert(char_index(s, start) == Ok::<int, crate::buffer::BufferError>(line_end(s, pl) - 1));
                assert(char_index(s, c) == Ok::<int, crate::buffer::BufferError>(line_end(s, pl)));
                lemma_lf_join(s, pl);
                assert(m.after_delete(start, c).text =~= remove_char_at(s, line_end(s, pl) - 1));
            }
        },
        Key::Delete => {
            if col < visible_len(s, line) {
                let end = Position { line: c.line, column: (c.column + 1) as usize };
                assert(char_index(s, c) == Ok::<int, crate::buffer::BufferError>(i));
                assert(char_index(s, end) == Ok::<int, crate::buffer::BufferError>(i + 1));
                lemma_lf_remove_plain(s, line, col);
                assert(m.after_delete(c, end).text =~= remove_char_at(s, i));
            } else if line + 1 < line_count(s) {
                let end = Position { line: (c.line + 1) as usize, column: 0 };
                lemma_line_bounds(s, line + 1);
                assert(char_index(s, c) == Ok::<int, crate::buffer::BufferError>(line_end(s, line) - 1));
                assert(char_index(s, end) == Ok::<int, crate::buffer::BufferError>(line_end(s, line)));
                lemma_lf_join(s, line);
                assert(m.after_delete(c, end).text =~= remove_char_at(s, line_end(s, line) - 1));
            }
        },
        _ => {
            law_moves_keep_cursor_valid(m, c, key);
        },
    }
}

proof fn lemma_typed_keeps_valid(m: BufferModel, c: Position, ch: char)
    requires
        m.wf(),
        m.text.len() < usize::MAX,
        lf_only(m.text),
        cursor_valid(m.text, c),
        ch == '\n' || is_plain_char(ch),
    ensures
        lf_only(insert_step(m, c, ch).0.text),
        cursor_valid(insert_step(m, c, ch).0.text, insert_step(m, c, ch).1),
{
    let s = m.text;
    let line = c.line as int;
    let col = c.column as int;
    let i = line_start(s, line) + col;
    lemma_line_starts(s);
    lemma_line_bounds(s, line);
    lemma_lf_line(s, line);
    lemma_visible_len_bound(s, line);
    assert(char_index(s, c) == Ok::<int, crate::buffer::BufferError>(i));
    let t = insert_step(m, c, ch).0.text;
    assert(t =~= insert_char_at(s, i, ch));
    lemma_lf_keeps_insert(s, i, ch);
    if ch == '\n' {
        lemma_insert_newline(s, i);
    } else {
        lemma_typing_line(s, line, col, ch);
    }
}

/// In a text whose only line break is LF, Enter (or a typed LF) at a valid
/// cursor, then Backspace, gives back the text and the cursor.
#[verifier::rlimit(60)]
pub proof fn law_backspace_reverts_enter(m: BufferModel, c: Position)
    requires
        m.wf(),
        m.text.len() < usize::MAX,
        lf_only(m.text),
        cursor_valid(m.text, c),
    ensures
        key_step(key_step(m, c, Key::Enter).0, key_step(m, c, Key::Enter).1, Key::Backspace).0.text
            == m.text,
        key_step(key_step(m, c, Key::Enter).0, key_step(m, c, Key::Enter).1, Key::Backspace).1
            == c,
        key_step(m, c, Key::Char('\n')) == key_step(m, c, Key::Enter),
{
    let s = m.text;
    let line = c.line as int;
    let col = c.column as int;
    let i = line_start(s, line) + col;
    lemma_line_starts(s);
    lemma_line_bounds(s, line);
    lemma_lf_line(s, line);
    lemma_visible_len_bound(s, line);
    assert(char_index(s, c) == Ok::<int, crate::buffer::BufferError>(i));
    let m1 = key_step(m, c, Key::Enter).0;
    let c1 = key_step(m, c, Key::Enter).1;
    let t = m1.text;
    assert(t =~= insert_char_at(s, i, '\n'));
    lemma_line_of_unique(s, i, line);
    lemma_insert_newline(s, i);
    assert(line_start(t, line) == line_start(s, line));
    assert(line_start(t, line + 1) == i + 1);
    lemma_line_starts(t);
    lemma_line_bounds(t, line);
    lemma_line_bounds(t, line + 1);
    lemma_lf_line(t, line);
    assert(visible_len(t, line) == col);
    assert(c1 == (Position { line: (c.line + 1) as usize, column: 0 }));
    let start = Position { line: c.line, column: c.column };
    assert(char_index(t, start) == Ok::<int, crate::buffer::BufferError>(i));
    assert(char_index(t, c1) == Ok::<int, crate::buffer::BufferError>(i + 1));
    assert(m1.delete_result(start, c1) is Ok);
    assert(m1.after_delete(start, c1).text =~= s);
}

/// `ToString` of a char/// `ToString` of a char/// `ToString` of a char: the one-char string.
#[verifier::external_body]
fn char_to_string(c: char) -> (s: String)
    ensures
        s@ == seq![c],
{
    c.to_string()
}

/// A text editor: a buffer and a cursor.
pub struct EditorWidget {
    buffer: TextBuffer,
    cursor: Position,
}

impl EditorWidget {
    /// What the buffer holds.
    pub closed spec fn model(&self) -> BufferModel {
        self.buffer@
    }

    /// Where the cursor is.
    pub closed spec fn cursor_pos(&self) -> Position {
        self.cursor
    }

    pub closed spec fn wf(&self) -> bool {
        self.buffer.wf()
    }

    /// An editor on `buffer`, its cursor at the start.
    pub fn new(buffer: TextBuffer) -> (e: Self)
        requires
            buffer.wf(),
        ensures
            e.wf(),
            e.model() == buffer@,
            e.cursor_pos() == (Position { line: 0, column: 0 }),
    {
        Self { buffer, cursor: Position::new(0, 0) }
    }

    pub fn buffer(&self) -> (b: &TextBuffer)
        ensures
            b@ == self.model(),
            self.wf() ==> b.wf(),
    {
        &self.buffer
    }

    /// Puts the cursor at `pos`, which need not be a place in the buffer;
    /// the buffer stays.
    pub fn set_cursor(&mut self, pos: Position)
        requires
            old(self).wf(),
        ensures
            final(self).wf(),
            final(self).model() == old(self).model(),
            final(self).cursor_pos() == pos,
    {
        self.cursor = pos;
    }

    pub fn cursor(&self) -> (p: Position)
        ensures
            p == self.cursor_pos(),
    {
        self.cursor
    }

    /// Takes back the buffer's last edit; the cursor stays.
    pub fn undo(&mut self) -> (b: bool)
        requires
            old(self).wf(),
        ensures
            final(self).wf(),
            b == (old(self).model().undo.len() > 0),
            final(self).model() == old(self).model().after_undo(),
            final(self).cursor_pos() == old(self).cursor_pos(),
    {
        self.buffer.undo()
    }

    /// Makes again the buffer's last undone edit; the cursor stays.
    pub fn redo(&mut self) -> (b: bool)
        requires
            old(self).wf(),
        ensures
            final(self).wf(),
            b == (old(self).model().redo.len() > 0),
            final(self).model() == old(self).model().after_redo(),
            final(self).cursor_pos() == old(self).cursor_pos(),
    {
        self.buffer.redo()
    }

    fn line_len(&self, line: usize) -> (n: usize)
        ensures
            n == visible_len(self.model().text, line as int),
    {
        match self.buffer.line(line) {
            Some(l) => trimmed_char_count(l.as_str()),
            None => 0,
        }
    }

    /// Handles one key press.
    pub fn handle_key_event(&mut self, event: KeyEvent)
        requires
            old(self).wf(),
        ensures
            final(self).wf(),
            (final(self).model(), final(self).cursor_pos()) == key_step(
                old(self).model(),
                old(self).cursor_pos(),
                event.key,
            ),
    {
        match event.key {
            Key::Char(c) => self.insert_char(c),
            Key::Enter => self.insert_char('\n'),
            Key::Backspace => self.backspace(),
            Key::Delete => self.delete_forward(),
            Key::ArrowLeft => self.move_left(),
            Key::ArrowRight => self.move_right(),
            Key::ArrowUp => self.move_up(),
            Key::ArrowDown => self.move_down(),
            Key::Home => self.cursor.column = 0,
            Key::End => self.cursor.column = self.line_len(self.cursor.line),
        }
    }

    fn insert_char(&mut self, c: char)
        requires
            old(self).wf(),
        ensures
            final(self).wf(),
            (final(self).model(), final(self).cursor_pos()) == insert_step(
                old(self).model(),
                old(self).cursor_pos(),
                c,
            ),
    {
        let s = char_to_string(c);
        let ghost m = self.buffer@;
        if self.buffer.insert(self.cursor, s.as_str()).is_err() {
            return;
        }
        proof {
            lemma_line_starts(m.text);
            lemma_line_bounds(m.text, self.cursor.line as int);
            assert(self.buffer@.text.len() == m.text.len() + 1);
        }
        if c == '\n' {
            self.cursor = Position::new(self.cursor.line + 1, 0);
        } else {
            self.cursor = Position::new(self.cursor.line, self.cursor.column + 1);
        }
    }

    fn backspace(&mut self)
        requires
            old(self).wf(),
        ensures
            final(self).wf(),
            (final(self).model(), final(self).cursor_pos()) == backspace_step(
                old(self).model(),
                old(self).cursor_pos(),
            ),
    {
        if self.cursor.column > 0 {
            let start = Position::new(self.cursor.line, self.cursor.column - 1);
            if self.buffer.delete(start, self.cursor).is_ok() {
                self.cursor = start;
            }
        } else if self.cursor.line > 0 {
            let prev_line_len = self.line_len(self.cursor.line - 1);
            let start = Position::new(self.cursor.line - 1, prev_line_len);
            if self.buffer.delete(start, self.cursor).is_ok() {
                self.cursor = start;
            }
        }
    }

    fn delete_forward(&mut self)
        requires
            old(self).wf(),
        ensures
            final(self).wf(),
            (final(self).model(), final(self).cursor_pos()) == delete_forward_step(
                old(self).model(),
                old(self).cursor_pos(),
            ),
    {
        let current_line_len = self.line_len(self.cursor.line);
        let line_count = self.buffer.line_count();
        proof {
            lemma_line_starts(self.buffer@.text);
        }
        if self.cursor.column < current_line_len {
            let end = Position::new(self.cursor.line, self.cursor.column + 1);
            let _ = self.buffer.delete(self.cursor, end);
        } else if self.cursor.line < line_count - 1 {
            let end = Position::new(self.cursor.line + 1, 0);
            let _ = self.buffer.delete(self.cursor, end);
        }
    }

    fn move_left(&mut self)
        requires
            old(self).wf(),
        ensures
            final(self).wf(),
            final(self).model() == old(self).model(),
            final(self).cursor_pos() == move_left(old(self).model().text, old(self).cursor_pos()),
    {
        if self.cursor.column > 0 {
            self.cursor.column = self.cursor.column - 1;
        } else if self.cursor.line > 0 {
            self.cursor.line = self.cursor.line - 1;
            self.cursor.column = self.line_len(self.cursor.line);
        }
    }

    fn move_right(&mut self)
        requires
            old(self).wf(),
        ensures
            final(self).wf(),
            final(self).model() == old(self).model(),
            final(self).cursor_pos() == move_right(old(self).model().text, old(self).cursor_pos()),
    {
        let len = self.line_len(self.cursor.line);
        let line_count = self.buffer.line_count();
        proof {
            lemma_line_starts(self.buffer@.text);
        }
        if self.cursor.column < len {
            self.cursor.column = self.cursor.column + 1;
        } else if self.cursor.line < line_count - 1 {
            self.cursor.line = self.cursor.line + 1;
            self.cursor.column = 0;
        }
    }

    fn move_up(&mut self)
        requires
            old(self).wf(),
        ensures
            final(self).wf(),
            final(self).model() == old(self).model(),
            final(self).cursor_pos() == move_up(old(self).model().text, old(self).cursor_pos()),
    {
        if self.cursor.line > 0 {
            self.cursor.line = self.cursor.line - 1;
            let len = self.line_len(self.cursor.line);
            self.cursor.column = if self.cursor.column <= len {
                self.cursor.column
            } else {
                len
            };
        }
    }

    fn move_down(&mut self)
        requires
            old(self).wf(),
        ensures
            final(self).wf(),
            final(self).model() == old(self).model(),
            final(self).cursor_pos() == move_down(old(self).model().text, old(self).cursor_pos()),
    {
        let line_count = self.buffer.line_count();
        proof {
            lemma_line_starts(self.buffer@.text);
        }
        if self.cursor.line < line_count - 1 {
            self.cursor.line = self.cursor.line + 1;
            let len = self.line_len(self.cursor.line);
            self.cursor.column = if self.cursor.column <= len {
                self.cursor.column
            } else {
                len
            };
        }
    }
}

} // verus!
