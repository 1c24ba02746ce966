//! The calls that the text buffer makes into `ropey`, with what each one
//! does to, or reads from, the chars that a rope holds.
use ropey::Rope;
use vstd::prelude::*;

use crate::lines::{line_count, line_len, line_start, line_text};

verus! {

#[verifier::external_type_specification]
#[verifier::external_body]
pub struct ExRope(ropey::Rope);

/// The chars that a rope holds, in order.
pub uninterp spec fn rope_text(r: Rope) -> Seq<char>;

/// `Rope::from_str`: the new rope holds exactly the chars of `text`; like
/// every rope, it holds no more chars than a `usize` counts.
#[verifier::external_body]
pub(crate) fn rope_from_str(text: &str) -> (r: Rope)
    ensures
        rope_text(r) == text@,
        rope_text(r).len() <= usize::MAX,
{
    Rope::from_str(text)
}

/// `Rope::len_chars`: the number of chars in the rope.
#[verifier::external_body]
pub(crate) fn rope_len_chars(r: &Rope) -> (n: usize)
    ensures
        n == rope_text(*r).len(),
{
    r.len_chars()
}

/// `Rope::len_lines`: one more than the number of line breaks, as
/// `crate::lines` defines them (ropey's default `unicode_lines` feature).
#[verifier::external_body]
pub(crate) fn rope_len_lines(r: &Rope) -> (n: usize)
    ensures
        n == line_count(rope_text(*r)),
{
    r.len_lines()
}

/// `Rope::line_to_char`: the char index at which line `line` starts, or the
/// rope's length for the one-past-the-end line. Panics past that, so that
/// input is excluded.
#[verifier::external_body]
pub(crate) fn rope_line_to_char(r: &Rope, line: usize) -> (n: usize)
    requires
        line <= line_count(rope_text(*r)),
    ensures
        line < line_count(rope_text(*r)) ==> n == line_start(rope_text(*r), line as int),
        line == line_count(rope_text(*r)) ==> n == rope_text(*r).len(),
{
    r.line_to_char(line)
}

/// `Rope::line` then `RopeSlice::len_chars`: the number of chars of line
/// `line`, its line break included. `Rope::line` panics for a line that
/// does not exist, so that input is excluded.
#[verifier::external_body]
pub(crate) fn rope_line_len_chars(r: &Rope, line: usize) -> (n: usize)
    requires
        line < line_count(rope_text(*r)),
    ensures
        n == line_len(rope_text(*r), line as int),
{
    r.line(line).len_chars()
}

/// `Rope::line` then `ToString` of the slice: the chars of line `line`,
/// its line break included.
#[verifier::external_body]
pub(crate) fn rope_line_to_string(r: &Rope, line: usize) -> (s: String)
    requires
        line < line_count(rope_text(*r)),
    ensures
        s@ == line_text(rope_text(*r), line as int),
{
    r.line(line).to_string()
}

/// `Rope::insert`: the chars of `text` now stand at `idx`, with the rope's
/// chars before `idx` ahead of them and those from `idx` on after them.
/// Panics when `idx` is past the end, so that input is excluded.
#[verifier::external_body]
pub(crate) fn rope_insert(r: &mut Rope, idx: usize, text: &str)
    requires
        idx <= rope_text(*old(r)).len(),
    ensures
        rope_text(*final(r)) == rope_text(*old(r)).take(idx as int) + text@ + rope_text(
            *old(r),
        ).skip(idx as int),
        rope_text(*final(r)).len() <= usize::MAX,
{
    r.insert(idx, text)
}

/// `Rope::remove` of the range `start..end`: the chars at those indices are
/// gone and the others keep their order. Panics on an inverted range or one
/// past the end, so those inputs are excluded.
#[verifier::external_body]
pub(crate) fn rope_remove(r: &mut Rope, start: usize, end: usize)
    requires
        start <= end <= rope_text(*old(r)).len(),
    ensures
        rope_text(*final(r)) == rope_text(*old(r)).take(start as int) + rope_text(*old(r)).skip(
            end as int,
        ),
{
    r.remove(start..end)
}

/// `Rope::slice` of `start..end` then `ToString`: the chars at those
/// indices. Panics on an inverted range or one past the end.
#[verifier::external_body]
pub(crate) fn rope_slice_to_string(r: &Rope, start: usize, end: usize) -> (s: String)
    requires
        start <= end <= rope_text(*r).len(),
    ensures
        s@ == rope_text(*r).subrange(start as int, end as int),
{
    r.slice(start..end).to_string()
}

/// `ToString` of a rope: all of its chars.
#[verifier::external_body]
pub(crate) fn rope_to_string(r: &Rope) -> (s: String)
    ensures
        s@ == rope_text(*r),
{
    r.to_string()
}

} // verus!
