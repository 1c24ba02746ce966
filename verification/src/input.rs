//! The decisions of the editor's event loop: which key a typed text is,
//! which shortcut a control chord is, when the cursor blinks on, and which
//! glyph the drawn cursor stands after.
use vstd::prelude::*;

use crate::editor::Key;

verus! {

/// The key for a typed text: a text of exactly one char is that char's key;
/// any other text is no key.
pub fn char_key(text: &str) -> (k: Option<Key>)
    ensures
        k == (if text@.len() == 1 {
            Some(Key::Char(text@[0]))
        } else {
            None::<Key>
        }),
{
    if text.unicode_len() == 1 {
        Some(Key::Char(text.get_char(0)))
    } else {
        None
    }
}

/// The editor's keyboard shortcuts.
#[derive(Debug, Clone, Copy, PartialEq, Eq, Structural)]
pub enum Shortcut {
    Undo,
    Redo,
}

/// The shortcut for a key typed with or without Control held: Control with
/// `z` or `Z` undoes, Control with `y` or `Y` redoes; anything else is none.
pub fn shortcut_for(control: bool, text: &str) -> (s: Option<Shortcut>)
    ensures
        s == (if control && text@.len() == 1 && (text@[0] == 'z' || text@[0] == 'Z') {
            Some(Shortcut::Undo)
        } else if control && text@.len() == 1 && (text@[0] == 'y' || text@[0] == 'Y') {
            Some(Shortcut::Redo)
        } else {
            None::<Shortcut>
        }),
{
    if !control || text.unicode_len() != 1 {
        return None;
    }
    let c = text.get_char(0);
    if c == 'z' || c == 'Z' {
        Some(Shortcut::Undo)
    } else if c == 'y' || c == 'Y' {
        Some(Shortcut::Redo)
    } else {
        None
    }
}

/// The cursor blinks with this half-period, in milliseconds.
pub const BLINK_PERIOD_MS: u128 = 500;

/// The cursor shows during the even half-periods since the last key press.
pub fn cursor_blink_on(elapsed_ms: u128) -> (on: bool)
    ensures
        on == ((elapsed_ms / 500) % 2 == 0),
{
    (elapsed_ms / BLINK_PERIOD_MS) % 2 == 0
}

/// The glyph at whose right edge the cursor is drawn, given the number of
/// glyphs on the cursor's line (`None` when that line has no glyph list)
/// and the cursor's column: the glyph before the column, else the line's
/// last glyph; `None` (the line's origin) at column 0, on a missing line,
/// or on a line without glyphs.
pub fn caret_glyph(glyph_count: Option<usize>, column: usize) -> (g: Option<usize>)
    ensures
        g == (match glyph_count {
            Some(n) if column > 0 => if column - 1 < n {
                Some((column - 1) as usize)
            } else if n > 0 {
                Some((n - 1) as usize)
            } else {
                None::<usize>
            },
            _ => None::<usize>,
        }),
{
    match glyph_count {
        Some(n) if column > 0 => {
            if column - 1 < n {
                Some(column - 1)
            } else if n > 0 {
                Some(n - 1)
            } else {
                None
            }
        },
        _ => None,
    }
}

} // verus!
