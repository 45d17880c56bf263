//! The interactive shell's editing state: one cursor, driven by key
//! presses.  Rendering and raw input stay outside; the shell receives
//! plain key values and applies the corresponding cursor operations.

use vstd::prelude::*;
use crate::editor::{Cursor, CursorView, Mode, cursor_view, cursor_wf, mode_of, moved_left, moved_right, moved_up, moved_out, move_out_ok, deleted_before, inserted, escaped, input_char};
use crate::text::{is_space_char, char_is_whitespace};

verus! {

/// One key press, as a plain value: the arrows, backspace, or a printable
/// character.
#[derive(Debug, Clone, Copy, PartialEq, Eq, Structural)]
pub enum Key {
    Left,
    Right,
    Up,
    Down,
    Backspace,
    Glyph(char),
    Other,
}

/// The editing state: a cursor over the program being written.
#[derive(Debug)]
pub struct Shell {
    pub cursor: Cursor,
}

/// A fresh identifier token's model.
pub open spec fn fresh_ident_view() -> CursorView {
    CursorView::Ident {
        head: Seq::empty(),
        caret: 0,
        text: Seq::empty(),
        tail: Seq::empty(),
    }
}

/// A fresh string token's model.
pub open spec fn fresh_strlit_view() -> CursorView {
    CursorView::StrLit {
        head: Seq::empty(),
        caret: 0,
        text: Seq::empty(),
        tail: Seq::empty(),
    }
}

/// A fresh quote's model: an empty edge inside an empty quote.
pub open spec fn fresh_quote_view() -> CursorView {
    CursorView::Quote {
        head: Seq::empty(),
        inner: Box::new(CursorView::Edge { head: Seq::empty(), tail: Seq::empty() }),
        tail: Seq::empty(),
    }
}

/// What a key does to a cursor in normal mode.
pub open spec fn normal_key(c: CursorView, key: Key) -> CursorView {
    match key {
        Key::Left => moved_left(c),
        Key::Right => moved_right(c),
        Key::Up => moved_up(c),
        Key::Backspace => deleted_before(c),
        Key::Down => moved_out(c),
        Key::Glyph(g) => {
            if g == 'i' {
                inserted(c, fresh_ident_view())
            } else if g == '"' {
                inserted(c, fresh_strlit_view())
            } else if g == '{' {
                inserted(c, fresh_quote_view())
            } else if g == '}' {
                moved_out(c)
            } else {
                c
            }
        },
        Key::Other => c,
    }
}

/// What a key does to a cursor that is writing an identifier: whitespace
/// commits the token, anything else printable goes into it.
pub open spec fn ident_key(c: CursorView, key: Key) -> CursorView {
    match key {
        Key::Glyph(g) => {
            if is_space_char(g) {
                escaped(c)
            } else {
                input_char(c, g)
            }
        },
        _ => c,
    }
}

/// What a key does to a cursor that is writing a string literal: a double
/// quote ends it, anything else goes into it.
pub open spec fn strlit_key(c: CursorView, key: Key) -> CursorView {
    match key {
        Key::Glyph(g) => {
            if g == '"' {
                escaped(c)
            } else {
                input_char(c, g)
            }
        },
        _ => c,
    }
}

/// What a key does to the shell, by the cursor's mode.  A numeric token
/// has no keys wired to it and ignores everything.
pub open spec fn shell_key(c: CursorView, key: Key) -> CursorView {
    match mode_of(c) {
        Mode::Normal => normal_key(c, key),
        Mode::Ident => ident_key(c, key),
        Mode::StrLit => strlit_key(c, key),
        Mode::NumLit => c,
    }
}

impl Shell {
    /// A fresh shell over an empty program.
    pub fn new() -> (r: Shell)
        ensures
            cursor_view(r.cursor) == (CursorView::Edge {
                head: Seq::<crate::syntax::ExprView>::empty(),
                tail: Seq::<crate::syntax::ExprView>::empty(),
            }),
            cursor_wf(cursor_view(r.cursor)),
    {
        Shell { cursor: Cursor::empty() }
    }

    /// Apply one key press to the cursor, by the current mode.
    pub fn handle_key_event(&mut self, key: Key)
        requires
            cursor_wf(cursor_view(old(self).cursor)),
            mode_of(cursor_view(old(self).cursor)) == Mode::Normal ==> move_out_ok(
                cursor_view(old(self).cursor),
            ),
        ensures
            cursor_view(final(self).cursor) == shell_key(cursor_view(old(self).cursor), key),
            cursor_wf(cursor_view(final(self).cursor)),
    {
        match self.cursor.mode() {
            Mode::Normal => self.handle_key_event_normal(key),
            Mode::Ident => self.handle_key_event_ident(key),
            Mode::StrLit => self.handle_key_event_strlit(key),
            Mode::NumLit => {},
        }
    }

    /// Apply one key press in normal mode.
    pub fn handle_key_event_normal(&mut self, key: Key)
        requires
            cursor_wf(cursor_view(old(self).cursor)),
            mode_of(cursor_view(old(self).cursor)) == Mode::Normal,
            move_out_ok(cursor_view(old(self).cursor)),
        ensures
            cursor_view(final(self).cursor) == normal_key(cursor_view(old(self).cursor), key),
            cursor_wf(cursor_view(final(self).cursor)),
    {
        match key {
            Key::Left => self.cursor.move_left(),
            Key::Right => self.cursor.move_right(),
            Key::Up => self.cursor.move_up(),
            Key::Backspace => self.cursor.delete_before(),
            Key::Down => self.cursor.move_out(),
            Key::Glyph(g) => {
                if g == 'i' {
                    self.cursor.insert(Cursor::empty_ident());
                } else if g == '"' {
                    self.cursor.insert(Cursor::empty_str_lit());
                } else if g == '{' {
                    self.cursor.insert(Cursor::empty_quote());
                } else if g == '}' {
                    self.cursor.move_out();
                }
            },
            Key::Other => {},
        }
    }

    /// Apply one key press while writing an identifier.
    pub fn handle_key_event_ident(&mut self, key: Key)
        requires
            cursor_wf(cursor_view(old(self).cursor)),
            mode_of(cursor_view(old(self).cursor)) == Mode::Ident,
        ensures
            cursor_view(final(self).cursor) == ident_key(cursor_view(old(self).cursor), key),
            cursor_wf(cursor_view(final(self).cursor)),
    {
        match key {
            Key::Glyph(g) => {
                if char_is_whitespace(g) {
                    self.cursor.escape_to_normal();
                } else {
                    self.cursor.input(g);
                }
            },
            _ => {},
        }
    }

    /// Apply one key press while writing a string literal.
    pub fn handle_key_event_strlit(&mut self, key: Key)
        requires
            cursor_wf(cursor_view(old(self).cursor)),
            mode_of(cursor_view(old(self).cursor)) == Mode::StrLit,
        ensures
            cursor_view(final(self).cursor) == strlit_key(cursor_view(old(self).cursor), key),
            cursor_wf(cursor_view(final(self).cursor)),
    {
        match key {
            Key::Glyph(g) => {
                if g == '"' {
                    self.cursor.escape_to_normal();
                } else {
                    self.cursor.input(g);
                }
            },
            _ => {},
        }
    }
}

} // verus!
