//! The confirmation dialog's text-input core: a character buffer, a
//! cursor inside it, and the line most recently submitted.
//!
//! The buffer holds characters, not bytes, so every cursor operation is
//! an exact index computation over the character sequence. Each editing
//! operation is specified by a spec-level transition function on the
//! dialog's mathematical view.

use vstd::prelude::*;

verus! {

/// Internal state of the pop-up dialog: the text being typed, the cursor
/// position within it (counted in characters), and the last submitted line.
pub struct PopupCore {
    pub input: Vec<char>,
    pub char_index: usize,
    pub entered_message: Vec<char>,
}

/// The mathematical view of a [`PopupCore`].
pub ghost struct PopupView {
    pub input: Seq<char>,
    pub char_index: int,
    pub entered_message: Seq<char>,
}

impl View for PopupCore {
    type V = PopupView;

    open spec fn view(&self) -> PopupView {
        PopupView {
            input: self.input@,
            char_index: self.char_index as int,
            entered_message: self.entered_message@,
        }
    }
}

/// A cursor position clamped between the start of the text and the
/// position just after its last character.
pub open spec fn popup_clamp(len: nat, pos: int) -> int {
    if pos <= len {
        pos
    } else {
        len as int
    }
}

/// The dialog after the cursor moved one character to the left.
pub open spec fn after_cursor_left(v: PopupView) -> PopupView {
    PopupView {
        char_index: popup_clamp(
            v.input.len(),
            if v.char_index == 0 {
                0
            } else {
                v.char_index - 1
            },
        ),
        ..v
    }
}

/// The dialog after the cursor moved one character to the right.
pub open spec fn after_cursor_right(v: PopupView) -> PopupView {
    PopupView { char_index: popup_clamp(v.input.len(), v.char_index + 1), ..v }
}

/// The dialog after a character was typed at the cursor.
pub open spec fn after_enter_char(v: PopupView, c: char) -> PopupView {
    PopupView {
        input: v.input.insert(popup_clamp(v.input.len(), v.char_index), c),
        char_index: popup_clamp(v.input.len() + 1, v.char_index + 1),
        ..v
    }
}

/// The dialog after the character before the cursor was deleted.
pub open spec fn after_delete_char(v: PopupView) -> PopupView {
    if v.char_index == 0 {
        v
    } else {
        let shrunk = if v.char_index - 1 < v.input.len() {
            v.input.remove(v.char_index - 1)
        } else {
            v.input
        };
        PopupView { input: shrunk, char_index: popup_clamp(shrunk.len(), v.char_index - 1), ..v }
    }
}

/// The dialog after the current input was submitted.
pub open spec fn after_submit(v: PopupView) -> PopupView {
    PopupView { input: Seq::empty(), char_index: 0, entered_message: v.input }
}

/// The dialog at rest: empty input, cursor at the start, nothing submitted.
pub open spec fn popup_at_rest(v: PopupView) -> bool {
    v.input.len() == 0 && v.char_index == 0 && v.entered_message.len() == 0
}

/// The UTF-8 width in bytes of one character.
pub open spec fn char_utf8_width(c: char) -> nat {
    if (c as u32) < 0x80 {
        1
    } else if (c as u32) < 0x800 {
        2
    } else if (c as u32) < 0x10000 {
        3
    } else {
        4
    }
}

/// The UTF-8 length in bytes of a character sequence.
pub open spec fn utf8_len_of(s: Seq<char>) -> nat
    decreases s.len(),
{
    if s.len() == 0 {
        0
    } else {
        utf8_len_of(s.drop_last()) + char_utf8_width(s.last())
    }
}

/// A prefix never has a larger UTF-8 length than the whole sequence.
proof fn lemma_utf8_len_take_le(s: Seq<char>, i: int)
    requires
        0 <= i <= s.len(),
    ensures
        utf8_len_of(s.take(i)) <= utf8_len_of(s),
    decreases s.len(),
{
    if i < s.len() {
        assert(s.drop_last().take(i) =~= s.take(i));
        lemma_utf8_len_take_le(s.drop_last(), i);
    } else {
        assert(s.take(i) =~= s);
    }
}

/// The UTF-8 width in bytes of one character, computed from its scalar value.
fn char_width(c: char) -> (w: usize)
    ensures
        w == char_utf8_width(c),
{
    let u = c as u32;
    if u < 0x80 {
        1
    } else if u < 0x800 {
        2
    } else if u < 0x10000 {
        3
    } else {
        4
    }
}

impl Default for PopupCore {
    /// The dialog at rest: empty input, cursor at the start, nothing submitted.
    fn default() -> (r: PopupCore)
        ensures
            popup_at_rest(r@),
    {
        PopupCore { input: Vec::new(), char_index: 0, entered_message: Vec::new() }
    }
}

impl PopupCore {
    /// Create a dialog state from its three parts.
    pub fn new(input: Vec<char>, char_index: usize, entered_message: Vec<char>) -> (r: PopupCore)
        ensures
            r@.input == input@,
            r@.char_index == char_index,
            r@.entered_message == entered_message@,
    {
        PopupCore { input, char_index, entered_message }
    }

    /// Clamp a candidate cursor position between the start of the text and
    /// the position just after the last typed character.
    pub fn clamp_cursor(&self, new_cursor_pos: usize) -> (r: usize)
        ensures
            r == popup_clamp(self.input@.len(), new_cursor_pos as int),
    {
        if new_cursor_pos <= self.input.len() {
            new_cursor_pos
        } else {
            self.input.len()
        }
    }

    /// Put the cursor back at the beginning of the text.
    pub fn reset_cursor(&mut self)
        ensures
            final(self)@ == (PopupView { char_index: 0, ..old(self)@ }),
    {
        self.char_index = 0;
    }

    /// Move the cursor one character to the left, stopping at the start.
    pub fn move_cursor_left(&mut self)
        ensures
            final(self)@ == after_cursor_left(old(self)@),
    {
        let moved = if self.char_index > 0 {
            self.char_index - 1
        } else {
            0
        };
        self.char_index = self.clamp_cursor(moved);
    }

    /// Move the cursor one character to the right, stopping just after the
    /// last typed character.
    pub fn move_cursor_right(&mut self)
        ensures
            final(self)@ == after_cursor_right(old(self)@),
    {
        let moved = if self.char_index < self.input.len() {
            self.char_index + 1
        } else {
            self.char_index
        };
        self.char_index = self.clamp_cursor(moved);
    }

    /// The byte offset, in the UTF-8 encoding of the input, of the character
    /// the cursor stands on; the total byte length when the cursor stands
    /// past the end.
    pub fn byte_index(&self) -> (r: usize)
        requires
            utf8_len_of(self.input@) <= usize::MAX,
        ensures
            r == utf8_len_of(self.input@.take(popup_clamp(self.input@.len(), self.char_index as int))),
    {
        let limit = self.clamp_cursor(self.char_index);
        let mut acc: usize = 0;
        let mut i: usize = 0;
        while i < limit
            invariant
                0 <= i <= limit <= self.input@.len(),
                acc == utf8_len_of(self.input@.take(i as int)),
                utf8_len_of(self.input@) <= usize::MAX,
            decreases limit - i,
        {
            proof {
                lemma_utf8_len_take_le(self.input@, i + 1);
                assert(self.input@.take(i + 1).drop_last() =~= self.input@.take(i as int));
                assert(self.input@.take(i + 1).last() == self.input@[i as int]);
            }
            acc = acc + char_width(self.input[i]);
            i = i + 1;
        }
        acc
    }

    /// Insert a character at the cursor and advance the cursor past it.
    pub fn enter_char(&mut self, new_char: char)
        ensures
            final(self)@ == after_enter_char(old(self)@, new_char),
    {
        let index = self.clamp_cursor(self.char_index);
        self.input.insert(index, new_char);
        self.move_cursor_right();
    }

    /// Delete the character immediately before the cursor and retreat the
    /// cursor; at the start of the text nothing happens.
    pub fn delete_char(&mut self)
        ensures
            final(self)@ == after_delete_char(old(self)@),
    {
        if self.char_index != 0 {
            if self.char_index - 1 < self.input.len() {
                self.input.remove(self.char_index - 1);
            }
            self.move_cursor_left();
        }
    }

    /// Make the current input the submitted line and clear the dialog for
    /// the next use.
    pub fn submit_message(&mut self)
        ensures
            final(self)@ == after_submit(old(self)@),
    {
        let mut submitted: Vec<char> = Vec::new();
        core::mem::swap(&mut submitted, &mut self.input);
        self.entered_message = submitted;
        self.reset_cursor();
    }
}

} // verus!
