//! The interactive session's state machine: browsing versus the
//! delete-confirmation dialog, the mapping from configured key bindings
//! to logical events, and the resolution of a submitted confirmation
//! line.

use vstd::prelude::*;
use crate::popup::{
    PopupCore, PopupView, popup_at_rest, after_submit, after_enter_char, after_delete_char,
    after_cursor_left, after_cursor_right,
};

verus! {

/// The logical events a key press can trigger while browsing.
#[derive(Clone, Copy, Debug, PartialEq, Eq, Structural)]
pub enum KeyEvents {
    NoEvent,
    Next,
    Previous,
    Bibtex,
    Edit,
    Delete,
    Open,
    Quit,
}

/// The key presses the confirmation dialog reacts to.
#[derive(Clone, Copy, Debug, PartialEq, Eq, Structural)]
pub enum PopupKey {
    Enter,
    Char(char),
    Backspace,
    Left,
    Right,
    Esc,
}

/// The configured key binding for each browsing event, as already-resolved
/// characters.
#[derive(Clone, Copy, Debug, PartialEq, Eq, Structural)]
pub struct Keybinds {
    pub quit: char,
    pub next: char,
    pub previous: char,
    pub bibtex_to_clipboard: char,
    pub edit: char,
    pub delete: char,
    pub open_in_pdfviewer: char,
}

impl Default for Keybinds {
    /// The bindings used when the configuration file supplies none.
    fn default() -> (r: Keybinds)
        ensures
            r == (Keybinds {
                quit: 'q',
                next: 'j',
                previous: 'k',
                bibtex_to_clipboard: 'b',
                edit: 'e',
                delete: 'd',
                open_in_pdfviewer: 'o',
            }),
    {
        Keybinds {
            quit: 'q',
            next: 'j',
            previous: 'k',
            bibtex_to_clipboard: 'b',
            edit: 'e',
            delete: 'd',
            open_in_pdfviewer: 'o',
        }
    }
}

/// The event a typed character triggers: bindings are consulted in a fixed
/// order, quit first, so an ambiguous configuration resolves the same way
/// every time.
pub open spec fn key_event_spec(c: char, kb: Keybinds) -> KeyEvents {
    if c == kb.quit {
        KeyEvents::Quit
    } else if c == kb.next {
        KeyEvents::Next
    } else if c == kb.previous {
        KeyEvents::Previous
    } else if c == kb.bibtex_to_clipboard {
        KeyEvents::Bibtex
    } else if c == kb.edit {
        KeyEvents::Edit
    } else if c == kb.open_in_pdfviewer {
        KeyEvents::Open
    } else if c == kb.delete {
        KeyEvents::Delete
    } else {
        KeyEvents::NoEvent
    }
}

/// Map a typed character to the browsing event its binding names.
pub fn key_event_for_char(c: char, kb: &Keybinds) -> (r: KeyEvents)
    ensures
        r == key_event_spec(c, *kb),
{
    if c == kb.quit {
        KeyEvents::Quit
    } else if c == kb.next {
        KeyEvents::Next
    } else if c == kb.previous {
        KeyEvents::Previous
    } else if c == kb.bibtex_to_clipboard {
        KeyEvents::Bibtex
    } else if c == kb.edit {
        KeyEvents::Edit
    } else if c == kb.open_in_pdfviewer {
        KeyEvents::Open
    } else if c == kb.delete {
        KeyEvents::Delete
    } else {
        KeyEvents::NoEvent
    }
}

/// Which pop-up, if any, is open.
#[derive(Clone, Copy, Debug, PartialEq, Eq, Structural)]
pub enum PopupState {
    NoPopup,
    ConfirmDelete,
}

/// The session's modal state: whether a pop-up is open, and the content
/// of its dialog.
pub struct AppState {
    pub popup_state: PopupState,
    pub popup_core: PopupCore,
}

impl Default for AppState {
    /// The state a session starts in: browsing, with an empty dialog.
    fn default() -> (r: AppState)
        ensures
            r.popup_state == PopupState::NoPopup,
            popup_at_rest(r.popup_core@),
    {
        AppState { popup_state: PopupState::NoPopup, popup_core: PopupCore::default() }
    }
}

impl AppState {
    /// Put the session back into its initial browsing state, discarding
    /// any open dialog.
    pub fn set_default(&mut self)
        ensures
            final(self).popup_state == PopupState::NoPopup,
            popup_at_rest(final(self).popup_core@),
    {
        *self = Self::default();
    }
}

/// Open the delete-confirmation dialog; the dialog's content is left as
/// it stands.
pub fn request_delete(app_state: &mut AppState)
    ensures
        final(app_state).popup_state == PopupState::ConfirmDelete,
        final(app_state).popup_core@ == old(app_state).popup_core@,
{
    app_state.popup_state = PopupState::ConfirmDelete;
}

/// Route one key press to the open dialog: printable characters edit the
/// buffer, enter submits it, and escape discards the dialog entirely.
pub fn handle_key_events(app_state: &mut AppState, key: PopupKey)
    ensures
        key == PopupKey::Enter ==> final(app_state).popup_core@ == after_submit(
            old(app_state).popup_core@,
        ) && final(app_state).popup_state == old(app_state).popup_state,
        key matches PopupKey::Char(c) ==> final(app_state).popup_core@ == after_enter_char(
            old(app_state).popup_core@,
            c,
        ) && final(app_state).popup_state == old(app_state).popup_state,
        key == PopupKey::Backspace ==> final(app_state).popup_core@ == after_delete_char(
            old(app_state).popup_core@,
        ) && final(app_state).popup_state == old(app_state).popup_state,
        key == PopupKey::Left ==> final(app_state).popup_core@ == after_cursor_left(
            old(app_state).popup_core@,
        ) && final(app_state).popup_state == old(app_state).popup_state,
        key == PopupKey::Right ==> final(app_state).popup_core@ == after_cursor_right(
            old(app_state).popup_core@,
        ) && final(app_state).popup_state == old(app_state).popup_state,
        key == PopupKey::Esc ==> final(app_state).popup_state == PopupState::NoPopup
            && popup_at_rest(final(app_state).popup_core@),
{
    match key {
        PopupKey::Enter => app_state.popup_core.submit_message(),
        PopupKey::Char(to_insert) => app_state.popup_core.enter_char(to_insert),
        PopupKey::Backspace => app_state.popup_core.delete_char(),
        PopupKey::Left => app_state.popup_core.move_cursor_left(),
        PopupKey::Right => app_state.popup_core.move_cursor_right(),
        PopupKey::Esc => app_state.set_default(),
    }
}

/// The characters the confirmation check strips from either end of the
/// submitted line: the White_Space set.
pub open spec fn is_space_char(c: char) -> bool {
    ||| c == ' '
    ||| c == '\t'
    ||| c == '\n'
    ||| c == '\u{0b}'
    ||| c == '\u{0c}'
    ||| c == '\r'
    ||| c == '\u{85}'
    ||| c == '\u{a0}'
    ||| c == '\u{1680}'
    ||| ('\u{2000}' <= c && c <= '\u{200a}')
    ||| c == '\u{2028}'
    ||| c == '\u{2029}'
    ||| c == '\u{202f}'
    ||| c == '\u{205f}'
    ||| c == '\u{3000}'
}

/// A sequence with its leading whitespace removed.
pub open spec fn trim_start_spec(s: Seq<char>) -> Seq<char>
    decreases s.len(),
{
    if s.len() > 0 && is_space_char(s.first()) {
        trim_start_spec(s.drop_first())
    } else {
        s
    }
}

/// A sequence with its trailing whitespace removed.
pub open spec fn trim_end_spec(s: Seq<char>) -> Seq<char>
    decreases s.len(),
{
    if s.len() > 0 && is_space_char(s.last()) {
        trim_end_spec(s.drop_last())
    } else {
        s
    }
}

/// A sequence with whitespace removed from both ends.
pub open spec fn trim_spec(s: Seq<char>) -> Seq<char> {
    trim_end_spec(trim_start_spec(s))
}

/// Whether one character lies in the White_Space set.
fn is_space(c: char) -> (r: bool)
    ensures
        r == is_space_char(c),
{
    c == ' ' || c == '\t' || c == '\n' || c == '\u{0b}' || c == '\u{0c}' || c == '\r' || c
        == '\u{85}' || c == '\u{a0}' || c == '\u{1680}' || ('\u{2000}' <= c && c <= '\u{200a}') || c
        == '\u{2028}' || c == '\u{2029}' || c == '\u{202f}' || c == '\u{205f}' || c == '\u{3000}'
}

/// The region of `v` that remains once whitespace is stripped from both
/// ends, as a pair of bounds.
fn trimmed_region(v: &Vec<char>) -> (r: (usize, usize))
    ensures
        r.0 <= r.1 <= v@.len(),
        trim_spec(v@) == v@.subrange(r.0 as int, r.1 as int),
{
    let n = v.len();
    proof {
        assert(v@.subrange(0, n as int) =~= v@);
    }
    let mut lo: usize = 0;
    while lo < n && is_space(v[lo])
        invariant
            0 <= lo <= n == v@.len(),
            trim_start_spec(v@) == trim_start_spec(v@.subrange(lo as int, n as int)),
        decreases n - lo,
    {
        proof {
            assert(v@.subrange(lo as int, n as int).drop_first() =~= v@.subrange(
                lo + 1,
                n as int,
            ));
        }
        lo = lo + 1;
    }
    proof {
        if lo < n {
            assert(trim_start_spec(v@.subrange(lo as int, n as int)) == v@.subrange(
                lo as int,
                n as int,
            ));
        } else {
            assert(v@.subrange(lo as int, n as int).len() == 0);
        }
    }
    let mut hi: usize = n;
    while hi > lo && is_space(v[hi - 1])
        invariant
            lo <= hi <= n == v@.len(),
            trim_end_spec(v@.subrange(lo as int, n as int)) == trim_end_spec(
                v@.subrange(lo as int, hi as int),
            ),
        decreases hi,
    {
        proof {
            assert(v@.subrange(lo as int, hi as int).drop_last() =~= v@.subrange(
                lo as int,
                hi - 1,
            ));
        }
        hi = hi - 1;
    }
    (lo, hi)
}

/// Resolve a submitted confirmation line. While nothing has been
/// submitted the session is left as it stands and no removal is asked
/// for. A submitted line closes the dialog in every case, and asks for
/// the removal exactly when it reads `y` once trimmed of whitespace.
pub fn resolve_confirmation(app_state: &mut AppState) -> (do_remove: bool)
    ensures
        old(app_state).popup_core@.entered_message.len() == 0 ==> !do_remove && final(app_state)
            .popup_state == old(app_state).popup_state && final(app_state).popup_core@ == old(
            app_state,
        ).popup_core@,
        old(app_state).popup_core@.entered_message.len() > 0 ==> do_remove == (trim_spec(
            old(app_state).popup_core@.entered_message,
        ) == seq!['y']) && final(app_state).popup_state == PopupState::NoPopup && popup_at_rest(
            final(app_state).popup_core@,
        ),
{
    if app_state.popup_core.entered_message.len() == 0 {
        return false;
    }
    let (lo, hi) = trimmed_region(&app_state.popup_core.entered_message);
    let confirmed = hi - lo == 1 && app_state.popup_core.entered_message[lo] == 'y';
    proof {
        let t = trim_spec(app_state.popup_core.entered_message@);
        if confirmed {
            assert(t =~= seq!['y']);
        } else {
            if t.len() == 1 && t[0] == 'y' {
                assert(hi - lo == 1);
                assert(app_state.popup_core.entered_message@[lo as int] == 'y');
            }
            assert(t != seq!['y']);
        }
    }
    app_state.set_default();
    confirmed
}

} // verus!
