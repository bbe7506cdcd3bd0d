use dumpling::loader::Loader;
use dumpling::paper::Paper;
use dumpling::session::{
    handle_key_events, key_event_for_char, request_delete, resolve_confirmation, AppState,
    KeyEvents, Keybinds, PopupKey, PopupState,
};

fn paper(title: &str) -> Paper {
    let mut p = Paper::default();
    p.title = title.to_string();
    p
}

fn loader_of(names: &[&str]) -> Loader {
    let paths: Vec<String> = names.iter().map(|s| s.to_string()).collect();
    let parsed: Vec<Option<Paper>> = names.iter().map(|s| Some(paper(s))).collect();
    Loader::load(10, paths, parsed)
}

fn type_line(state: &mut AppState, line: &str) {
    for c in line.chars() {
        handle_key_events(state, PopupKey::Char(c));
    }
}

#[test]
fn default_keybind_mapping() {
    let kb = Keybinds::default();
    assert_eq!(key_event_for_char('q', &kb), KeyEvents::Quit);
    assert_eq!(key_event_for_char('j', &kb), KeyEvents::Next);
    assert_eq!(key_event_for_char('k', &kb), KeyEvents::Previous);
    assert_eq!(key_event_for_char('b', &kb), KeyEvents::Bibtex);
    assert_eq!(key_event_for_char('e', &kb), KeyEvents::Edit);
    assert_eq!(key_event_for_char('o', &kb), KeyEvents::Open);
    assert_eq!(key_event_for_char('d', &kb), KeyEvents::Delete);
    assert_eq!(key_event_for_char('z', &kb), KeyEvents::NoEvent);
}

/// An ambiguous configuration resolves in the fixed consultation order,
/// quit first.
#[test]
fn ambiguous_binding_resolves_in_order() {
    let mut kb = Keybinds::default();
    kb.next = 'q';
    assert_eq!(key_event_for_char('q', &kb), KeyEvents::Quit);
}

/// Entering the dialog, typing "n" and pressing enter: the submitted
/// line does not confirm, so no removal is asked for, and the session
/// returns to browsing.
#[test]
fn confirmation_declined() {
    let mut loader = loader_of(&["a", "b", "c"]);
    let cursor: usize = 1;
    let mut state = AppState::default();
    request_delete(&mut state);
    assert_eq!(state.popup_state, PopupState::ConfirmDelete);

    type_line(&mut state, "n");
    handle_key_events(&mut state, PopupKey::Enter);
    let do_remove = resolve_confirmation(&mut state);
    assert!(!do_remove);
    if do_remove {
        loader.remove_file(cursor);
    }
    assert_eq!(state.popup_state, PopupState::NoPopup);
    assert_eq!(loader.valid_paths.len(), 3);
    assert_eq!(loader.loaded_paths, vec![0, 1, 2]);
}

/// Entering the dialog, typing "y" and pressing enter: the removal is
/// asked for and applies to the cursor active when the dialog opened.
#[test]
fn confirmation_accepted() {
    let mut loader = loader_of(&["a", "b", "c"]);
    let cursor: usize = 1;
    let mut state = AppState::default();
    request_delete(&mut state);

    type_line(&mut state, "y");
    handle_key_events(&mut state, PopupKey::Enter);
    let do_remove = resolve_confirmation(&mut state);
    assert!(do_remove);
    if do_remove {
        loader.remove_file(cursor);
    }
    assert_eq!(state.popup_state, PopupState::NoPopup);
    assert_eq!(loader.valid_paths, vec!["a", "c"]);
    assert_eq!(loader.papers[1].title, "c");
}

/// The confirmation token tolerates surrounding whitespace but nothing
/// else.
#[test]
fn confirmation_trims_whitespace() {
    for (line, expect) in [("  y ", true), ("y", true), ("yes", false), ("Y", false), (" ", false)]
    {
        let mut state = AppState::default();
        request_delete(&mut state);
        type_line(&mut state, line);
        handle_key_events(&mut state, PopupKey::Enter);
        assert_eq!(resolve_confirmation(&mut state), expect, "line {:?}", line);
    }
}

/// While nothing has been submitted the resolution leaves the dialog
/// open and asks for nothing.
#[test]
fn confirmation_pending_is_noop() {
    let mut state = AppState::default();
    request_delete(&mut state);
    type_line(&mut state, "y");
    let do_remove = resolve_confirmation(&mut state);
    assert!(!do_remove);
    assert_eq!(state.popup_state, PopupState::ConfirmDelete);
    assert_eq!(state.popup_core.input, vec!['y']);
}

/// Escape discards the dialog with no side effect.
#[test]
fn escape_discards_dialog() {
    let mut state = AppState::default();
    request_delete(&mut state);
    type_line(&mut state, "y");
    handle_key_events(&mut state, PopupKey::Esc);
    assert_eq!(state.popup_state, PopupState::NoPopup);
    assert!(state.popup_core.input.is_empty());
    let do_remove = resolve_confirmation(&mut state);
    assert!(!do_remove);
}

/// Dialog editing routes through the buffer: arrows, backspace and
/// characters.
#[test]
fn dialog_editing_keys() {
    let mut state = AppState::default();
    request_delete(&mut state);
    type_line(&mut state, "no");
    handle_key_events(&mut state, PopupKey::Backspace);
    handle_key_events(&mut state, PopupKey::Left);
    handle_key_events(&mut state, PopupKey::Char('y'));
    assert_eq!(state.popup_core.input, vec!['y', 'n']);
    handle_key_events(&mut state, PopupKey::Right);
    handle_key_events(&mut state, PopupKey::Backspace);
    assert_eq!(state.popup_core.input, vec!['y']);
}

#[test]
fn set_default_resets() {
    let mut state = AppState::default();
    request_delete(&mut state);
    type_line(&mut state, "abc");
    state.set_default();
    assert_eq!(state.popup_state, PopupState::NoPopup);
    assert!(state.popup_core.input.is_empty());
}
