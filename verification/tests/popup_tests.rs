use dumpling::popup::PopupCore;

fn chars(s: &str) -> Vec<char> {
    s.chars().collect()
}

#[test]
fn default_is_at_rest() {
    let p = PopupCore::default();
    assert!(p.input.is_empty());
    assert_eq!(p.char_index, 0);
    assert!(p.entered_message.is_empty());
}

#[test]
fn new_keeps_parts() {
    let p = PopupCore::new(chars("ab"), 1, chars("x"));
    assert_eq!(p.input, chars("ab"));
    assert_eq!(p.char_index, 1);
    assert_eq!(p.entered_message, chars("x"));
}

#[test]
fn clamp_cursor_bounds() {
    let p = PopupCore::new(chars("abc"), 0, Vec::new());
    assert_eq!(p.clamp_cursor(2), 2);
    assert_eq!(p.clamp_cursor(3), 3);
    assert_eq!(p.clamp_cursor(7), 3);
}

#[test]
fn cursor_moves_stop_at_ends() {
    let mut p = PopupCore::new(chars("ab"), 0, Vec::new());
    p.move_cursor_left();
    assert_eq!(p.char_index, 0);
    p.move_cursor_right();
    assert_eq!(p.char_index, 1);
    p.move_cursor_right();
    assert_eq!(p.char_index, 2);
    p.move_cursor_right();
    assert_eq!(p.char_index, 2);
    p.reset_cursor();
    assert_eq!(p.char_index, 0);
}

#[test]
fn enter_char_inserts_at_cursor() {
    let mut p = PopupCore::default();
    p.enter_char('y');
    p.enter_char('s');
    assert_eq!(p.input, chars("ys"));
    assert_eq!(p.char_index, 2);
    p.move_cursor_left();
    p.enter_char('e');
    assert_eq!(p.input, chars("yes"));
    assert_eq!(p.char_index, 2);
}

#[test]
fn delete_char_removes_before_cursor() {
    let mut p = PopupCore::new(chars("abc"), 2, Vec::new());
    p.delete_char();
    assert_eq!(p.input, chars("ac"));
    assert_eq!(p.char_index, 1);
    p.delete_char();
    assert_eq!(p.input, chars("c"));
    assert_eq!(p.char_index, 0);
    // At the start of the text deletion is a no-op.
    p.delete_char();
    assert_eq!(p.input, chars("c"));
    assert_eq!(p.char_index, 0);
}

#[test]
fn submit_message_clears_input() {
    let mut p = PopupCore::new(chars("y"), 1, Vec::new());
    p.submit_message();
    assert_eq!(p.entered_message, chars("y"));
    assert!(p.input.is_empty());
    assert_eq!(p.char_index, 0);
}

/// The byte index counts the UTF-8 width of each character before the
/// cursor.
#[test]
fn byte_index_counts_utf8_widths() {
    // 'a' is 1 byte, 'é' 2 bytes, '€' 3 bytes, '🦀' 4 bytes.
    let p = PopupCore::new(chars("aé€🦀"), 0, Vec::new());
    let widths: Vec<usize> = vec![0, 1, 3, 6];
    for (i, w) in widths.iter().enumerate() {
        let q = PopupCore::new(p.input.clone(), i, Vec::new());
        assert_eq!(q.byte_index(), *w);
    }
    let q = PopupCore::new(p.input.clone(), 4, Vec::new());
    assert_eq!(q.byte_index(), 10);
    // Past the end the byte index is the total byte length.
    let q = PopupCore::new(p.input.clone(), 9, Vec::new());
    assert_eq!(q.byte_index(), 10);
}
