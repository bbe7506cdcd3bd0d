use dumpling::loader::{LoadError, Loader};
use dumpling::paper::Paper;

fn paper(title: &str) -> Paper {
    let mut p = Paper::default();
    p.title = title.to_string();
    p
}

fn paths(names: &[&str]) -> Vec<String> {
    names.iter().map(|s| s.to_string()).collect()
}

fn parsed_all(names: &[&str]) -> Vec<Option<Paper>> {
    names.iter().map(|s| Some(paper(s))).collect()
}

/// A non-empty index of size five with capacity two loads exactly
/// min(2 + 1, 5) = 3 contiguous positions starting at 0.
#[test]
fn initialize_window_size_capacity_smaller() {
    let index = paths(&["a", "b", "c", "d", "e"]);
    let loader = Loader::load(2, index, parsed_all(&["A", "B", "C"]));
    assert_eq!(loader.loaded_paths, vec![0, 1, 2]);
    assert_eq!(loader.papers.len(), 3);
    assert_eq!(loader.papers[0].title, "A");
    assert_eq!(loader.papers[2].title, "C");
}

/// A capacity at least the index size loads the whole index.
#[test]
fn initialize_window_size_capacity_larger() {
    let index = paths(&["a", "b"]);
    let loader = Loader::load(10, index, parsed_all(&["A", "B"]));
    assert_eq!(loader.loaded_paths, vec![0, 1]);
    assert_eq!(loader.papers.len(), 2);
}

/// A negative capacity loads nothing; an empty index loads nothing.
#[test]
fn initialize_degenerate() {
    let loader = Loader::load(-1, paths(&["a"]), Vec::new());
    assert!(loader.loaded_paths.is_empty());
    let loader = Loader::load(5, Vec::new(), Vec::new());
    assert!(loader.loaded_paths.is_empty());
}

/// A candidate that fails to parse is skipped without shifting the
/// positions of the others.
#[test]
fn initialize_skips_failed_parses() {
    let index = paths(&["a", "b", "c", "d"]);
    let parsed = vec![Some(paper("A")), None, Some(paper("C"))];
    let loader = Loader::load(2, index, parsed);
    assert_eq!(loader.loaded_paths, vec![0, 2]);
    assert_eq!(loader.papers.len(), 2);
    assert_eq!(loader.papers[1].title, "C");
}

/// The scenario: index [A,B,C,D,E], capacity 2. The window loads
/// [A,B,C] with the cursor at 0; one scroll forward slides it to
/// [B,C,D] with the cursor still 0; two more scrolls reach the end of
/// the index, after which only the cursor moves, clamped at the
/// window's last slot.
#[test]
fn scroll_forward_scenario() {
    let index = paths(&["a", "b", "c", "d", "e"]);
    let mut loader = Loader::load(2, index, parsed_all(&["A", "B", "C"]));
    assert_eq!(loader.loaded_paths, vec![0, 1, 2]);
    let mut cursor: usize = 0;

    cursor = loader.load_next(cursor, Some(paper("D"))).unwrap();
    assert_eq!(loader.loaded_paths, vec![1, 2, 3]);
    assert_eq!(cursor, 0);

    cursor = loader.load_next(cursor, Some(paper("E"))).unwrap();
    assert_eq!(loader.loaded_paths, vec![2, 3, 4]);
    assert_eq!(cursor, 0);

    // The end of the index: the window stands still and the cursor moves.
    cursor = loader.load_next(cursor, None).unwrap();
    assert_eq!(loader.loaded_paths, vec![2, 3, 4]);
    assert_eq!(cursor, 1);

    cursor = loader.load_next(cursor, None).unwrap();
    assert_eq!(cursor, 2);

    // The cursor clamps at the window's last index, not beyond.
    cursor = loader.load_next(cursor, None).unwrap();
    assert_eq!(cursor, 2);
    assert_eq!(loader.loaded_paths, vec![2, 3, 4]);
}

/// Scrolling forward to exhaustion and back the same number of times
/// returns the window and the cursor to their initial state.
#[test]
fn scroll_round_trip() {
    let index = paths(&["a", "b", "c", "d", "e"]);
    let mut loader = Loader::load(1, index, parsed_all(&["A", "B"]));
    let initial_positions = loader.loaded_paths.clone();
    let titles = ["A", "B", "C", "D", "E"];
    let mut cursor: usize = 0;
    let m = 6;
    for _ in 0..m {
        let parsed = loader.next_target().map(|t| paper(titles[t]));
        cursor = loader.load_next(cursor, parsed).unwrap();
    }
    for _ in 0..m {
        let parsed = loader.previous_target().map(|t| paper(titles[t]));
        cursor = loader.load_previous(cursor, parsed).unwrap();
    }
    assert_eq!(loader.loaded_paths, initial_positions);
    assert_eq!(cursor, 0);
    assert_eq!(loader.papers[0].title, "A");
    assert_eq!(loader.papers[1].title, "B");
}

/// A backward scroll at position 0 only moves the cursor and never
/// underflows.
#[test]
fn scroll_backward_at_start() {
    let index = paths(&["a", "b", "c"]);
    let mut loader = Loader::load(1, index, parsed_all(&["A", "B"]));
    let mut cursor: usize = 1;
    cursor = loader.load_previous(cursor, None).unwrap();
    assert_eq!(cursor, 0);
    assert_eq!(loader.loaded_paths, vec![0, 1]);
    cursor = loader.load_previous(cursor, None).unwrap();
    assert_eq!(cursor, 0);
    assert_eq!(loader.loaded_paths, vec![0, 1]);
}

/// A parse failure on the entry a slide must load is the fatal
/// corruption error, and nothing moves.
#[test]
fn scroll_corruption_is_fatal() {
    let index = paths(&["a", "b", "c"]);
    let mut loader = Loader::load(0, index, parsed_all(&["A"]));
    assert_eq!(loader.next_target(), Some(1));
    let r = loader.load_next(0, None);
    assert_eq!(r, Err(LoadError::CorruptEntry));
    assert_eq!(loader.loaded_paths, vec![0]);
    assert_eq!(loader.papers.len(), 1);
}

/// Scrolling an empty loader does nothing and reports position 0.
#[test]
fn scroll_empty_loader() {
    let mut loader = Loader::load(5, Vec::new(), Vec::new());
    assert_eq!(loader.load_next(3, None), Ok(0));
    assert_eq!(loader.load_previous(3, None), Ok(0));
}

/// Removing the entry under the cursor shrinks the window by one,
/// drops the path from the index, and decrements every later position
/// by exactly one.
#[test]
fn remove_renumbers_positions() {
    let index = paths(&["a", "b", "c", "d", "e"]);
    let mut loader = Loader::load(10, index, parsed_all(&["A", "B", "C", "D", "E"]));
    let removed = loader.remove_file(1);
    assert!(removed);
    assert_eq!(loader.valid_paths, vec!["a", "c", "d", "e"]);
    assert_eq!(loader.loaded_paths, vec![0, 1, 2, 3]);
    assert_eq!(loader.papers.len(), 4);
    assert_eq!(loader.papers[1].title, "C");
}

/// Removal with no loaded slot under the cursor changes nothing.
#[test]
fn remove_out_of_range() {
    let index = paths(&["a", "b"]);
    let mut loader = Loader::load(10, index, parsed_all(&["A", "B"]));
    let removed = loader.remove_file(5);
    assert!(!removed);
    assert_eq!(loader.loaded_paths, vec![0, 1]);
    assert_eq!(loader.valid_paths.len(), 2);
}

/// A removal in the middle of a slid window renumbers only the
/// positions greater than the removed one.
#[test]
fn remove_in_slid_window() {
    let index = paths(&["a", "b", "c", "d", "e"]);
    let mut loader = Loader::load(1, index, parsed_all(&["A", "B"]));
    let mut cursor: usize = 0;
    cursor = loader.load_next(cursor, Some(paper("C"))).unwrap();
    assert_eq!(loader.loaded_paths, vec![1, 2]);
    let removed = loader.remove_file(cursor);
    assert!(removed);
    assert_eq!(loader.valid_paths, vec!["a", "c", "d", "e"]);
    assert_eq!(loader.loaded_paths, vec![1]);
    assert_eq!(loader.papers[0].title, "C");
}

/// The selected path follows the window's position, not the cursor
/// alone.
#[test]
fn selected_file_path_follows_window() {
    let index = paths(&["a", "b", "c"]);
    let mut loader = Loader::load(0, index, parsed_all(&["A"]));
    assert_eq!(loader.selected_file_path(0), Some("a".to_string()));
    let _ = loader.load_next(0, Some(paper("B"))).unwrap();
    assert_eq!(loader.selected_file_path(0), Some("b".to_string()));
    assert_eq!(loader.selected_file_path(1), None);
}

/// The document path joins the document directory with the entry's
/// document name and resolves the home alias.
#[test]
fn pdf_file_path_joins_and_expands() {
    let index = paths(&["a"]);
    let mut p = paper("A");
    p.docname = "doc.pdf".to_string();
    let loader = Loader::load(0, index, vec![Some(p)]);
    let home = Some("/home/u".to_string());
    assert_eq!(
        loader.pdf_file_path(0, &"~/papers".to_string(), &home),
        Some("/home/u/papers/doc.pdf".to_string())
    );
    assert_eq!(
        loader.pdf_file_path(0, &"/data".to_string(), &home),
        Some("/data/doc.pdf".to_string())
    );
    assert_eq!(loader.pdf_file_path(1, &"/data".to_string(), &home), None);
}

/// The text a copy hands to the clipboard is exactly the selected
/// entry's bibtex field, and nothing without a selection.
#[test]
fn selected_bibtex_follows_cursor() {
    let index = paths(&["a", "b"]);
    let mut p0 = paper("A");
    p0.bibtex = "@article{a}".to_string();
    let mut p1 = paper("B");
    p1.bibtex = "@book{b}".to_string();
    let loader = Loader::load(10, index, vec![Some(p0), Some(p1)]);
    assert_eq!(loader.selected_bibtex(0), Some("@article{a}".to_string()));
    assert_eq!(loader.selected_bibtex(1), Some("@book{b}".to_string()));
    assert_eq!(loader.selected_bibtex(2), None);
}

/// Copying bibtex with no entry under the cursor reports failure and
/// is not fatal.
#[test]
fn bibtex_copy_out_of_range() {
    let loader = Loader::load(5, Vec::new(), Vec::new());
    assert!(!loader.bibtex_entry_to_clipboard(0));
}
