use dumpling::paper::{Paper, Tag};
use dumpling::paths::{
    expand_filepath, expand_filepath_with, has_entry_extension, has_pdf_extension, join_path,
    select_entry_paths, select_pdf_paths, select_tagged_paths,
};

fn tagged(labels: &[&str]) -> Paper {
    let mut p = Paper::default();
    p.tags = labels.iter().map(|l| Tag { label: l.to_string() }).collect();
    p
}

#[test]
fn entry_extension() {
    assert!(has_entry_extension(&"x.toml".to_string()));
    assert!(has_entry_extension(&".toml".to_string()));
    assert!(!has_entry_extension(&"x.tomlx".to_string()));
    assert!(!has_entry_extension(&"x.tml".to_string()));
    assert!(!has_entry_extension(&"toml".to_string()));
    assert!(!has_entry_extension(&"".to_string()));
}

#[test]
fn pdf_extension() {
    assert!(has_pdf_extension(&"a/b.pdf".to_string()));
    assert!(has_pdf_extension(&"b.pdf".to_string()));
    assert!(!has_pdf_extension(&"a/.pdf".to_string()));
    assert!(!has_pdf_extension(&".pdf".to_string()));
    assert!(!has_pdf_extension(&"b.PDF".to_string()));
    assert!(!has_pdf_extension(&"b.pdfx".to_string()));
}

#[test]
fn select_entries_keeps_order() {
    let paths: Vec<String> =
        ["a.toml", "b.txt", "c.toml", "d"].iter().map(|s| s.to_string()).collect();
    assert_eq!(select_entry_paths(&paths), vec!["a.toml", "c.toml"]);
}

#[test]
fn select_pdfs_keeps_order() {
    let paths: Vec<String> =
        ["a.pdf", "b.txt", "c/d.pdf", "e/.pdf"].iter().map(|s| s.to_string()).collect();
    assert_eq!(select_pdf_paths(&paths), vec!["a.pdf", "c/d.pdf"]);
}

/// A candidate is kept only when it parses and carries the exact tag;
/// the comparison is case-sensitive.
#[test]
fn tag_filter() {
    let paths: Vec<String> = ["a", "b", "c", "d"].iter().map(|s| s.to_string()).collect();
    let parsed = vec![
        Some(tagged(&["ml", "physics"])),
        None,
        Some(tagged(&["ML"])),
        Some(tagged(&["ml"])),
    ];
    assert_eq!(select_tagged_paths(&paths, &parsed, &"ml".to_string()), vec!["a", "d"]);
    assert_eq!(select_tagged_paths(&paths, &parsed, &"ML".to_string()), vec!["c"]);
    let none: Vec<String> = Vec::new();
    assert_eq!(select_tagged_paths(&paths, &parsed, &"none".to_string()), none);
}

#[test]
fn join_path_single_separator() {
    assert_eq!(join_path("/data", "d.pdf"), "/data/d.pdf");
    assert_eq!(join_path("/data/", "d.pdf"), "/data/d.pdf");
    assert_eq!(join_path("", "d.pdf"), "d.pdf");
}

#[test]
fn expand_tilde_and_home() {
    let home = Some("/home/u".to_string());
    assert_eq!(expand_filepath_with(&"~/x".to_string(), &home), "/home/u/x");
    assert_eq!(expand_filepath_with(&"~".to_string(), &home), "/home/u/");
    assert_eq!(expand_filepath_with(&"$HOME/x/y".to_string(), &home), "/home/u/x/y");
    assert_eq!(expand_filepath_with(&"$HOME///x".to_string(), &home), "/home/u/x");
    // Only a whole first component is an alias.
    assert_eq!(expand_filepath_with(&"~abc".to_string(), &home), "~abc");
    assert_eq!(expand_filepath_with(&"$HOMER/x".to_string(), &home), "$HOMER/x");
    assert_eq!(expand_filepath_with(&"/plain/x".to_string(), &home), "/plain/x");
    // With no known home directory the path stands unchanged.
    assert_eq!(expand_filepath_with(&"~/x".to_string(), &None), "~/x");
}

#[test]
fn expand_without_alias_is_identity() {
    assert_eq!(expand_filepath(&"/p/q.pdf".to_string()), "/p/q.pdf");
}
