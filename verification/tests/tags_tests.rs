use dumpling::paper::{Paper, Tag};
use dumpling::tags::{get_tags, list_tags, to_hash_map};

fn tagged(labels: &[&str]) -> Paper {
    let mut p = Paper::default();
    p.tags = labels.iter().map(|l| Tag { label: l.to_string() }).collect();
    p
}

#[test]
fn get_tags_collects_in_order() {
    let papers = vec![tagged(&["ml", "opt"]), tagged(&[]), tagged(&["ml"])];
    assert_eq!(get_tags(&papers), vec!["ml", "opt", "ml"]);
}

/// The tally keeps the order of first appearance and counts every
/// occurrence.
#[test]
fn tally_counts_and_order() {
    let tags: Vec<String> = ["b", "a", "b", "c", "b", "a"].iter().map(|s| s.to_string()).collect();
    let counts = to_hash_map(tags);
    assert_eq!(
        counts,
        vec![("b".to_string(), 3), ("a".to_string(), 2), ("c".to_string(), 1)]
    );
}

#[test]
fn tally_empty() {
    let counts = to_hash_map(Vec::new());
    assert!(counts.is_empty());
}

#[test]
fn list_tags_combines() {
    let papers = vec![tagged(&["x"]), tagged(&["y", "x"])];
    assert_eq!(
        list_tags(&papers),
        vec![("x".to_string(), 2), ("y".to_string(), 1)]
    );
}
