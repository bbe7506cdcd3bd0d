use dumpling::args::ProgArgs;

#[test]
fn default_args_are_default() {
    let args = ProgArgs::default();
    assert!(args.is_default());
}

#[test]
fn any_field_leaves_default() {
    let mut args = ProgArgs::default();
    args.title = "t".to_string();
    assert!(!args.is_default());
    let mut args = ProgArgs::default();
    args.flags.open = true;
    assert!(!args.is_default());
    let mut args = ProgArgs::default();
    args.year = 1999;
    assert!(!args.is_default());
}

/// No argument set converts to no entry at all.
#[test]
fn default_args_make_no_paper() {
    let args = ProgArgs::default();
    assert!(args.to_paper().is_none());
}

/// The set fields carry over; authors and tags keep their order; the
/// journal field has no argument and stays empty.
#[test]
fn to_paper_carries_fields() {
    let mut args = ProgArgs::default();
    args.title = "A Title".to_string();
    args.year = 2021;
    args.bibtex = "@article{}".to_string();
    args.docname = "a.pdf".to_string();
    args.authors = vec!["Jane Smith".to_string(), "John Doe".to_string()];
    args.tags = vec!["ml".to_string()];
    let paper = args.to_paper().unwrap();
    assert_eq!(paper.title, "A Title");
    assert_eq!(paper.year, 2021);
    assert_eq!(paper.journal, "");
    assert_eq!(paper.bibtex, "@article{}");
    assert_eq!(paper.docname, "a.pdf");
    let names: Vec<&str> = paper.authors.iter().map(|a| a.name.as_str()).collect();
    assert_eq!(names, vec!["Jane Smith", "John Doe"]);
    assert_eq!(paper.tags.len(), 1);
    assert_eq!(paper.tags[0].label, "ml");
}
