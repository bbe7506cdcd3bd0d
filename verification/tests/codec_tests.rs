use dumpling::codec::{parse_paper, serialize_paper};
use dumpling::paper::{Author, Paper, Tag};

fn sample_paper() -> Paper {
    Paper {
        title: "A \"quoted\" title with a \\ backslash".to_string(),
        year: 2021,
        journal: "J. of Tests".to_string(),
        description: "two\nlines and a tab\t.".to_string(),
        bibtex: "@article{key,\n  title={X}\n}".to_string(),
        docname: "x.pdf".to_string(),
        authors: vec![
            Author { name: "Jane Smith".to_string() },
            Author { name: "John Doe".to_string() },
        ],
        tags: vec![Tag { label: "ml".to_string() }, Tag { label: "opt".to_string() }],
    }
}

/// The exact text of a small entry.
#[test]
fn serialize_exact_layout() {
    let mut p = Paper::default();
    p.title = "T".to_string();
    p.year = -5;
    p.authors.push(Author { name: "A".to_string() });
    let text: String = serialize_paper(&p).into_iter().collect();
    let expected = "title = \"T\"\nyear = -5\njournal = \"\"\ndescription = \"\"\nbibtex = \"\"\ndocname = \"\"\n\n[[authors]]\nname = \"A\"\n";
    assert_eq!(text, expected);
}

/// Control characters take the four-digit escape form.
#[test]
fn serialize_escapes_control_characters() {
    let mut p = Paper::default();
    p.title = "a\u{1}b\u{7f}".to_string();
    let text: String = serialize_paper(&p).into_iter().collect();
    assert!(text.starts_with("title = \"a\\u0001b\\u007f\"\n"));
}

/// Writing an entry and reading the text back yields a structurally
/// equal entry.
#[test]
fn round_trip_structural_equality() {
    let p = sample_paper();
    let text = serialize_paper(&p);
    let q = parse_paper(&text).expect("a just-written entry must read back");
    assert_eq!(q, p);
}

/// The round trip keeps the extreme years.
#[test]
fn round_trip_extreme_years() {
    for year in [i32::MIN, -1, 0, 1, i32::MAX] {
        let mut p = Paper::default();
        p.year = year;
        let q = parse_paper(&serialize_paper(&p)).unwrap();
        assert_eq!(q.year, year);
    }
}

/// The round trip keeps non-ASCII text.
#[test]
fn round_trip_unicode() {
    let mut p = Paper::default();
    p.title = "Über λ-Kalkül 🦀".to_string();
    p.tags.push(Tag { label: "théorie".to_string() });
    let q = parse_paper(&serialize_paper(&p)).unwrap();
    assert_eq!(q, p);
}

/// Text that is not an entry reads back as nothing.
#[test]
fn parse_rejects_foreign_text() {
    let junk: Vec<char> = "not an entry at all".chars().collect();
    assert!(parse_paper(&junk).is_none());
    let empty: Vec<char> = Vec::new();
    assert!(parse_paper(&empty).is_none());
    // A year out of the 32-bit range is rejected, not wrapped.
    let text: String = serialize_paper(&Paper::default()).into_iter().collect();
    let big: Vec<char> = text.replace("year = 0", "year = 99999999999").chars().collect();
    assert!(parse_paper(&big).is_none());
}

/// The emitted text is plain TOML: the general-purpose TOML parser
/// reads the same field values back.
#[test]
fn emitted_text_is_toml() {
    let p = sample_paper();
    let text: String = serialize_paper(&p).into_iter().collect();
    let value: toml::Value = toml::from_str(&text).expect("the entry text must be valid TOML");
    assert_eq!(value.get("title").unwrap().as_str().unwrap(), p.title);
    assert_eq!(value.get("year").unwrap().as_integer().unwrap(), p.year as i64);
    assert_eq!(value.get("description").unwrap().as_str().unwrap(), p.description);
    assert_eq!(value.get("bibtex").unwrap().as_str().unwrap(), p.bibtex);
    let authors = value.get("authors").unwrap().as_array().unwrap();
    assert_eq!(authors.len(), 2);
    assert_eq!(authors[1].get("name").unwrap().as_str().unwrap(), "John Doe");
    let tags = value.get("tags").unwrap().as_array().unwrap();
    assert_eq!(tags[0].get("label").unwrap().as_str().unwrap(), "ml");
}

/// An entry written to its derived file name reads back equal: the name
/// depends on the content alone, so the same entry always lands in the
/// same file.
#[test]
fn write_then_read_scenario() {
    let p = sample_paper();
    let text = serialize_paper(&p);
    let bytes: Vec<u8> = text.iter().collect::<String>().into_bytes();
    let name_first = dumpling::store::derived_file_name(&bytes);
    let name_again = dumpling::store::derived_file_name(&bytes);
    assert_eq!(name_first, name_again);
    assert!(name_first.ends_with(".toml"));
    let read_back = parse_paper(&text).unwrap();
    assert_eq!(read_back, p);
}
