use dumpling::paper::Paper;
use dumpling::pdfs::{get_paper_pdf_paths, get_unmatched_pdf_paths, pdf_diagnostic};

fn with_doc(name: &str) -> Paper {
    let mut p = Paper::default();
    p.docname = name.to_string();
    p
}

fn strings(v: &[&str]) -> Vec<String> {
    v.iter().map(|s| s.to_string()).collect()
}

#[test]
fn paper_pdf_paths_split_by_presence() {
    let papers = vec![with_doc("a.pdf"), with_doc("b.pdf"), with_doc("c.pdf")];
    let exists = vec![true, false, true];
    let pdf = get_paper_pdf_paths(&papers, &"/d".to_string(), &exists);
    assert_eq!(pdf.valid_paths, vec!["/d/a.pdf", "/d/c.pdf"]);
    assert_eq!(pdf.invalid_paths, vec!["/d/b.pdf"]);
}

#[test]
fn unmatched_keeps_unreferenced_stored_paths() {
    let from_paper = strings(&["/d/a.pdf", "/d/c.pdf"]);
    let stored = strings(&["/d/a.pdf", "/d/b.pdf", "/d/c.pdf", "/d/z.pdf"]);
    assert_eq!(
        get_unmatched_pdf_paths(&from_paper, &stored),
        vec!["/d/b.pdf", "/d/z.pdf"]
    );
}

#[test]
fn diagnostic_combines_both_sides() {
    let papers = vec![with_doc("a.pdf"), with_doc("gone.pdf")];
    let exists = vec![true, false];
    let stored = strings(&["/d/a.pdf", "/d/orphan.pdf"]);
    let (invalid, not_used) = pdf_diagnostic(&papers, &"/d".to_string(), &exists, &stored);
    assert_eq!(invalid, vec!["/d/gone.pdf"]);
    assert_eq!(not_used, vec!["/d/orphan.pdf"]);
}
