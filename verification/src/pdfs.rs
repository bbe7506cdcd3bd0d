//! Document diagnostics: which entries point at documents that are
//! missing on disk, and which stored documents no entry points at.

use vstd::prelude::*;
use crate::paper::Paper;
use crate::paths::{join_path, joined_path};

verus! {

/// The two sides of a document check: the referenced document paths
/// that exist on disk, and those that do not.
#[derive(Clone, Debug)]
pub struct Pdf {
    pub valid_paths: Vec<String>,
    pub invalid_paths: Vec<String>,
}

/// Of the entries' document paths, those whose presence flag equals
/// `want`, in entry order. Each document path is the entry's document
/// name joined onto the document directory.
pub open spec fn doc_paths_where(
    papers: Seq<Paper>,
    pdf_dir: Seq<char>,
    present: Seq<bool>,
    want: bool,
) -> Seq<Seq<char>>
    decreases papers.len(),
{
    if papers.len() == 0 {
        Seq::empty()
    } else {
        let rest = doc_paths_where(papers.drop_last(), pdf_dir, present.drop_last(), want);
        if present.last() == want {
            rest.push(joined_path(pdf_dir, papers.last().docname@))
        } else {
            rest
        }
    }
}

/// Of the stored document paths, those that no entry references, in
/// stored order, repetitions kept.
pub open spec fn unmatched_paths(from_paper: Seq<Seq<char>>, stored: Seq<String>) -> Seq<String>
    decreases stored.len(),
{
    if stored.len() == 0 {
        Seq::empty()
    } else {
        let rest = unmatched_paths(from_paper, stored.drop_last());
        if !from_paper.contains(stored.last()@) {
            rest.push(stored.last())
        } else {
            rest
        }
    }
}

/// Sort each entry's document path by whether the document is present
/// on disk: `exists` carries, entry by entry, the caller's answer to
/// that question.
pub fn get_paper_pdf_paths(papers: &Vec<Paper>, pdf_dir: &String, exists: &Vec<bool>) -> (r: Pdf)
    requires
        exists@.len() == papers@.len(),
    ensures
        r.valid_paths@.map_values(|s: String| s@) == doc_paths_where(
            papers@,
            pdf_dir@,
            exists@,
            true,
        ),
        r.invalid_paths@.map_values(|s: String| s@) == doc_paths_where(
            papers@,
            pdf_dir@,
            exists@,
            false,
        ),
{
    let mut valid_paths: Vec<String> = Vec::new();
    let mut invalid_paths: Vec<String> = Vec::new();
    let mut i: usize = 0;
    proof {
        assert(papers@.take(0) =~= Seq::<Paper>::empty());
        assert(exists@.take(0) =~= Seq::<bool>::empty());
        assert(valid_paths@.map_values(|s: String| s@) =~= doc_paths_where(
            papers@.take(0),
            pdf_dir@,
            exists@.take(0),
            true,
        ));
        assert(invalid_paths@.map_values(|s: String| s@) =~= doc_paths_where(
            papers@.take(0),
            pdf_dir@,
            exists@.take(0),
            false,
        ));
    }
    while i < papers.len()
        invariant
            0 <= i <= papers@.len() == exists@.len(),
            valid_paths@.map_values(|s: String| s@) == doc_paths_where(
                papers@.take(i as int),
                pdf_dir@,
                exists@.take(i as int),
                true,
            ),
            invalid_paths@.map_values(|s: String| s@) == doc_paths_where(
                papers@.take(i as int),
                pdf_dir@,
                exists@.take(i as int),
                false,
            ),
        decreases papers@.len() - i,
    {
        let file_path = join_path(pdf_dir.as_str(), papers[i].docname.as_str());
        proof {
            assert(papers@.take(i + 1).drop_last() =~= papers@.take(i as int));
            assert(exists@.take(i + 1).drop_last() =~= exists@.take(i as int));
            assert(papers@.take(i + 1).last() == papers@[i as int]);
            assert(exists@.take(i + 1).last() == exists@[i as int]);
        }
        let ghost pre_v = valid_paths@;
        let ghost pre_i = invalid_paths@;
        if exists[i] {
            valid_paths.push(file_path);
            proof {
                assert(valid_paths@.map_values(|s: String| s@) =~= pre_v.map_values(
                    |s: String| s@,
                ).push(joined_path(pdf_dir@, papers@[i as int].docname@)));
            }
        } else {
            invalid_paths.push(file_path);
            proof {
                assert(invalid_paths@.map_values(|s: String| s@) =~= pre_i.map_values(
                    |s: String| s@,
                ).push(joined_path(pdf_dir@, papers@[i as int].docname@)));
            }
        }
        i = i + 1;
    }
    proof {
        assert(papers@.take(papers@.len() as int) =~= papers@);
        assert(exists@.take(exists@.len() as int) =~= exists@);
    }
    Pdf { valid_paths, invalid_paths }
}

/// Whether any of the paths reads the same as `x`.
fn contains_string(v: &Vec<String>, x: &String) -> (r: bool)
    ensures
        r == v@.map_values(|s: String| s@).contains(x@),
{
    let mut i: usize = 0;
    while i < v.len()
        invariant
            0 <= i <= v@.len(),
            forall|j: int| 0 <= j < i ==> (#[trigger] v@[j])@ != x@,
        decreases v@.len() - i,
    {
        if v[i].eq(x) {
            proof {
                assert(v@.map_values(|s: String| s@)[i as int] == x@);
            }
            return true;
        }
        i = i + 1;
    }
    proof {
        let m = v@.map_values(|s: String| s@);
        if m.contains(x@) {
            let j = m.index_of(x@);
            assert(m[j] == v@[j]@);
        }
    }
    false
}

/// The stored document paths that no entry references: entry-referenced
/// paths are looked up by exact textual comparison.
pub fn get_unmatched_pdf_paths(paths_from_paper: &Vec<String>, stored_paths: &Vec<String>) -> (r:
    Vec<String>)
    ensures
        r@ == unmatched_paths(paths_from_paper@.map_values(|s: String| s@), stored_paths@),
{
    let ghost from = paths_from_paper@.map_values(|s: String| s@);
    let mut r: Vec<String> = Vec::new();
    let mut i: usize = 0;
    proof {
        assert(stored_paths@.take(0) =~= Seq::<String>::empty());
        assert(r@ =~= unmatched_paths(from, stored_paths@.take(0)));
    }
    while i < stored_paths.len()
        invariant
            0 <= i <= stored_paths@.len(),
            from == paths_from_paper@.map_values(|s: String| s@),
            r@ == unmatched_paths(from, stored_paths@.take(i as int)),
        decreases stored_paths@.len() - i,
    {
        proof {
            assert(stored_paths@.take(i + 1).drop_last() =~= stored_paths@.take(i as int));
            assert(stored_paths@.take(i + 1).last() == stored_paths@[i as int]);
        }
        if !contains_string(paths_from_paper, &stored_paths[i]) {
            r.push(stored_paths[i].clone());
        }
        i = i + 1;
    }
    proof {
        assert(stored_paths@.take(stored_paths@.len() as int) =~= stored_paths@);
    }
    r
}

/// The document diagnostic: of the entries' referenced documents those
/// missing on disk, and of the stored documents those no entry
/// references.
pub fn pdf_diagnostic(
    papers: &Vec<Paper>,
    pdf_dir: &String,
    exists: &Vec<bool>,
    stored_paths: &Vec<String>,
) -> (r: (Vec<String>, Vec<String>))
    requires
        exists@.len() == papers@.len(),
    ensures
        r.0@.map_values(|s: String| s@) == doc_paths_where(papers@, pdf_dir@, exists@, false),
        r.1@ == unmatched_paths(
            doc_paths_where(papers@, pdf_dir@, exists@, true),
            stored_paths@,
        ),
{
    let pdf = get_paper_pdf_paths(papers, pdf_dir, exists);
    let not_used = get_unmatched_pdf_paths(&pdf.valid_paths, stored_paths);
    (pdf.invalid_paths, not_used)
}

} // verus!
