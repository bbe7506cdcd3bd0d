//! The program's argument record: the fields a user may set on the
//! command line, and their conversion into a new entry.

use vstd::prelude::*;
use crate::paper::{Author, Paper, Tag};

verus! {

/// The boolean mode flags among the program arguments.
#[derive(Clone, Copy, Debug, PartialEq, Eq, Structural)]
pub struct ProgFlags {
    pub open: bool,
    pub list_tags: bool,
    pub pdf_diagnostic: bool,
    pub auto: bool,
}

impl Default for ProgFlags {
    /// No mode requested.
    fn default() -> (r: ProgFlags)
        ensures
            r == (ProgFlags { open: false, list_tags: false, pdf_diagnostic: false, auto: false }),
    {
        ProgFlags { open: false, list_tags: false, pdf_diagnostic: false, auto: false }
    }
}

/// Every argument the program takes, with the boolean flags summarized
/// by [`ProgFlags`]. A field not set on the command line keeps its
/// default.
#[derive(Clone, Debug)]
pub struct ProgArgs {
    pub title: String,
    pub year: i32,
    pub description: String,
    pub bibtex: String,
    pub docname: String,
    pub authors: Vec<String>,
    pub tags: Vec<String>,
    pub flags: ProgFlags,
    pub filter_by_tag: String,
}

/// Whether every argument field holds its default value.
pub open spec fn prog_args_is_default(a: ProgArgs) -> bool {
    &&& a.title@.len() == 0
    &&& a.year == 0
    &&& a.description@.len() == 0
    &&& a.bibtex@.len() == 0
    &&& a.docname@.len() == 0
    &&& a.authors@.len() == 0
    &&& a.tags@.len() == 0
    &&& a.flags == ProgFlags { open: false, list_tags: false, pdf_diagnostic: false, auto: false }
    &&& a.filter_by_tag@.len() == 0
}

impl Default for ProgArgs {
    /// No argument set: all strings empty, year zero, no authors or
    /// tags, no flags.
    fn default() -> (r: ProgArgs)
        ensures
            prog_args_is_default(r),
    {
        ProgArgs {
            title: String::new(),
            year: 0,
            description: String::new(),
            bibtex: String::new(),
            docname: String::new(),
            authors: Vec::new(),
            tags: Vec::new(),
            flags: ProgFlags::default(),
            filter_by_tag: String::new(),
        }
    }
}

impl ProgArgs {
    /// Whether the user set any field at all.
    pub fn is_default(&self) -> (r: bool)
        ensures
            r == prog_args_is_default(*self),
    {
        self.title.as_str().is_empty() && self.year == 0 && self.description.as_str().is_empty()
            && self.bibtex.as_str().is_empty() && self.docname.as_str().is_empty()
            && self.authors.len() == 0 && self.tags.len() == 0 && self.flags
            == ProgFlags::default() && self.filter_by_tag.as_str().is_empty()
    }

    /// The new entry the set fields describe, or nothing when no field
    /// was set. The entry's journal field has no argument and stays
    /// empty; each author name and tag label carries over in order.
    pub fn to_paper(&self) -> (r: Option<Paper>)
        ensures
            r is Some <==> !prog_args_is_default(*self),
            r is Some ==> ({
                let p = r->0;
                &&& p.title == self.title
                &&& p.year == self.year
                &&& p.journal@.len() == 0
                &&& p.description == self.description
                &&& p.bibtex == self.bibtex
                &&& p.docname == self.docname
                &&& p.authors@.len() == self.authors@.len()
                &&& forall|i: int|
                    0 <= i < self.authors@.len() ==> #[trigger] p.authors@[i].name
                        == self.authors@[i]
                &&& p.tags@.len() == self.tags@.len()
                &&& forall|i: int|
                    0 <= i < self.tags@.len() ==> #[trigger] p.tags@[i].label == self.tags@[i]
            }),
    {
        if self.is_default() {
            return None;
        }
        let mut author_vec: Vec<Author> = Vec::new();
        let mut i: usize = 0;
        while i < self.authors.len()
            invariant
                0 <= i <= self.authors@.len(),
                author_vec@.len() == i,
                forall|j: int|
                    0 <= j < i ==> #[trigger] author_vec@[j].name == self.authors@[j],
            decreases self.authors@.len() - i,
        {
            author_vec.push(Author { name: self.authors[i].clone() });
            i = i + 1;
        }
        let mut tag_vec: Vec<Tag> = Vec::new();
        let mut j: usize = 0;
        while j < self.tags.len()
            invariant
                0 <= j <= self.tags@.len(),
                tag_vec@.len() == j,
                forall|k: int| 0 <= k < j ==> #[trigger] tag_vec@[k].label == self.tags@[k],
            decreases self.tags@.len() - j,
        {
            tag_vec.push(Tag { label: self.tags[j].clone() });
            j = j + 1;
        }
        Some(
            Paper {
                title: self.title.clone(),
                year: self.year,
                journal: String::new(),
                description: self.description.clone(),
                bibtex: self.bibtex.clone(),
                docname: self.docname.clone(),
                authors: author_vec,
                tags: tag_vec,
            },
        )
    }
}

} // verus!
