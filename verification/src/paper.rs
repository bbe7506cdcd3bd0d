//! The entry record: one bibliography entry ("paper") with its authors
//! and tags, as parsed from or written to one file on disk.

use vstd::prelude::*;

verus! {

/// One author of an entry.
#[derive(Clone, Debug, PartialEq)]
pub struct Author {
    pub name: String,
}

/// One tag attached to an entry.
#[derive(Clone, Debug, PartialEq)]
pub struct Tag {
    pub label: String,
}

/// One bibliography entry. Every field defaults to empty/zero when a
/// source file does not supply it; identity is the backing file path,
/// not any field.
#[derive(Clone, Debug, PartialEq)]
pub struct Paper {
    pub title: String,
    pub year: i32,
    pub journal: String,
    pub description: String,
    pub bibtex: String,
    pub docname: String,
    pub authors: Vec<Author>,
    pub tags: Vec<Tag>,
}

/// Whether every field of the entry holds its default value.
pub open spec fn paper_is_default(p: Paper) -> bool {
    &&& p.title@.len() == 0
    &&& p.year == 0
    &&& p.journal@.len() == 0
    &&& p.description@.len() == 0
    &&& p.bibtex@.len() == 0
    &&& p.docname@.len() == 0
    &&& p.authors@.len() == 0
    &&& p.tags@.len() == 0
}

impl Default for Paper {
    /// The empty entry: all strings empty, year zero, no authors, no tags.
    fn default() -> (p: Paper)
        ensures
            paper_is_default(p),
    {
        Paper {
            title: String::new(),
            year: 0,
            journal: String::new(),
            description: String::new(),
            bibtex: String::new(),
            docname: String::new(),
            authors: Vec::new(),
            tags: Vec::new(),
        }
    }
}

/// Whether the entry carries a tag whose label reads exactly `tag`.
pub open spec fn has_tag(p: Paper, tag: Seq<char>) -> bool {
    exists|i: int| 0 <= i < p.tags@.len() && p.tags@[i].label@ == tag
}

impl Paper {
    /// Case-sensitive exact membership test of `tag` among the entry's tags.
    pub fn paper_has_tag(&self, tag: &String) -> (r: bool)
        ensures
            r == has_tag(*self, tag@),
    {
        let mut i: usize = 0;
        while i < self.tags.len()
            invariant
                0 <= i <= self.tags@.len(),
                forall|j: int| 0 <= j < i ==> self.tags@[j].label@ != tag@,
            decreases self.tags@.len() - i,
        {
            if self.tags[i].label.eq(tag) {
                return true;
            }
            i = i + 1;
        }
        false
    }
}

} // verus!
