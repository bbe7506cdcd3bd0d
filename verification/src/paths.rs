//! Path-level logic: recognizing entry and document files by name,
//! filtering the index by tag, joining a directory with a file name, and
//! expanding the home-directory aliases `~` and `$HOME`.

use vstd::prelude::*;
use crate::paper::{Paper, has_tag};

verus! {

/// Whether `s` ends with `suffix`.
pub open spec fn ends_with(s: Seq<char>, suffix: Seq<char>) -> bool {
    s.len() >= suffix.len() && s.subrange(s.len() - suffix.len(), s.len() as int) == suffix
}

/// Whether `s` begins with `prefix`.
pub open spec fn starts_with(s: Seq<char>, prefix: Seq<char>) -> bool {
    s.len() >= prefix.len() && s.subrange(0, prefix.len() as int) == prefix
}

/// Whether the first path component of `s` is exactly `prefix`: the path
/// is `prefix` itself or continues with a separator.
pub open spec fn has_component_prefix(s: Seq<char>, prefix: Seq<char>) -> bool {
    s == prefix || starts_with(s, prefix.push('/'))
}

/// Whether a file name follows the entry-file convention: it ends in
/// `.toml`.
pub open spec fn is_entry_file_name(s: Seq<char>) -> bool {
    ends_with(s, ".toml"@)
}

/// Whether a path names a stored document: it ends in `.pdf` and the
/// file name has a stem before the extension.
pub open spec fn is_pdf_file_name(s: Seq<char>) -> bool {
    ends_with(s, ".pdf"@) && s.len() >= 5 && s[s.len() - 5] != '/'
}

/// Whether `s` ends with `suffix`, by characters.
fn string_ends_with(s: &str, suffix: &str) -> (r: bool)
    ensures
        r == ends_with(s@, suffix@),
{
    let n = s.unicode_len();
    let m = suffix.unicode_len();
    if n < m {
        return false;
    }
    let mut i: usize = 0;
    while i < m
        invariant
            0 <= i <= m == suffix@.len(),
            m <= n == s@.len(),
            forall|j: int| 0 <= j < i ==> s@[n - m + j] == suffix@[j],
        decreases m - i,
    {
        if s.get_char(n - m + i) != suffix.get_char(i) {
            proof {
                assert(s@.subrange(n - m, n as int)[i as int] == s@[n - m + i]);
            }
            return false;
        }
        i = i + 1;
    }
    proof {
        assert(s@.subrange(n - m, n as int) =~= suffix@);
    }
    true
}

/// Whether `s` begins with `prefix`, by characters.
fn string_starts_with(s: &str, prefix: &str) -> (r: bool)
    ensures
        r == starts_with(s@, prefix@),
{
    let n = s.unicode_len();
    let m = prefix.unicode_len();
    if n < m {
        return false;
    }
    let mut i: usize = 0;
    while i < m
        invariant
            0 <= i <= m == prefix@.len(),
            m <= n == s@.len(),
            forall|j: int| 0 <= j < i ==> s@[j] == prefix@[j],
        decreases m - i,
    {
        if s.get_char(i) != prefix.get_char(i) {
            proof {
                assert(s@.subrange(0, m as int)[i as int] == s@[i as int]);
            }
            return false;
        }
        i = i + 1;
    }
    proof {
        assert(s@.subrange(0, m as int) =~= prefix@);
    }
    true
}

/// Whether the first path component of `s` is exactly `prefix`.
fn component_prefix(s: &str, prefix: &str) -> (r: bool)
    ensures
        r == has_component_prefix(s@, prefix@),
{
    let n = s.unicode_len();
    let m = prefix.unicode_len();
    if !string_starts_with(s, prefix) {
        proof {
            if s@ == prefix@ {
                assert(s@.subrange(0, m as int) =~= prefix@);
            }
            if starts_with(s@, prefix@.push('/')) {
                assert forall|j: int| 0 <= j < m implies s@.subrange(0, m as int)[j]
                    == prefix@[j] by {
                    assert(s@[j] == prefix@.push('/')[j]);
                }
                assert(s@.subrange(0, m as int) =~= prefix@);
            }
        }
        return false;
    }
    if n == m {
        proof {
            assert(s@ =~= prefix@);
        }
        return true;
    }
    let r = s.get_char(m) == '/';
    proof {
        if r {
            assert(s@.subrange(0, m + 1) =~= prefix@.push('/'));
        } else {
            assert(s@ != prefix@);
            if starts_with(s@, prefix@.push('/')) {
                assert(s@[m as int] == prefix@.push('/')[m as int]);
            }
        }
    }
    r
}

/// Whether a file name follows the entry-file convention.
pub fn has_entry_extension(name: &String) -> (r: bool)
    ensures
        r == is_entry_file_name(name@),
{
    string_ends_with(name.as_str(), ".toml")
}

/// Whether a path names a stored document.
pub fn has_pdf_extension(path: &String) -> (r: bool)
    ensures
        r == is_pdf_file_name(path@),
{
    let s = path.as_str();
    if !string_ends_with(s, ".pdf") {
        return false;
    }
    let n = s.unicode_len();
    proof {
        reveal_strlit(".pdf");
    }
    if n < 5 {
        return false;
    }
    s.get_char(n - 5) != '/'
}

/// The file names that follow the entry-file convention, kept in order.
pub fn select_entry_paths(paths: &Vec<String>) -> (r: Vec<String>)
    ensures
        r@ == paths@.filter(|p: String| is_entry_file_name(p@)),
{
    let mut r: Vec<String> = Vec::new();
    let mut i: usize = 0;
    proof {
        assert(paths@.take(0) =~= Seq::<String>::empty());
        reveal_with_fuel(Seq::<String>::filter, 2);
    }
    while i < paths.len()
        invariant
            0 <= i <= paths@.len(),
            r@ == paths@.take(i as int).filter(|p: String| is_entry_file_name(p@)),
        decreases paths@.len() - i,
    {
        proof {
            reveal_with_fuel(Seq::<String>::filter, 2);
            assert(paths@.take(i + 1).drop_last() =~= paths@.take(i as int));
            assert(paths@.take(i + 1).last() == paths@[i as int]);
        }
        if has_entry_extension(&paths[i]) {
            r.push(paths[i].clone());
        }
        i = i + 1;
    }
    proof {
        assert(paths@.take(paths@.len() as int) =~= paths@);
    }
    r
}

/// The paths that name stored documents, kept in order.
pub fn select_pdf_paths(paths: &Vec<String>) -> (r: Vec<String>)
    ensures
        r@ == paths@.filter(|p: String| is_pdf_file_name(p@)),
{
    let mut r: Vec<String> = Vec::new();
    let mut i: usize = 0;
    proof {
        assert(paths@.take(0) =~= Seq::<String>::empty());
        reveal_with_fuel(Seq::<String>::filter, 2);
    }
    while i < paths.len()
        invariant
            0 <= i <= paths@.len(),
            r@ == paths@.take(i as int).filter(|p: String| is_pdf_file_name(p@)),
        decreases paths@.len() - i,
    {
        proof {
            reveal_with_fuel(Seq::<String>::filter, 2);
            assert(paths@.take(i + 1).drop_last() =~= paths@.take(i as int));
            assert(paths@.take(i + 1).last() == paths@[i as int]);
        }
        if has_pdf_extension(&paths[i]) {
            r.push(paths[i].clone());
        }
        i = i + 1;
    }
    proof {
        assert(paths@.take(paths@.len() as int) =~= paths@);
    }
    r
}

/// Of candidate entry files and their parse results, the paths whose
/// entry carries the wanted tag. A candidate that failed to parse is
/// silently excluded.
pub open spec fn tag_selected(
    paths: Seq<String>,
    parsed: Seq<Option<Paper>>,
    tag: Seq<char>,
) -> Seq<String>
    decreases paths.len(),
{
    if paths.len() == 0 {
        Seq::empty()
    } else {
        let rest = tag_selected(paths.drop_last(), parsed.drop_last(), tag);
        if parsed.last() is Some && has_tag(parsed.last()->0, tag) {
            rest.push(paths.last())
        } else {
            rest
        }
    }
}

/// Filter candidate entry paths by tag: a path is kept exactly when its
/// file parsed and the entry's tag list contains `tag`, by exact,
/// case-sensitive comparison.
pub fn select_tagged_paths(paths: &Vec<String>, parsed: &Vec<Option<Paper>>, tag: &String) -> (r:
    Vec<String>)
    requires
        paths@.len() == parsed@.len(),
    ensures
        r@ == tag_selected(paths@, parsed@, tag@),
{
    let mut r: Vec<String> = Vec::new();
    let mut i: usize = 0;
    proof {
        assert(paths@.take(0) =~= Seq::<String>::empty());
    }
    while i < paths.len()
        invariant
            0 <= i <= paths@.len() == parsed@.len(),
            r@ == tag_selected(paths@.take(i as int), parsed@.take(i as int), tag@),
        decreases paths@.len() - i,
    {
        proof {
            assert(paths@.take(i + 1).drop_last() =~= paths@.take(i as int));
            assert(parsed@.take(i + 1).drop_last() =~= parsed@.take(i as int));
            assert(paths@.take(i + 1).last() == paths@[i as int]);
            assert(parsed@.take(i + 1).last() == parsed@[i as int]);
        }
        match &parsed[i] {
            Some(p) => {
                if p.paper_has_tag(tag) {
                    r.push(paths[i].clone());
                }
            },
            None => {},
        }
        i = i + 1;
    }
    proof {
        assert(paths@.take(paths@.len() as int) =~= paths@);
        assert(parsed@.take(parsed@.len() as int) =~= parsed@);
    }
    r
}

/// Leading path separators removed.
pub open spec fn strip_leading_separators(s: Seq<char>) -> Seq<char>
    decreases s.len(),
{
    if s.len() > 0 && s.first() == '/' {
        strip_leading_separators(s.drop_first())
    } else {
        s
    }
}

/// A directory joined with a relative name: a single separator stands
/// between them, and an empty directory leaves the name alone.
pub open spec fn joined_path(dir: Seq<char>, rel: Seq<char>) -> Seq<char> {
    if dir.len() == 0 {
        rel
    } else if dir.last() == '/' {
        dir + rel
    } else {
        dir + seq!['/'] + rel
    }
}

/// A path with its home-directory alias resolved: a leading `~` or
/// `$HOME` component is replaced by the home directory, and a path
/// without such a component stands unchanged.
pub open spec fn expanded_path(path: Seq<char>, home: Seq<char>) -> Seq<char> {
    if has_component_prefix(path, "~"@) {
        joined_path(home, strip_leading_separators(path.skip(1)))
    } else if has_component_prefix(path, "$HOME"@) {
        joined_path(home, strip_leading_separators(path.skip(5)))
    } else {
        path
    }
}

/// Join a directory and a relative name with exactly one separator.
pub fn join_path(dir: &str, rel: &str) -> (r: String)
    ensures
        r@ == joined_path(dir@, rel@),
{
    let n = dir.unicode_len();
    if n == 0 {
        return rel.to_owned();
    }
    let mut out = dir.to_owned();
    if dir.get_char(n - 1) != '/' {
        out.append("/");
        proof {
            reveal_strlit("/");
            assert("/"@ =~= seq!['/']);
        }
    }
    out.append(rel);
    out
}

/// The index just past the leading separators of `s`, from `from` on.
fn skip_separators(s: &str, from: usize) -> (r: usize)
    requires
        from <= s@.len(),
    ensures
        from <= r <= s@.len(),
        strip_leading_separators(s@.skip(from as int)) == s@.skip(r as int),
{
    let n = s.unicode_len();
    let mut i = from;
    while i < n && s.get_char(i) == '/'
        invariant
            from <= i <= n == s@.len(),
            strip_leading_separators(s@.skip(from as int)) == strip_leading_separators(
                s@.skip(i as int),
            ),
        decreases n - i,
    {
        proof {
            assert(s@.skip(i as int).drop_first() =~= s@.skip(i + 1));
        }
        i = i + 1;
    }
    proof {
        if i < n {
            assert(s@.skip(i as int).first() == s@[i as int]);
        } else {
            assert(s@.skip(i as int).len() == 0);
        }
    }
    i
}

/// Resolve the home-directory alias at the front of `path` against a
/// known home directory; with none known, the path stands unchanged.
pub fn expand_filepath_with(path: &String, home: &Option<String>) -> (r: String)
    ensures
        home matches Some(h) ==> r@ == expanded_path(path@, h@),
        home is None ==> r@ == path@,
{
    let s = path.as_str();
    let n = s.unicode_len();
    if component_prefix(s, "~") {
        proof {
            reveal_strlit("~");
        }
        match home {
            None => path.clone(),
            Some(h) => {
                let start = skip_separators(s, 1);
                let rest = s.substring_char(start, n);
                join_path(h.as_str(), rest)
            },
        }
    } else if component_prefix(s, "$HOME") {
        proof {
            reveal_strlit("$HOME");
        }
        match home {
            None => path.clone(),
            Some(h) => {
                let start = skip_separators(s, 5);
                let rest = s.substring_char(start, n);
                join_path(h.as_str(), rest)
            },
        }
    } else {
        path.clone()
    }
}

/// Relies on dirs::home_dir: yields the running user's home directory,
/// when the platform reports one that is valid Unicode; nothing is
/// promised of the environment.
#[verifier::external_body]
fn home_directory() -> (r: Option<String>) {
    dirs::home_dir().and_then(|p| p.to_str().map(|s| s.to_string()))
}

/// Resolve the home-directory alias at the front of `path` against the
/// running user's home directory. A path without an alias, or a machine
/// without a known home directory, leaves the path unchanged.
pub fn expand_filepath(path: &String) -> (r: String)
    ensures
        !has_component_prefix(path@, "~"@) && !has_component_prefix(path@, "$HOME"@) ==> r@
            == path@,
        r@ == path@ || exists|h: Seq<char>| r@ == expanded_path(path@, h),
{
    let home = home_directory();
    let r = expand_filepath_with(path, &home);
    proof {
        if home is Some {
            assert(r@ == expanded_path(path@, home->0@));
        }
    }
    r
}

} // verus!
