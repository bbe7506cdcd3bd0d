//! The windowed entry loader: a bounded, contiguous, bidirectionally
//! scrollable window over a fixed snapshot of the on-disk entry index.
//!
//! The loader never touches the disk itself. The index is handed to it
//! as a list of paths, and every parse result flows in as a plain
//! `Option<Paper>`: the caller reads and parses the file named by
//! [`Loader::next_target`] or [`Loader::previous_target`] and passes the
//! outcome in. This keeps every window movement an exact, verified
//! computation for every possible parse outcome.

use vstd::prelude::*;
use crate::paper::Paper;
use crate::paths::{expand_filepath_with, expanded_path, join_path, joined_path};

verus! {

/// The loader's window over the entry index.
///
/// `valid_paths` is the index: the paths of all entry files found at
/// load time. `loaded_paths` holds the index positions currently in the
/// window, in increasing order; `papers` holds the parsed entry for each
/// of those positions, in the same order.
pub struct Loader {
    pub valid_paths: Vec<String>,
    pub loaded_paths: Vec<usize>,
    pub papers: Vec<Paper>,
}

/// The error a scroll operation reports when the entry it must load no
/// longer parses: the on-disk state changed underneath the running
/// session, which the window's invariants do not model.
#[derive(Clone, Copy, Debug, PartialEq, Eq, Structural)]
pub enum LoadError {
    CorruptEntry,
}

impl Loader {
    /// The window positions as mathematical integers.
    pub open spec fn positions(&self) -> Seq<int> {
        self.loaded_paths@.map_values(|p: usize| p as int)
    }

    /// Well-formedness: positions and parsed entries stay in lock-step,
    /// every position denotes an index entry, and positions increase
    /// strictly from front to back.
    pub open spec fn wf(&self) -> bool {
        &&& self.loaded_paths@.len() == self.papers@.len()
        &&& forall|i: int|
            0 <= i < self.loaded_paths@.len() ==> self.loaded_paths@[i]
                < self.valid_paths@.len()
        &&& forall|i: int, j: int|
            0 <= i < j < self.loaded_paths@.len() ==> self.loaded_paths@[i]
                < self.loaded_paths@[j]
    }
}

/// Of a row of parse results, the positions of those that succeeded, in
/// increasing order.
pub open spec fn kept_positions(parsed: Seq<Option<Paper>>) -> Seq<int>
    decreases parsed.len(),
{
    if parsed.len() == 0 {
        Seq::empty()
    } else if parsed.last() is Some {
        kept_positions(parsed.drop_last()).push(parsed.len() - 1)
    } else {
        kept_positions(parsed.drop_last())
    }
}

/// Of a row of parse results, the entries that parsed, in position order.
pub open spec fn kept_papers(parsed: Seq<Option<Paper>>) -> Seq<Paper>
    decreases parsed.len(),
{
    if parsed.len() == 0 {
        Seq::empty()
    } else if parsed.last() is Some {
        kept_papers(parsed.drop_last()).push(parsed.last()->0)
    } else {
        kept_papers(parsed.drop_last())
    }
}

/// The kept positions lie within the row, increase strictly, and pair up
/// one to one with the kept entries.
pub proof fn lemma_kept_positions_props(parsed: Seq<Option<Paper>>)
    ensures
        kept_positions(parsed).len() == kept_papers(parsed).len(),
        forall|k: int|
            0 <= k < kept_positions(parsed).len() ==> 0 <= #[trigger] kept_positions(parsed)[k]
                < parsed.len(),
        forall|k1: int, k2: int|
            0 <= k1 < k2 < kept_positions(parsed).len() ==> kept_positions(parsed)[k1]
                < kept_positions(parsed)[k2],
    decreases parsed.len(),
{
    if parsed.len() > 0 {
        lemma_kept_positions_props(parsed.drop_last());
    }
}

/// How many positions the initial load examines: `capacity + 1`, cut off
/// at the index size, and none at all for a negative capacity.
pub open spec fn load_count(load: int, n: nat) -> nat {
    if load < 0 {
        0
    } else if load + 1 <= n {
        (load + 1) as nat
    } else {
        n
    }
}

/// When every examined candidate parses, the initial window is exactly
/// the contiguous run of positions `0, 1, ..., len - 1`.
pub proof fn lemma_kept_positions_contiguous(parsed: Seq<Option<Paper>>)
    requires
        forall|i: int| 0 <= i < parsed.len() ==> parsed[i] is Some,
    ensures
        kept_positions(parsed) =~= Seq::new(parsed.len(), |i: int| i),
    decreases parsed.len(),
{
    if parsed.len() > 0 {
        lemma_kept_positions_contiguous(parsed.drop_last());
    }
}

/// From a non-empty index of size `n` and any capacity, when every
/// examined candidate parses, the initial window holds exactly
/// `min(capacity + 1, n)` contiguous positions starting at 0.
pub proof fn lemma_initial_window_full(load: int, n: nat, parsed: Seq<Option<Paper>>)
    requires
        n > 0,
        0 <= load,
        parsed.len() == load_count(load, n),
        forall|i: int| 0 <= i < parsed.len() ==> parsed[i] is Some,
    ensures
        kept_positions(parsed).len() == if load + 1 <= n {
            load + 1
        } else {
            n as int
        },
        kept_positions(parsed) =~= Seq::new(load_count(load, n), |i: int| i),
{
    lemma_kept_positions_contiguous(parsed);
}

impl Loader {
    /// Build the initial window from the index and the parse results of
    /// its first `load_count` candidates. A candidate that failed to
    /// parse is skipped: it is simply not added, and shifts no other
    /// position.
    pub fn load(load: i32, valid_paths: Vec<String>, parsed: Vec<Option<Paper>>) -> (l: Loader)
        requires
            parsed@.len() == load_count(load as int, valid_paths@.len()),
        ensures
            l.wf(),
            l.valid_paths@ == valid_paths@,
            l.positions() == kept_positions(parsed@),
            l.papers@ == kept_papers(parsed@),
    {
        let ghost all = parsed@;
        let mut parsed = parsed;
        let total: usize = parsed.len();
        let mut loaded_paths: Vec<usize> = Vec::new();
        let mut papers: Vec<Paper> = Vec::new();
        let mut i: usize = 0;
        proof {
            assert(all.take(0) =~= Seq::<Option<Paper>>::empty());
        }
        while parsed.len() > 0
            invariant
                i + parsed@.len() == all.len(),
                total == all.len(),
                all.subrange(i as int, all.len() as int) == parsed@,
                loaded_paths@.map_values(|p: usize| p as int) == kept_positions(
                    all.take(i as int),
                ),
                papers@ == kept_papers(all.take(i as int)),
                forall|k: int| 0 <= k < loaded_paths@.len() ==> loaded_paths@[k] < i,
            decreases parsed@.len(),
        {
            let head = parsed.remove(0);
            proof {
                assert(head == all[i as int]);
                assert(all.subrange(i + 1, all.len() as int) =~= parsed@);
                assert(all.take(i + 1).drop_last() =~= all.take(i as int));
                assert(all.take(i + 1).last() == all[i as int]);
            }
            match head {
                Some(p) => {
                    loaded_paths.push(i);
                    papers.push(p);
                    proof {
                        assert(loaded_paths@.map_values(|p: usize| p as int) =~= kept_positions(
                            all.take(i as int),
                        ).push(i as int));
                    }
                },
                None => {},
            }
            i = i + 1;
        }
        proof {
            assert(all.take(i as int) =~= all);
            lemma_kept_positions_props(all);
            assert forall|k: int| 0 <= k < loaded_paths@.len() implies loaded_paths@[k]
                < valid_paths@.len() by {
                assert(kept_positions(all)[k] == loaded_paths@[k] as int);
                assert(kept_positions(all)[k] < all.len());
            }
            assert forall|k1: int, k2: int|
                0 <= k1 < k2 < loaded_paths@.len() implies loaded_paths@[k1]
                < loaded_paths@[k2] by {
                assert(kept_positions(all)[k1] == loaded_paths@[k1] as int);
                assert(kept_positions(all)[k2] == loaded_paths@[k2] as int);
            }
        }
        Loader { valid_paths, loaded_paths, papers }
    }

    /// The index position a forward scroll would need parsed: the one
    /// just past the window's last position, when the index still holds
    /// it.
    pub fn next_target(&self) -> (t: Option<usize>)
        requires
            self.wf(),
        ensures
            t is Some <==> can_slide_forward(self.valid_paths@.len() as int, self.positions()),
            t is Some ==> t->0 == self.positions().last() + 1,
    {
        let n = self.valid_paths.len();
        if self.loaded_paths.len() == 0 {
            return None;
        }
        let last_load = self.loaded_paths[self.loaded_paths.len() - 1];
        proof {
            assert(self.loaded_paths@[self.loaded_paths@.len() - 1] < self.valid_paths@.len());
        }
        if last_load + 1 < n {
            Some(last_load + 1)
        } else {
            None
        }
    }

    /// The index position a backward scroll would need parsed: the one
    /// just before the window's first position, when there is one.
    pub fn previous_target(&self) -> (t: Option<usize>)
        requires
            self.wf(),
        ensures
            t is Some <==> can_slide_backward(self.positions()),
            t is Some ==> t->0 == self.positions().first() - 1,
    {
        if self.loaded_paths.len() == 0 {
            return None;
        }
        let first_load = self.loaded_paths[0];
        if first_load > 0 {
            Some(first_load - 1)
        } else {
            None
        }
    }

    /// Scroll the window one entry forward.
    ///
    /// When the index holds a position past the window, `parsed` must be
    /// the parse result of that entry: the window then slides, evicting
    /// its first pair, and the cursor stands still; a failed parse is the
    /// fatal corruption error, and nothing moves. At the end of the index
    /// the cursor instead advances, clamped to the window's last slot.
    pub fn load_next(&mut self, file_pointer: usize, parsed: Option<Paper>) -> (r: Result<
        usize,
        LoadError,
    >)
        requires
            old(self).wf(),
        ensures
            final(self).wf(),
            final(self).valid_paths@ == old(self).valid_paths@,
            r is Err <==> can_slide_forward(
                old(self).valid_paths@.len() as int,
                old(self).positions(),
            ) && parsed is None,
            r is Err ==> final(self).positions() == old(self).positions() && final(self).papers@
                == old(self).papers@,
            r is Ok ==> (final(self).positions(), r->Ok_0 as int) == forward_step(
                old(self).valid_paths@.len() as int,
                old(self).positions(),
                file_pointer as int,
            ),
            r is Ok && can_slide_forward(old(self).valid_paths@.len() as int, old(self).positions())
                ==> final(self).papers@ == old(self).papers@.drop_first().push(parsed->0),
            r is Ok && !can_slide_forward(
                old(self).valid_paths@.len() as int,
                old(self).positions(),
            ) ==> final(self).papers@ == old(self).papers@,
    {
        if self.valid_paths.len() == 0 {
            return Ok(0);
        }
        if self.loaded_paths.len() == 0 {
            return Ok(0);
        }
        let last_load = self.loaded_paths[self.loaded_paths.len() - 1];
        if last_load + 1 < self.valid_paths.len() {
            match parsed {
                None => Err(LoadError::CorruptEntry),
                Some(p) => {
                    self.loaded_paths.remove(0);
                    self.papers.remove(0);
                    self.loaded_paths.push(last_load + 1);
                    self.papers.push(p);
                    proof {
                        assert(self.positions() =~= forward_positions(old(self).positions()));
                        assert(self.papers@ =~= old(self).papers@.drop_first().push(parsed->0));
                    }
                    Ok(file_pointer)
                },
            }
        } else {
            let k = self.papers.len();
            if file_pointer >= k - 1 {
                Ok(k - 1)
            } else {
                Ok(file_pointer + 1)
            }
        }
    }

    /// Scroll the window one entry backward.
    ///
    /// When the window's first position has a predecessor, `parsed` must
    /// be that entry's parse result: the window then slides back,
    /// evicting its last pair, and the cursor stands still; a failed
    /// parse is the fatal corruption error, and nothing moves. At
    /// position 0 the cursor instead retreats, stopping at 0.
    pub fn load_previous(&mut self, file_pointer: usize, parsed: Option<Paper>) -> (r: Result<
        usize,
        LoadError,
    >)
        requires
            old(self).wf(),
        ensures
            final(self).wf(),
            final(self).valid_paths@ == old(self).valid_paths@,
            r is Err <==> old(self).valid_paths@.len() > 0 && can_slide_backward(
                old(self).positions(),
            ) && parsed is None,
            r is Err ==> final(self).positions() == old(self).positions() && final(self).papers@
                == old(self).papers@,
            r is Ok ==> (final(self).positions(), r->Ok_0 as int) == backward_step(
                old(self).valid_paths@.len() as int,
                old(self).positions(),
                file_pointer as int,
            ),
            r is Ok && old(self).valid_paths@.len() > 0 && can_slide_backward(old(self).positions())
                ==> final(self).papers@ == seq![parsed->0] + old(self).papers@.drop_last(),
            r is Ok && !(old(self).valid_paths@.len() > 0 && can_slide_backward(
                old(self).positions(),
            )) ==> final(self).papers@ == old(self).papers@,
    {
        if self.valid_paths.len() == 0 {
            return Ok(0);
        }
        if self.loaded_paths.len() == 0 {
            return Ok(0);
        }
        let first_load = self.loaded_paths[0];
        if first_load == 0 {
            if file_pointer == 0 {
                Ok(0)
            } else {
                Ok(file_pointer - 1)
            }
        } else {
            match parsed {
                None => Err(LoadError::CorruptEntry),
                Some(p) => {
                    self.loaded_paths.pop();
                    self.papers.pop();
                    self.loaded_paths.insert(0, first_load - 1);
                    self.papers.insert(0, p);
                    proof {
                        assert(self.positions() =~= backward_positions(old(self).positions()));
                        assert(self.papers@ =~= seq![parsed->0] + old(self).papers@.drop_last());
                    }
                    Ok(file_pointer)
                },
            }
        }
    }
}

impl Loader {
    /// The path of the entry the cursor stands on, when the cursor
    /// denotes a loaded slot.
    pub fn selected_file_path(&self, selected_idx: usize) -> (r: Option<String>)
        requires
            self.wf(),
        ensures
            r is Some <==> selected_idx < self.positions().len(),
            r is Some ==> r->0 == self.valid_paths@[self.positions()[selected_idx as int]],
    {
        if selected_idx < self.loaded_paths.len() {
            let fp_pointer = self.loaded_paths[selected_idx];
            proof {
                assert(self.loaded_paths@[selected_idx as int] < self.valid_paths@.len());
            }
            Some(self.valid_paths[fp_pointer].clone())
        } else {
            None
        }
    }

    /// The full path of the document stored for the entry at
    /// `selected_idx`: the document name joined onto the document
    /// directory, with the directory's home alias resolved against the
    /// given home directory.
    pub fn pdf_file_path(&self, selected_idx: usize, pdf_dir: &String, home: &Option<String>) -> (r:
        Option<String>)
        ensures
            r is Some <==> selected_idx < self.papers@.len(),
            selected_idx < self.papers@.len() && home is Some ==> r->0@ == expanded_path(
                joined_path(pdf_dir@, self.papers@[selected_idx as int].docname@),
                home->0@,
            ),
            selected_idx < self.papers@.len() && home is None ==> r->0@ == joined_path(
                pdf_dir@,
                self.papers@[selected_idx as int].docname@,
            ),
    {
        if selected_idx < self.papers.len() {
            let joined = join_path(pdf_dir.as_str(), self.papers[selected_idx].docname.as_str());
            Some(expand_filepath_with(&joined, home))
        } else {
            None
        }
    }

    /// The bibtex field of the entry at `selected_idx`, when the cursor
    /// denotes a loaded slot: the exact text a copy hands outward.
    pub fn selected_bibtex(&self, selected_idx: usize) -> (r: Option<String>)
        ensures
            r is Some <==> selected_idx < self.papers@.len(),
            r is Some ==> r->0 == self.papers@[selected_idx as int].bibtex,
    {
        if selected_idx < self.papers.len() {
            Some(self.papers[selected_idx].bibtex.clone())
        } else {
            None
        }
    }

    /// Push the bibtex field of the entry at `selected_idx` to the system
    /// clipboard: the text handed over is exactly [`Self::selected_bibtex`],
    /// and nothing is handed over without a selection. A missing selection
    /// or a clipboard failure is reported by a `false` result and nothing
    /// else; neither is fatal.
    pub fn bibtex_entry_to_clipboard(&self, selected_idx: usize) -> (copied: bool)
        ensures
            copied ==> selected_idx < self.papers@.len(),
            selected_idx >= self.papers@.len() ==> !copied,
    {
        match self.selected_bibtex(selected_idx) {
            Some(text) => clipboard_set(text),
            None => false,
        }
    }

    /// Drop the entry at `selected_idx` from the window and from the
    /// index. Every window position greater than the removed index
    /// position comes down by one, because the index itself is one
    /// shorter; then the window slot itself is removed. With no loaded
    /// slot at `selected_idx` nothing changes.
    ///
    /// The caller deletes the backing file first and calls this only when
    /// that deletion succeeded, so that a failed deletion leaves the
    /// in-memory state untouched.
    pub fn remove_file(&mut self, selected_idx: usize) -> (removed: bool)
        requires
            old(self).wf(),
        ensures
            final(self).wf(),
            removed <==> selected_idx < old(self).positions().len(),
            !removed ==> ({
                &&& final(self).valid_paths@ == old(self).valid_paths@
                &&& final(self).positions() == old(self).positions()
                &&& final(self).papers@ == old(self).papers@
            }),
            removed ==> ({
                let fp = old(self).positions()[selected_idx as int];
                &&& final(self).valid_paths@ == old(self).valid_paths@.remove(fp)
                &&& final(self).positions() == renumber(old(self).positions(), fp).remove(
                    selected_idx as int,
                )
                &&& final(self).papers@ == old(self).papers@.remove(selected_idx as int)
            }),
    {
        if selected_idx >= self.loaded_paths.len() {
            return false;
        }
        let fp_pointer = self.loaded_paths[selected_idx];
        let ghost w0 = self.positions();
        let mut i: usize = 0;
        while i < self.loaded_paths.len()
            invariant
                0 <= i <= self.loaded_paths@.len(),
                self.loaded_paths@.len() == w0.len(),
                self.valid_paths@ == old(self).valid_paths@,
                self.papers@ == old(self).papers@,
                self.papers@.len() == w0.len(),
                selected_idx < w0.len(),
                fp_pointer as int == w0[selected_idx as int],
                fp_pointer < self.valid_paths@.len(),
                forall|j: int|
                    0 <= j < i ==> self.loaded_paths@[j] as int == renumber(
                        w0,
                        fp_pointer as int,
                    )[j],
                forall|j: int| i <= j < w0.len() ==> self.loaded_paths@[j] as int == w0[j],
                forall|j: int| 0 <= j < w0.len() ==> 0 <= w0[j],
            decreases self.loaded_paths@.len() - i,
        {
            let v = self.loaded_paths[i];
            if v > fp_pointer {
                self.loaded_paths.set(i, v - 1);
            }
            i = i + 1;
        }
        proof {
            assert(self.loaded_paths@.map_values(|p: usize| p as int) =~= renumber(
                w0,
                fp_pointer as int,
            ));
            assert(old(self).loaded_paths@[selected_idx as int] < old(self).valid_paths@.len());
        }
        self.valid_paths.remove(fp_pointer);
        self.loaded_paths.remove(selected_idx);
        self.papers.remove(selected_idx);
        proof {
            let wr = renumber(w0, fp_pointer as int).remove(selected_idx as int);
            assert(self.positions() =~= wr);
            assert forall|j1: int, j2: int|
                0 <= j1 < j2 < self.loaded_paths@.len() implies self.loaded_paths@[j1]
                < self.loaded_paths@[j2] by {
                let f1 = if j1 < selected_idx {
                    j1
                } else {
                    j1 + 1
                };
                let f2 = if j2 < selected_idx {
                    j2
                } else {
                    j2 + 1
                };
                assert(wr[j1] == renumber(w0, fp_pointer as int)[f1]);
                assert(wr[j2] == renumber(w0, fp_pointer as int)[f2]);
                assert(w0[f1] < w0[f2]);
                assert(f1 != selected_idx && f2 != selected_idx);
                if w0[f1] < fp_pointer as int && w0[f2] > fp_pointer as int {
                    assert(wr[j1] < wr[j2]);
                }
            }
            assert forall|j: int|
                0 <= j < self.loaded_paths@.len() implies self.loaded_paths@[j]
                < self.valid_paths@.len() by {
                let f = if j < selected_idx {
                    j
                } else {
                    j + 1
                };
                assert(wr[j] == renumber(w0, fp_pointer as int)[f]);
                assert(w0[f] < old(self).valid_paths@.len());
                assert(f != selected_idx);
                if w0[f] < fp_pointer as int {
                    assert(w0[selected_idx as int] == fp_pointer as int);
                    assert(w0[f] < old(self).valid_paths@.len() - 1);
                }
            }
        }
        true
    }
}

/// Relies on cli_clipboard::set_contents: hands the text to the
/// platform's clipboard provider, which may fail; nothing is promised of
/// the environment.
#[verifier::external_body]
fn clipboard_set(text: String) -> (ok: bool) {
    cli_clipboard::set_contents(text).is_ok()
}

/// Window positions after the index entry at position `fp` disappeared:
/// every position greater than `fp` comes down by one.
pub open spec fn renumber(w: Seq<int>, fp: int) -> Seq<int> {
    w.map_values(
        |x: int|
            if x > fp {
                x - 1
            } else {
                x
            },
    )
}

/// Whether a forward scroll slides the window: the index holds a
/// position just past the window's last.
pub open spec fn can_slide_forward(n: int, w: Seq<int>) -> bool {
    n > 0 && w.len() > 0 && w.last() + 1 < n
}

/// Whether a backward scroll slides the window: the window's first
/// position has a predecessor.
pub open spec fn can_slide_backward(w: Seq<int>) -> bool {
    w.len() > 0 && w.first() > 0
}

/// The window positions after a forward slide: the first is evicted and
/// the successor of the last is appended.
pub open spec fn forward_positions(w: Seq<int>) -> Seq<int> {
    w.drop_first().push(w.last() + 1)
}

/// The window positions after a backward slide: the last is evicted and
/// the predecessor of the first is prepended.
pub open spec fn backward_positions(w: Seq<int>) -> Seq<int> {
    seq![w.first() - 1] + w.drop_last()
}

/// One forward scroll on window positions and cursor, over an index of
/// size `n`: slide when possible, otherwise advance the cursor, clamped
/// to the window's last slot.
pub open spec fn forward_step(n: int, w: Seq<int>, fp: int) -> (Seq<int>, int) {
    if n == 0 || w.len() == 0 {
        (w, 0)
    } else if w.last() + 1 < n {
        (forward_positions(w), fp)
    } else if fp >= w.len() - 1 {
        (w, w.len() - 1)
    } else {
        (w, fp + 1)
    }
}

/// One backward scroll on window positions and cursor: slide back when
/// the first position has a predecessor, otherwise retreat the cursor,
/// stopping at 0.
pub open spec fn backward_step(n: int, w: Seq<int>, fp: int) -> (Seq<int>, int) {
    if n == 0 || w.len() == 0 {
        (w, 0)
    } else if w.first() == 0 {
        if fp == 0 {
            (w, 0)
        } else {
            (w, fp - 1)
        }
    } else {
        (backward_positions(w), fp)
    }
}

/// `m` forward scrolls in a row.
pub open spec fn forward_steps(n: int, w: Seq<int>, fp: int, m: nat) -> (Seq<int>, int)
    decreases m,
{
    if m == 0 {
        (w, fp)
    } else {
        let s = forward_step(n, w, fp);
        forward_steps(n, s.0, s.1, (m - 1) as nat)
    }
}

/// `m` backward scrolls in a row.
pub open spec fn backward_steps(n: int, w: Seq<int>, fp: int, m: nat) -> (Seq<int>, int)
    decreases m,
{
    if m == 0 {
        (w, fp)
    } else {
        let s = backward_step(n, w, fp);
        backward_steps(n, s.0, s.1, (m - 1) as nat)
    }
}

/// The contiguous window of `k` positions starting at `lo`.
pub open spec fn win(lo: int, k: nat) -> Seq<int> {
    Seq::new(k, |i: int| lo + i)
}

/// A forward scroll at the end of the index moves only the cursor: the
/// window positions stand still, and the cursor advances by one, clamped
/// to the window's last slot.
pub proof fn lemma_forward_at_end(n: int, w: Seq<int>, fp: int)
    requires
        n > 0,
        w.len() > 0,
        w.last() + 1 >= n,
        fp >= 0,
    ensures
        forward_step(n, w, fp).0 == w,
        forward_step(n, w, fp).1 == vstd::math::min(fp + 1, w.len() - 1),
{
}

/// A backward scroll at position 0 moves only the cursor: the window
/// positions stand still, and the cursor retreats by one, never below 0.
pub proof fn lemma_backward_at_start(n: int, w: Seq<int>, fp: int)
    requires
        n > 0,
        w.len() > 0,
        w.first() == 0,
        fp >= 0,
    ensures
        backward_step(n, w, fp).0 == w,
        backward_step(n, w, fp).1 == vstd::math::max(fp - 1, 0),
        backward_step(n, w, fp).1 >= 0,
{
}

/// Closed form of `m` forward scrolls from the contiguous window of `k`
/// positions starting at `lo`: the window slides as far as the index
/// allows, then the cursor advances, clamped to the last slot.
proof fn lemma_forward_steps_closed(n: int, lo: int, k: nat, c: int, m: nat)
    requires
        k > 0,
        0 <= lo,
        lo + k <= n,
        c >= 0,
    ensures
        ({
            let slides = vstd::math::min(m as int, n - k - lo);
            let rest = m - slides;
            forward_steps(n, win(lo, k), c, m) == (
                win(lo + slides, k),
                if rest == 0 {
                    c
                } else {
                    vstd::math::min(c + rest, k - 1)
                },
            )
        }),
    decreases m,
{
    let w = win(lo, k);
    assert(w.len() == k);
    assert(w.last() == lo + k - 1);
    assert(w.first() == lo);
    if m == 0 {
    } else if lo + k < n {
        assert(forward_step(n, w, c).0 =~= win(lo + 1, k)) by {
            assert(forward_positions(w) =~= win(lo + 1, k));
        }
        lemma_forward_steps_closed(n, lo + 1, k, c, (m - 1) as nat);
    } else {
        let c1 = if c >= k - 1 {
            k - 1
        } else {
            c + 1
        };
        assert(forward_step(n, w, c) == (w, c1));
        lemma_forward_steps_closed(n, lo, k, c1, (m - 1) as nat);
    }
}

/// Closed form of `m` backward scrolls from the contiguous window of `k`
/// positions starting at `lo`: the window slides back to the start of
/// the index, then the cursor retreats, stopping at 0.
proof fn lemma_backward_steps_closed(n: int, lo: int, k: nat, c: int, m: nat)
    requires
        k > 0,
        0 <= lo,
        lo + k <= n,
        c >= 0,
    ensures
        ({
            let slides = vstd::math::min(m as int, lo);
            let rest = m - slides;
            backward_steps(n, win(lo, k), c, m) == (
                win(lo - slides, k),
                if rest == 0 {
                    c
                } else {
                    vstd::math::max(c - rest, 0)
                },
            )
        }),
    decreases m,
{
    let w = win(lo, k);
    assert(w.len() == k);
    assert(w.first() == lo);
    if m == 0 {
    } else if lo > 0 {
        assert(backward_step(n, w, c).0 =~= win(lo - 1, k)) by {
            assert(backward_positions(w) =~= win(lo - 1, k));
        }
        lemma_backward_steps_closed(n, lo - 1, k, c, (m - 1) as nat);
    } else {
        let c1 = if c == 0 {
            0
        } else {
            c - 1
        };
        assert(backward_step(n, w, c) == (w, c1));
        lemma_backward_steps_closed(n, lo, k, c1, (m - 1) as nat);
    }
}

/// Scrolling forward any number of times from the freshly initialized
/// state — the contiguous window at the start of the index, cursor 0 —
/// and then scrolling backward the same number of times returns both the
/// window positions and the cursor to that initial state.
pub proof fn lemma_scroll_round_trip(n: int, k: nat, m: nat)
    requires
        0 < k <= n,
    ensures
        ({
            let fwd = forward_steps(n, win(0, k), 0, m);
            backward_steps(n, fwd.0, fwd.1, m) == (win(0, k), 0int)
        }),
{
    lemma_forward_steps_closed(n, 0, k, 0, m);
    let fwd = forward_steps(n, win(0, k), 0, m);
    let slides = vstd::math::min(m as int, n - k);
    lemma_backward_steps_closed(n, slides, k, fwd.1, m);
}

/// Window entries agree with the index snapshot: each loaded slot holds
/// the parse of the index entry its position names.
pub open spec fn consistent(w: Seq<int>, papers: Seq<Paper>, entries: Seq<Paper>) -> bool {
    &&& papers.len() == w.len()
    &&& forall|i: int|
        0 <= i < w.len() ==> 0 <= #[trigger] w[i] < entries.len() && papers[i] == entries[w[i]]
}

/// A forward slide fed with the parse of the entry past the window keeps
/// the window consistent with the index snapshot.
pub proof fn lemma_forward_slide_consistent(
    n: int,
    w: Seq<int>,
    papers: Seq<Paper>,
    entries: Seq<Paper>,
)
    requires
        consistent(w, papers, entries),
        can_slide_forward(n, w),
        n <= entries.len(),
    ensures
        consistent(forward_positions(w), papers.drop_first().push(entries[w.last() + 1]), entries),
{
}

/// A backward slide fed with the parse of the entry before the window
/// keeps the window consistent with the index snapshot.
pub proof fn lemma_backward_slide_consistent(
    w: Seq<int>,
    papers: Seq<Paper>,
    entries: Seq<Paper>,
)
    requires
        consistent(w, papers, entries),
        can_slide_backward(w),
    ensures
        consistent(
            backward_positions(w),
            seq![entries[w.first() - 1]] + papers.drop_last(),
            entries,
        ),
{
}

/// Two consistent windows with the same positions hold the same entries:
/// once the positions have returned to their initial run, so have the
/// loaded entries.
pub proof fn lemma_consistent_window_determined(
    w: Seq<int>,
    p1: Seq<Paper>,
    p2: Seq<Paper>,
    entries: Seq<Paper>,
)
    requires
        consistent(w, p1, entries),
        consistent(w, p2, entries),
    ensures
        p1 =~= p2,
{
    assert forall|i: int| 0 <= i < p1.len() implies p1[i] == p2[i] by {
        assert(0 <= w[i] < entries.len());
    }
}

} // verus!
