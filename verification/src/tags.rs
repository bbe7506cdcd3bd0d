//! Tag listing: collect every tag used across a set of entries and
//! count how many times each appears.

use vstd::prelude::*;
use crate::paper::Paper;

verus! {

/// The tag labels of one entry, in order.
pub open spec fn paper_labels(p: Paper) -> Seq<Seq<char>> {
    p.tags@.map_values(|t: crate::paper::Tag| t.label@)
}

/// The tag labels of a row of entries, entry by entry, in order.
pub open spec fn tag_labels(papers: Seq<Paper>) -> Seq<Seq<char>>
    decreases papers.len(),
{
    if papers.len() == 0 {
        Seq::empty()
    } else {
        tag_labels(papers.drop_last()) + paper_labels(papers.last())
    }
}

/// A tally with one more sighting of `t`: the first row holding `t` is
/// bumped by one, and a tag never seen before joins at the back with a
/// count of one.
pub open spec fn bump_tag(acc: Seq<(Seq<char>, nat)>, t: Seq<char>) -> Seq<(Seq<char>, nat)>
    decreases acc.len(),
{
    if acc.len() == 0 {
        seq![(t, 1nat)]
    } else if acc.first().0 == t {
        seq![(t, (acc.first().1 + 1) as nat)] + acc.drop_first()
    } else {
        seq![acc.first()] + bump_tag(acc.drop_first(), t)
    }
}

/// The tally of a row of tags: each distinct tag once, in order of first
/// appearance, with the number of times it appears.
pub open spec fn tag_counts(tags: Seq<Seq<char>>) -> Seq<(Seq<char>, nat)>
    decreases tags.len(),
{
    if tags.len() == 0 {
        Seq::empty()
    } else {
        bump_tag(tag_counts(tags.drop_last()), tags.last())
    }
}

/// The tally as the mathematical value of an executable tally row.
pub open spec fn counts_view(v: Seq<(String, usize)>) -> Seq<(Seq<char>, nat)> {
    v.map_values(|p: (String, usize)| (p.0@, p.1 as nat))
}

/// Collect every tag label of the given entries, entry by entry, in
/// order, repetitions kept.
pub fn get_tags(papers: &Vec<Paper>) -> (r: Vec<String>)
    ensures
        r@.map_values(|s: String| s@) == tag_labels(papers@),
{
    let mut r: Vec<String> = Vec::new();
    let mut i: usize = 0;
    proof {
        assert(papers@.take(0) =~= Seq::<Paper>::empty());
        assert(r@.map_values(|s: String| s@) =~= tag_labels(papers@.take(0)));
    }
    while i < papers.len()
        invariant
            0 <= i <= papers@.len(),
            r@.map_values(|s: String| s@) == tag_labels(papers@.take(i as int)),
        decreases papers@.len() - i,
    {
        let paper = &papers[i];
        let mut j: usize = 0;
        while j < paper.tags.len()
            invariant
                0 <= i < papers@.len(),
                0 <= j <= paper.tags@.len(),
                *paper == papers@[i as int],
                r@.map_values(|s: String| s@) == tag_labels(papers@.take(i as int))
                    + paper_labels(papers@[i as int]).take(j as int),
            decreases paper.tags@.len() - j,
        {
            let ghost pre = r@;
            r.push(paper.tags[j].label.clone());
            proof {
                let labels = paper_labels(papers@[i as int]);
                assert(labels[j as int] == papers@[i as int].tags@[j as int].label@);
                assert(r@.map_values(|s: String| s@) =~= pre.map_values(|s: String| s@).push(
                    labels[j as int],
                ));
                assert(tag_labels(papers@.take(i as int)) + labels.take(j + 1) =~= (tag_labels(
                    papers@.take(i as int),
                ) + labels.take(j as int)).push(labels[j as int]));
            }
            j = j + 1;
        }
        proof {
            assert(papers@.take(i + 1).drop_last() =~= papers@.take(i as int));
            assert(papers@.take(i + 1).last() == papers@[i as int]);
            assert(paper_labels(papers@[i as int]).take(j as int) =~= paper_labels(
                papers@[i as int],
            ));
        }
        i = i + 1;
    }
    proof {
        assert(papers@.take(papers@.len() as int) =~= papers@);
    }
    r
}

/// Bumping a row whose first match for `t` stands at `j` updates that
/// row in place and moves nothing else.
proof fn lemma_bump_found(acc: Seq<(Seq<char>, nat)>, t: Seq<char>, j: int)
    requires
        0 <= j < acc.len(),
        acc[j].0 == t,
        forall|k: int| 0 <= k < j ==> (#[trigger] acc[k]).0 != t,
    ensures
        bump_tag(acc, t) =~= acc.update(j, (t, (acc[j].1 + 1) as nat)),
    decreases j,
{
    if j == 0 {
    } else {
        lemma_bump_found(acc.drop_first(), t, j - 1);
        assert(acc.drop_first().update(j - 1, (t, (acc[j].1 + 1) as nat)) =~= acc.update(
            j,
            (t, (acc[j].1 + 1) as nat),
        ).drop_first());
    }
}

/// Bumping a row that holds no match for `t` appends a fresh count of
/// one.
proof fn lemma_bump_not_found(acc: Seq<(Seq<char>, nat)>, t: Seq<char>)
    requires
        forall|k: int| 0 <= k < acc.len() ==> (#[trigger] acc[k]).0 != t,
    ensures
        bump_tag(acc, t) =~= acc.push((t, 1nat)),
    decreases acc.len(),
{
    if acc.len() > 0 {
        lemma_bump_not_found(acc.drop_first(), t);
        assert(acc.drop_first().push((t, 1nat)) =~= acc.push((t, 1nat)).drop_first());
    }
}

/// Tally a row of tags: each distinct tag appears once, in order of
/// first appearance, with the number of times it occurs in the input.
pub fn to_hash_map(tags: Vec<String>) -> (r: Vec<(String, usize)>)
    ensures
        counts_view(r@) == tag_counts(tags@.map_values(|s: String| s@)),
{
    let ghost tags_v = tags@.map_values(|s: String| s@);
    let mut map: Vec<(String, usize)> = Vec::new();
    let mut i: usize = 0;
    proof {
        assert(tags_v.take(0) =~= Seq::<Seq<char>>::empty());
        assert(counts_view(map@) =~= tag_counts(tags_v.take(0)));
    }
    while i < tags.len()
        invariant
            0 <= i <= tags@.len(),
            tags_v == tags@.map_values(|s: String| s@),
            counts_view(map@) == tag_counts(tags_v.take(i as int)),
            forall|k: int| 0 <= k < map@.len() ==> (#[trigger] map@[k]).1 <= i,
        decreases tags@.len() - i,
    {
        let t = &tags[i];
        let mut j: usize = 0;
        let mut found = false;
        while j < map.len() && !found
            invariant
                0 <= j <= map@.len(),
                !found ==> forall|k: int| 0 <= k < j ==> (#[trigger] map@[k]).0@ != t@,
                found ==> j < map@.len() && map@[j as int].0@ == t@ && forall|k: int|
                    0 <= k < j ==> (#[trigger] map@[k]).0@ != t@,
            decreases map@.len() - j + (if found {
                0int
            } else {
                1int
            }),
        {
            if map[j].0.eq(t) {
                found = true;
            } else {
                j = j + 1;
            }
        }
        proof {
            assert(tags_v.take(i + 1).drop_last() =~= tags_v.take(i as int));
            assert(tags_v.take(i + 1).last() == tags_v[i as int]);
            assert(tags_v[i as int] == t@);
        }
        if found {
            let ghost pre = map@;
            let count = map[j].1;
            let key = map[j].0.clone();
            map.set(j, (key, count + 1));
            proof {
                lemma_bump_found(counts_view(pre), t@, j as int);
                assert(counts_view(map@) =~= counts_view(pre).update(
                    j as int,
                    (t@, (count + 1) as nat),
                ));
            }
        } else {
            map.push((t.clone(), 1));
            proof {
                lemma_bump_not_found(tag_counts(tags_v.take(i as int)), t@);
                assert(counts_view(map@) =~= tag_counts(tags_v.take(i as int)).push((t@, 1nat)));
            }
        }
        i = i + 1;
    }
    proof {
        assert(tags_v.take(tags_v.len() as int) =~= tags_v);
    }
    map
}

/// How many times `t` occurs in a row of tags.
pub open spec fn count_of(tags: Seq<Seq<char>>, t: Seq<char>) -> nat
    decreases tags.len(),
{
    if tags.len() == 0 {
        0
    } else if tags.last() == t {
        count_of(tags.drop_last(), t) + 1
    } else {
        count_of(tags.drop_last(), t)
    }
}

/// Whether a tally row holds `t` among its keys.
pub open spec fn tally_has_key(acc: Seq<(Seq<char>, nat)>, t: Seq<char>) -> bool {
    exists|j: int| 0 <= j < acc.len() && (#[trigger] acc[j]).0 == t
}

/// Bumping changes one count and nothing else: the keys stay put, with
/// a fresh key joining at the back when `t` was not among them.
proof fn lemma_bump_shape(acc: Seq<(Seq<char>, nat)>, t: Seq<char>)
    ensures
        forall|u: Seq<char>|
            #[trigger] tally_has_key(bump_tag(acc, t), u) <==> tally_has_key(acc, u) || u == t,
        forall|j: int|
            0 <= j < acc.len() ==> (#[trigger] bump_tag(acc, t)[j]).0 == acc[j].0,
        bump_tag(acc, t).len() == if tally_has_key(acc, t) {
            acc.len() as int
        } else {
            acc.len() + 1int
        },
        !tally_has_key(acc, t) ==> bump_tag(acc, t).last() == (t, 1nat),
    decreases acc.len(),
{
    if acc.len() == 0 {
        assert forall|u: Seq<char>|
            #[trigger] tally_has_key(bump_tag(acc, t), u) implies tally_has_key(acc, u) || u
            == t by {
            let j = choose|j: int| 0 <= j < bump_tag(acc, t).len() && (#[trigger] bump_tag(
                acc,
                t,
            )[j]).0 == u;
            assert(bump_tag(acc, t)[j] == (t, 1nat));
        }
        assert(tally_has_key(bump_tag(acc, t), t)) by {
            assert(bump_tag(acc, t)[0] == (t, 1nat));
        }
    } else if acc.first().0 == t {
        assert(tally_has_key(acc, t)) by {
            assert(acc[0].0 == t);
        }
        assert forall|j: int|
            0 <= j < acc.len() implies (#[trigger] bump_tag(acc, t)[j]).0 == acc[j].0 by {
            if j > 0 {
                assert(bump_tag(acc, t)[j] == acc.drop_first()[j - 1]);
            }
        }
        assert forall|u: Seq<char>|
            #[trigger] tally_has_key(bump_tag(acc, t), u) implies tally_has_key(acc, u) || u
            == t by {
            let j = choose|j: int| 0 <= j < bump_tag(acc, t).len() && (#[trigger] bump_tag(
                acc,
                t,
            )[j]).0 == u;
            assert(bump_tag(acc, t)[j].0 == acc[j].0);
        }
        assert forall|u: Seq<char>|
            tally_has_key(acc, u) || u == t implies #[trigger] tally_has_key(
            bump_tag(acc, t),
            u,
        ) by {
            if u == t {
                assert(bump_tag(acc, t)[0].0 == t);
            } else {
                let j = choose|j: int| 0 <= j < acc.len() && (#[trigger] acc[j]).0 == u;
                assert(bump_tag(acc, t)[j].0 == acc[j].0);
            }
        }
    } else {
        lemma_bump_shape(acc.drop_first(), t);
        let b = bump_tag(acc, t);
        assert(b =~= seq![acc.first()] + bump_tag(acc.drop_first(), t));
        assert forall|j: int| 0 <= j < acc.len() implies (#[trigger] b[j]).0 == acc[j].0 by {
            if j > 0 {
                assert(b[j] == bump_tag(acc.drop_first(), t)[j - 1]);
                assert(bump_tag(acc.drop_first(), t)[j - 1].0 == acc.drop_first()[j - 1].0);
            }
        }
        assert(tally_has_key(acc, t) <==> tally_has_key(acc.drop_first(), t)) by {
            if tally_has_key(acc, t) {
                let j = choose|j: int| 0 <= j < acc.len() && (#[trigger] acc[j]).0 == t;
                assert(j != 0);
                assert(acc.drop_first()[j - 1].0 == t);
            }
            if tally_has_key(acc.drop_first(), t) {
                let j = choose|j: int|
                    0 <= j < acc.drop_first().len() && (#[trigger] acc.drop_first()[j]).0 == t;
                assert(acc[j + 1].0 == t);
            }
        }
        assert forall|u: Seq<char>|
            #[trigger] tally_has_key(b, u) implies tally_has_key(acc, u) || u == t by {
            let j = choose|j: int| 0 <= j < b.len() && (#[trigger] b[j]).0 == u;
            if j == 0 {
                assert(acc[0].0 == u);
            } else {
                assert(bump_tag(acc.drop_first(), t)[j - 1].0 == u);
                assert(tally_has_key(bump_tag(acc.drop_first(), t), u));
                if tally_has_key(acc.drop_first(), u) {
                    let k = choose|k: int|
                        0 <= k < acc.drop_first().len() && (#[trigger] acc.drop_first()[k]).0
                            == u;
                    assert(acc[k + 1].0 == u);
                }
            }
        }
        assert forall|u: Seq<char>|
            tally_has_key(acc, u) || u == t implies #[trigger] tally_has_key(b, u) by {
            if tally_has_key(acc, u) {
                let j = choose|j: int| 0 <= j < acc.len() && (#[trigger] acc[j]).0 == u;
                assert(b[j].0 == acc[j].0);
            } else {
                assert(tally_has_key(bump_tag(acc.drop_first(), t), t));
                let k = choose|k: int|
                    0 <= k < bump_tag(acc.drop_first(), t).len() && (#[trigger] bump_tag(
                        acc.drop_first(),
                        t,
                    )[k]).0 == t;
                assert(b[k + 1].0 == t);
            }
        }
        if !tally_has_key(acc, t) {
            assert(b.last() == bump_tag(acc.drop_first(), t).last());
        }
    }
}

/// Bumping `t` raises its count by one and leaves every other count
/// alone.
proof fn lemma_bump_counts(acc: Seq<(Seq<char>, nat)>, t: Seq<char>, j: int)
    requires
        0 <= j < bump_tag(acc, t).len(),
        forall|k1: int, k2: int|
            0 <= k1 < k2 < acc.len() ==> (#[trigger] acc[k1]).0 != (#[trigger] acc[k2]).0,
    ensures
        bump_tag(acc, t)[j].0 == t ==> bump_tag(acc, t)[j].1 == (if j < acc.len() {
            acc[j].1 + 1
        } else {
            1nat
        }),
        bump_tag(acc, t)[j].0 != t && j < acc.len() ==> bump_tag(acc, t)[j] == acc[j],
    decreases acc.len(),
{
    lemma_bump_shape(acc, t);
    if acc.len() == 0 {
        assert(bump_tag(acc, t)[0] == (t, 1nat));
    } else if acc.first().0 == t {
        if j == 0 {
        } else {
            assert(bump_tag(acc, t)[j] == acc.drop_first()[j - 1]);
            assert(acc[j] == acc.drop_first()[j - 1]);
            assert(acc[j].0 != acc[0].0);
        }
    } else {
        if j == 0 {
            assert(bump_tag(acc, t)[0] == acc.first());
        } else {
            assert(bump_tag(acc, t)[j] == bump_tag(acc.drop_first(), t)[j - 1]);
            assert(forall|k1: int, k2: int|
                0 <= k1 < k2 < acc.drop_first().len() ==> (#[trigger] acc.drop_first()[k1]).0
                    != (#[trigger] acc.drop_first()[k2]).0) by {
                assert(forall|k: int|
                    0 <= k < acc.drop_first().len() ==> (#[trigger] acc.drop_first()[k])
                        == acc[k + 1]);
            }
            lemma_bump_counts(acc.drop_first(), t, j - 1);
            if j - 1 < acc.drop_first().len() {
                assert(acc.drop_first()[j - 1] == acc[j]);
            }
        }
    }
}

/// The tally law: each tag appears once among the keys, every tag of
/// the input appears, and each key's count is exactly the number of
/// times the tag occurs in the input.
pub proof fn lemma_tag_counts_correct(tags: Seq<Seq<char>>)
    ensures
        forall|j1: int, j2: int|
            0 <= j1 < j2 < tag_counts(tags).len() ==> (#[trigger] tag_counts(tags)[j1]).0 != (
            #[trigger] tag_counts(tags)[j2]).0,
        forall|t: Seq<char>| tags.contains(t) <==> tally_has_key(tag_counts(tags), t),
        forall|j: int|
            0 <= j < tag_counts(tags).len() ==> (#[trigger] tag_counts(tags)[j]).1 == count_of(
                tags,
                tag_counts(tags)[j].0,
            ),
    decreases tags.len(),
{
    if tags.len() == 0 {
        assert forall|t: Seq<char>| tags.contains(t) implies tally_has_key(
            tag_counts(tags),
            t,
        ) by {
            let j = choose|j: int| 0 <= j < tags.len() && tags[j] == t;
        }
    } else {
        let pre = tags.drop_last();
        let t0 = tags.last();
        lemma_tag_counts_correct(pre);
        lemma_bump_shape(tag_counts(pre), t0);
        let acc = tag_counts(pre);
        let b = tag_counts(tags);
        assert(b == bump_tag(acc, t0));
        // Distinctness carries over: old keys stay put, and a fresh key
        // differs from all of them.
        assert forall|j1: int, j2: int|
            0 <= j1 < j2 < b.len() implies (#[trigger] b[j1]).0 != (#[trigger] b[j2]).0 by {
            if j2 < acc.len() {
                assert(b[j1].0 == acc[j1].0 && b[j2].0 == acc[j2].0);
            } else {
                assert(!tally_has_key(acc, t0));
                assert(b[j2] == (t0, 1nat));
                assert(b[j1].0 == acc[j1].0);
                if acc[j1].0 == t0 {
                    assert(tally_has_key(acc, t0));
                }
            }
        }
        // Every input tag has a key and every key an input tag.
        assert forall|t: Seq<char>| tags.contains(t) implies tally_has_key(b, t) by {
            let j = choose|j: int| 0 <= j < tags.len() && tags[j] == t;
            if j < tags.len() - 1 {
                assert(pre[j] == t);
                assert(pre.contains(t));
            }
        }
        assert forall|t: Seq<char>| tally_has_key(b, t) implies tags.contains(t) by {
            if t == t0 {
                assert(tags[tags.len() - 1] == t);
            } else {
                assert(tally_has_key(acc, t));
                assert(pre.contains(t));
                let j = choose|j: int| 0 <= j < pre.len() && pre[j] == t;
                assert(tags[j] == t);
            }
        }
        // Counts: the bumped key gains one sighting, the rest stand.
        assert forall|j: int|
            0 <= j < b.len() implies (#[trigger] b[j]).1 == count_of(tags, b[j].0) by {
            lemma_bump_counts(acc, t0, j);
            lemma_count_drop_last(tags, b[j].0);
            if j < acc.len() {
                if b[j].0 == t0 {
                    assert(acc[j].0 == t0);
                    assert(b[j].1 == acc[j].1 + 1);
                } else {
                    assert(b[j] == acc[j]);
                }
            } else {
                assert(!tally_has_key(acc, t0));
                assert(b[j] == (t0, 1nat));
                assert(count_of(pre, t0) == 0) by {
                    assert(!pre.contains(t0));
                    lemma_count_zero_when_no_contains(pre, t0);
                }
            }
        }
    }
}

/// A row's count of `t` grows by one exactly when the last tag is `t`.
proof fn lemma_count_drop_last(tags: Seq<Seq<char>>, t: Seq<char>)
    requires
        tags.len() > 0,
    ensures
        count_of(tags, t) == count_of(tags.drop_last(), t) + (if tags.last() == t {
            1int
        } else {
            0int
        }),
{
}

/// A tag contained in no position occurs zero times.
proof fn lemma_count_zero_when_no_contains(tags: Seq<Seq<char>>, t: Seq<char>)
    requires
        !tags.contains(t),
    ensures
        count_of(tags, t) == 0,
    decreases tags.len(),
{
    if tags.len() > 0 {
        assert(!tags.drop_last().contains(t)) by {
            if tags.drop_last().contains(t) {
                let j = choose|j: int| 0 <= j < tags.drop_last().len() && tags.drop_last()[j] == t;
                assert(tags[j] == t);
            }
        }
        lemma_count_zero_when_no_contains(tags.drop_last(), t);
        assert(tags.last() != t) by {
            if tags.last() == t {
                assert(tags[tags.len() - 1] == t);
            }
        }
    }
}

/// List every tag in use among the given entries with its count: the
/// tally of all their tags.
pub fn list_tags(papers: &Vec<Paper>) -> (r: Vec<(String, usize)>)
    ensures
        counts_view(r@) == tag_counts(tag_labels(papers@)),
{
    let tags_vec = get_tags(papers);
    to_hash_map(tags_vec)
}

} // verus!
