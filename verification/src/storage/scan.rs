//! What a range scan lists, and what an index holds after a run of
//! insertions.

use super::btree::RowRef;
use super::tree::{entries_ascending, holds, is_tree, lemma_tree_map, tree_map};
use vstd::prelude::*;

verus! {

/// From place `from` on, `out` lists what the subtree holds with a key
/// in `[start, end)`: nothing else, and all of it.
pub open spec fn scanned(
    pages: Seq<Seq<u8>>,
    id: int,
    h: nat,
    start: i64,
    end: i64,
    out: Seq<(i64, RowRef)>,
    from: int,
) -> bool {
    &&& forall|j: int|
        from <= j < out.len() ==> holds(pages, id, h, (#[trigger] out[j]).0, out[j].1) && start
            <= out[j].0 < end
    &&& forall|k: i64, r: RowRef| #[trigger]
        holds(pages, id, h, k, r) && start <= k < end ==> exists|j: int|
            from <= j < out.len() && #[trigger] out[j] == (k, r)
}

/// `v` lists the entries of `m` with a key in `[start, end)`, in
/// ascending order of the keys.
pub open spec fn is_range_of(v: Seq<(i64, RowRef)>, m: Map<i64, RowRef>, start: i64, end: i64) -> bool {
    &&& entries_ascending(v)
    &&& forall|i: int|
        0 <= i < v.len() ==> m.contains_key((#[trigger] v[i]).0) && m[v[i].0] == v[i].1 && start
            <= v[i].0 < end
    &&& forall|k: i64| #[trigger]
        m.contains_key(k) && start <= k < end ==> exists|i: int|
            0 <= i < v.len() && #[trigger] v[i] == (k, m[k])
}

/// A scan of the whole tree lists a range of the tree's map.
pub proof fn lemma_scanned_is_range(
    pages: Seq<Seq<u8>>,
    h: nat,
    start: i64,
    end: i64,
    out: Seq<(i64, RowRef)>,
)
    requires
        is_tree(pages, h),
        entries_ascending(out),
        scanned(pages, 0, h, start, end, out, 0),
    ensures
        is_range_of(out, tree_map(pages), start, end),
{
    lemma_tree_map(pages, h);
    let m = tree_map(pages);
    assert forall|k: i64| #[trigger] m.contains_key(k) && start <= k < end implies exists|i: int|
        0 <= i < out.len() && #[trigger] out[i] == (k, m[k]) by {
        assert(holds(pages, 0, h, k, m[k]));
    }
}

/// There is one list only of a range of a map.
pub proof fn lemma_range_unique(
    v1: Seq<(i64, RowRef)>,
    v2: Seq<(i64, RowRef)>,
    m: Map<i64, RowRef>,
    start: i64,
    end: i64,
)
    requires
        is_range_of(v1, m, start, end),
        is_range_of(v2, m, start, end),
    ensures
        v1 == v2,
    decreases v1.len(),
{
    if v1.len() == 0 {
        if v2.len() > 0 {
            let e = v2[0];
            assert(m.contains_key(e.0));
            let i = choose|i: int| 0 <= i < v1.len() && #[trigger] v1[i] == (e.0, m[e.0]);
        }
        assert(v1 =~= v2);
    } else {
        let n1 = v1.len() as int;
        let last = v1[n1 - 1];
        assert(m.contains_key(last.0));
        let i2 = choose|i: int| 0 <= i < v2.len() && #[trigger] v2[i] == (last.0, m[last.0]);
        let n2 = v2.len() as int;
        assert(i2 == n2 - 1) by {
            if i2 < n2 - 1 {
                let e = v2[n2 - 1];
                assert(v2[i2].0 < e.0);
                assert(m.contains_key(e.0));
                let i1 = choose|i: int| 0 <= i < v1.len() && #[trigger] v1[i] == (e.0, m[e.0]);
                if i1 < n1 - 1 {
                    assert(v1[i1].0 < v1[n1 - 1].0);
                }
            }
        }
        let m2 = m.remove(last.0);
        let w1 = v1.subrange(0, n1 - 1);
        let w2 = v2.subrange(0, n2 - 1);
        assert(is_range_of(w1, m2, start, end)) by {
            assert forall|i: int| 0 <= i < w1.len() implies m2.contains_key((#[trigger] w1[i]).0)
                && m2[w1[i].0] == w1[i].1 && start <= w1[i].0 < end by {
                assert(w1[i] == v1[i]);
                assert(v1[i].0 < v1[n1 - 1].0);
            }
            assert forall|k: i64| #[trigger] m2.contains_key(k) && start <= k < end implies exists|
                i: int,
            | 0 <= i < w1.len() && #[trigger] w1[i] == (k, m2[k]) by {
                assert(m.contains_key(k));
                let i = choose|i: int| 0 <= i < v1.len() && #[trigger] v1[i] == (k, m[k]);
                assert(w1[i] == (k, m2[k]));
            }
        }
        assert(is_range_of(w2, m2, start, end)) by {
            assert forall|i: int| 0 <= i < w2.len() implies m2.contains_key((#[trigger] w2[i]).0)
                && m2[w2[i].0] == w2[i].1 && start <= w2[i].0 < end by {
                assert(w2[i] == v2[i]);
                assert(v2[i].0 < v2[n2 - 1].0);
            }
            assert forall|k: i64| #[trigger] m2.contains_key(k) && start <= k < end implies exists|
                i: int,
            | 0 <= i < w2.len() && #[trigger] w2[i] == (k, m2[k]) by {
                assert(m.contains_key(k));
                let i = choose|i: int| 0 <= i < v2.len() && #[trigger] v2[i] == (k, m[k]);
                assert(w2[i] == (k, m2[k]));
            }
        }
        lemma_range_unique(w1, w2, m2, start, end);
        assert(v1 =~= w1.push(v1[n1 - 1]));
        assert(v2 =~= w2.push(v2[n2 - 1]));
    }
}

/// The map of an index that was empty and then took the entries one
/// after another, each with `insert`.
pub open spec fn stored(entries: Seq<(i64, RowRef)>) -> Map<i64, RowRef>
    decreases entries.len(),
{
    if entries.len() == 0 {
        Map::empty()
    } else {
        stored(entries.drop_last()).insert(entries.last().0, entries.last().1)
    }
}

/// No two of the entries have the same key.
pub open spec fn distinct_keys(entries: Seq<(i64, RowRef)>) -> bool {
    forall|i: int, j: int| 0 <= i < j < entries.len() ==> entries[i].0 != entries[j].0
}

/// Entries with distinct keys, stored in any order, are all found, each
/// under its key with its own row reference, and no other key is found.
/// None of the insertions is refused as a duplicate: each key is new
/// when its entry is stored.
pub proof fn lemma_stored_found(entries: Seq<(i64, RowRef)>)
    requires
        distinct_keys(entries),
    ensures
        forall|i: int|
            0 <= i < entries.len() ==> stored(entries).contains_key((#[trigger] entries[i]).0)
                && stored(entries)[entries[i].0] == entries[i].1,
        forall|k: i64| #[trigger]
            stored(entries).contains_key(k) ==> exists|i: int|
                0 <= i < entries.len() && (#[trigger] entries[i]).0 == k,
        entries.len() > 0 ==> !stored(entries.drop_last()).contains_key(entries.last().0),
    decreases entries.len(),
{
    if entries.len() > 0 {
        let front = entries.drop_last();
        let last = entries.last();
        assert forall|i: int, j: int| 0 <= i < j < front.len() implies front[i].0 != front[j].0 by {
            assert(front[i] == entries[i] && front[j] == entries[j]);
        }
        lemma_stored_found(front);
        if stored(front).contains_key(last.0) {
            let i = choose|i: int| 0 <= i < front.len() && (#[trigger] front[i]).0 == last.0;
            assert(front[i] == entries[i]);
            assert(entries[i].0 != entries[entries.len() - 1].0);
        }
        assert forall|i: int| 0 <= i < entries.len() implies stored(entries).contains_key(
            (#[trigger] entries[i]).0,
        ) && stored(entries)[entries[i].0] == entries[i].1 by {
            if i < entries.len() - 1 {
                assert(front[i] == entries[i]);
                assert(entries[i].0 != entries[entries.len() - 1].0);
            }
        }
        assert forall|k: i64| #[trigger] stored(entries).contains_key(k) implies exists|i: int|
            0 <= i < entries.len() && (#[trigger] entries[i]).0 == k by {
            if k == last.0 {
                assert(entries[entries.len() - 1].0 == k);
            } else {
                let i = choose|i: int| 0 <= i < front.len() && (#[trigger] front[i]).0 == k;
                assert(entries[i].0 == k);
            }
        }
    }
}

} // verus!
