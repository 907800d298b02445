//! What an insertion makes of the tree: `grown_by` says what the file
//! holds afterwards, `grown_where_full` which pages were parted, and the
//! lemmas show both for each step of the insertion, from the leaf up to
//! the root.

use super::btree::RowRef;
use super::heap::PageId;
use super::kids::{
    kids_hold, kids_own, kids_wf, lemma_half_written, lemma_halves_written, lemma_kids_child_grown,
    lemma_kids_child_split, lemma_kids_frame, lemma_kids_of_node, lemma_node_of_kids,
};
use super::node::{
    internal_children, internal_keys, internal_len_of, internal_max_keys, internal_split_point,
    leaf_entries, leaf_len_of, leaf_max_entries, leaf_next_of, leaf_split_point, same_header,
};
use super::page::{flags_of, magic_of, page_id_of, PageFlags};
use super::tree::{
    apart, ascending, child_at, entries_ascending, holds, is_tree, is_tree_page, key_ceiling,
    key_floor, leaf_wf, lemma_frame, lemma_owns_bound, lemma_tree_map, owns, range_hi, range_lo,
    subtree_wf, tree_map,
};
use vstd::prelude::*;

verus! {

/// What inserting `(key, value)` below a subtree has made of the file.
///
/// `pages0` is the file before and `pages2` the file after. Pages beside the
/// subtree are as they were, and at most one page per level was added.
/// Without a split the subtree holds one entry more. With a split
/// `(sk, sp)` the subtree has been parted at `sk`: what is below `sk`
/// is under the old top page, the rest under the new page `sp`.
pub open spec fn grown_by(
    pages0: Seq<Seq<u8>>,
    pages2: Seq<Seq<u8>>,
    id: int,
    h: nat,
    lo: int,
    hi: int,
    key: i64,
    value: RowRef,
    split: Option<(i64, PageId)>,
) -> bool {
    &&& pages0.len() <= pages2.len() <= pages0.len() + h + 1
    &&& forall|q: int| 0 <= q < pages0.len() && !owns(pages0, id, h, q) ==> #[trigger] pages2[q] == pages0[q]
    &&& forall|q: int| #[trigger] owns(pages2, id, h, q) ==> owns(pages0, id, h, q) || pages0.len() <= q
    &&& forall|k: i64, r: RowRef| #[trigger]
        holds(pages2, id, h, k, r) ==> holds(pages0, id, h, k, r) || (k == key && r == value)
    &&& match split {
        None => {
            &&& subtree_wf(pages2, id, h, lo, hi)
            &&& holds(pages2, id, h, key, value)
            &&& forall|k: i64, r: RowRef| #[trigger]
                holds(pages0, id, h, k, r) ==> holds(pages2, id, h, k, r)
        },
        Some((sk, sp)) => {
            &&& lo < sk < hi
            &&& pages0.len() <= sp < pages2.len()
            &&& subtree_wf(pages2, id, h, lo, sk as int)
            &&& subtree_wf(pages2, sp as int, h, sk as int, hi)
            &&& apart(pages2, id, sp as int, h)
            &&& holds(pages2, id, h, key, value) || holds(pages2, sp as int, h, key, value)
            &&& forall|q: int| #[trigger]
                owns(pages2, sp as int, h, q) ==> owns(pages0, id, h, q) || pages0.len() <= q
            &&& forall|k: i64, r: RowRef| #[trigger]
                holds(pages2, sp as int, h, k, r) ==> holds(pages0, id, h, k, r) || (k == key && r
                    == value)
            &&& forall|k: i64, r: RowRef| #[trigger]
                holds(pages0, id, h, k, r) ==> holds(pages2, id, h, k, r) || holds(pages2, sp as int, h, k, r)
        },
    }
}

/// An insertion below child `c` of a page that did not part the child
/// is an insertion below the page that did not part the page.
pub proof fn lemma_node_child_grown(
    pages0: Seq<Seq<u8>>,
    pages1: Seq<Seq<u8>>,
    id: int,
    h: nat,
    lo: int,
    hi: int,
    c: int,
    key: i64,
    value: RowRef,
)
    requires
        h > 0,
        subtree_wf(pages0, id, h, lo, hi),
        0 <= c < internal_children(pages0[id]).len(),
        grown_by(
            pages0,
            pages1,
            child_at(pages0[id], c),
            (h - 1) as nat,
            range_lo(internal_keys(pages0[id]), lo, c),
            range_hi(internal_keys(pages0[id]), hi, c),
            key,
            value,
            None,
        ),
    ensures
        grown_by(pages0, pages1, id, h, lo, hi, key, value, None),
{
    let keys = internal_keys(pages0[id]);
    let kids = internal_children(pages0[id]);
    let g = (h - 1) as nat;
    lemma_kids_of_node(pages0, id, h, lo, hi);
    lemma_kids_child_grown(pages0, pages1, keys, kids, g, lo, hi, c, key, value);
    assert(pages1[id] == pages0[id]);
    assert(!kids_own(pages1, kids, g, id));
    lemma_node_of_kids(pages1, id, h, lo, hi);
    assert forall|q: int| 0 <= q < pages0.len() && !owns(pages0, id, h, q) implies #[trigger] pages1[q]
        == pages0[q] by {
        assert(!kids_own(pages0, kids, g, q));
    }
    assert forall|q: int| #[trigger] owns(pages1, id, h, q) implies owns(pages0, id, h, q) || pages0.len()
        <= q by {
        if q != id {
            assert(kids_own(pages1, kids, g, q));
        }
    }
    assert forall|k: i64, r: RowRef| #[trigger] holds(pages1, id, h, k, r) implies holds(
        pages0,
        id,
        h,
        k,
        r,
    ) || (k == key && r == value) by {
        assert(kids_hold(pages1, kids, g, k, r));
    }
    assert forall|k: i64, r: RowRef| #[trigger] holds(pages0, id, h, k, r) implies holds(
        pages1,
        id,
        h,
        k,
        r,
    ) by {
        assert(kids_hold(pages0, kids, g, k, r));
    }
}

/// An insertion below child `c` that parted the child, followed by
/// writing the page with the new key and child in their places, is an
/// insertion below the page that did not part the page.
pub proof fn lemma_node_absorbed(
    pages0: Seq<Seq<u8>>,
    pages1: Seq<Seq<u8>>,
    pages2: Seq<Seq<u8>>,
    id: int,
    h: nat,
    lo: int,
    hi: int,
    c: int,
    key: i64,
    value: RowRef,
    sk: i64,
    sp: PageId,
)
    requires
        h > 0,
        subtree_wf(pages0, id, h, lo, hi),
        0 <= c < internal_children(pages0[id]).len(),
        grown_by(
            pages0,
            pages1,
            child_at(pages0[id], c),
            (h - 1) as nat,
            range_lo(internal_keys(pages0[id]), lo, c),
            range_hi(internal_keys(pages0[id]), hi, c),
            key,
            value,
            Some((sk, sp)),
        ),
        internal_len_of(pages0[id]) < internal_max_keys(),
        pages2.len() == pages1.len(),
        forall|q: int| 0 <= q < pages1.len() && q != id ==> pages2[q] == pages1[q],
        page_id_of(pages2[id]) == id,
        is_tree_page(pages2[id], PageFlags::Internal),
        internal_keys(pages2[id]) == internal_keys(pages0[id]).insert(c, sk),
        internal_children(pages2[id]) == internal_children(pages0[id]).insert(c + 1, sp),
    ensures
        grown_by(pages0, pages2, id, h, lo, hi, key, value, None),
{
    let keys = internal_keys(pages0[id]);
    let kids = internal_children(pages0[id]);
    let keys2 = keys.insert(c, sk);
    let kids2 = kids.insert(c + 1, sp);
    let g = (h - 1) as nat;
    lemma_kids_of_node(pages0, id, h, lo, hi);
    lemma_kids_child_split(pages0, pages1, keys, kids, g, lo, hi, c, key, value, sk, sp);
    assert forall|q: int| kids_own(pages1, kids2, g, q) implies pages2[q] == pages1[q] by {
        let j = choose|j: int| 0 <= j < kids2.len() && owns(pages1, (#[trigger] kids2[j]) as int, g, q);
        lemma_owns_bound(pages1, kids2[j] as int, g, range_lo(keys2, lo, j), range_hi(keys2, hi, j), q);
    }
    lemma_kids_frame(pages1, pages2, keys2, kids2, g, lo, hi);
    assert(internal_len_of(pages2[id]) == keys2.len());
    assert(!kids_own(pages2, kids2, g, id)) by {
        if kids_own(pages2, kids2, g, id) {
            assert(kids_own(pages1, kids2, g, id));
        }
    }
    lemma_node_of_kids(pages2, id, h, lo, hi);
    assert forall|q: int| 0 <= q < pages0.len() && !owns(pages0, id, h, q) implies #[trigger] pages2[q]
        == pages0[q] by {
        assert(!kids_own(pages0, kids, g, q));
        assert(pages1[q] == pages0[q]);
    }
    assert forall|q: int| #[trigger] owns(pages2, id, h, q) implies owns(pages0, id, h, q) || pages0.len()
        <= q by {
        if q != id {
            assert(kids_own(pages2, kids2, g, q));
            assert(kids_own(pages1, kids2, g, q));
        }
    }
    assert forall|k: i64, r: RowRef| #[trigger] holds(pages2, id, h, k, r) implies holds(
        pages0,
        id,
        h,
        k,
        r,
    ) || (k == key && r == value) by {
        assert(kids_hold(pages2, kids2, g, k, r));
        assert(kids_hold(pages1, kids2, g, k, r));
    }
    assert forall|k: i64, r: RowRef| #[trigger] holds(pages0, id, h, k, r) implies holds(
        pages2,
        id,
        h,
        k,
        r,
    ) by {
        assert(kids_hold(pages0, kids, g, k, r));
        assert(kids_hold(pages1, kids2, g, k, r));
        assert(kids_hold(pages2, kids2, g, k, r));
    }
    assert(holds(pages2, id, h, key, value)) by {
        assert(kids_hold(pages1, kids2, g, key, value));
        assert(kids_hold(pages2, kids2, g, key, value));
    }
}

/// An insertion below child `c` of a full page that parted the child,
/// followed by parting the page itself, is an insertion below the page
/// that parted the page at the key that moved up.
pub proof fn lemma_node_split(
    pages0: Seq<Seq<u8>>,
    pages1: Seq<Seq<u8>>,
    pages2: Seq<Seq<u8>>,
    id: int,
    h: nat,
    lo: int,
    hi: int,
    c: int,
    key: i64,
    value: RowRef,
    sk: i64,
    sp: PageId,
    promote: i64,
    right_id: PageId,
)
    requires
        h > 0,
        subtree_wf(pages0, id, h, lo, hi),
        0 <= c < internal_children(pages0[id]).len(),
        grown_by(
            pages0,
            pages1,
            child_at(pages0[id], c),
            (h - 1) as nat,
            range_lo(internal_keys(pages0[id]), lo, c),
            range_hi(internal_keys(pages0[id]), hi, c),
            key,
            value,
            Some((sk, sp)),
        ),
        internal_len_of(pages0[id]) == internal_max_keys(),
        pages2.len() == pages1.len() + 1,
        right_id == pages1.len(),
        forall|q: int| 0 <= q < pages1.len() && q != id ==> pages2[q] == pages1[q],
        page_id_of(pages2[id]) == id,
        page_id_of(pages2[right_id as int]) == right_id,
        is_tree_page(pages2[id], PageFlags::Internal),
        is_tree_page(pages2[right_id as int], PageFlags::Internal),
        promote == internal_keys(pages0[id]).insert(c, sk)[internal_split_point()],
        internal_keys(pages2[id]) == internal_keys(pages0[id]).insert(c, sk).subrange(
            0,
            internal_split_point(),
        ),
        internal_children(pages2[id]) == internal_children(pages0[id]).insert(c + 1, sp).subrange(
            0,
            internal_split_point() + 1,
        ),
        internal_keys(pages2[right_id as int]) == internal_keys(pages0[id]).insert(c, sk).subrange(
            internal_split_point() + 1,
            internal_max_keys() + 1,
        ),
        internal_children(pages2[right_id as int]) == internal_children(pages0[id]).insert(
            c + 1,
            sp,
        ).subrange(internal_split_point() + 1, internal_max_keys() + 2),
    ensures
        grown_by(pages0, pages2, id, h, lo, hi, key, value, Some((promote, right_id))),
{
    let keys = internal_keys(pages0[id]);
    let kids = internal_children(pages0[id]);
    let keys2 = keys.insert(c, sk);
    let kids2 = kids.insert(c + 1, sp);
    let g = (h - 1) as nat;
    let mid = internal_split_point();
    let lc = kids2.subrange(0, mid + 1);
    let rc = kids2.subrange(mid + 1, kids2.len() as int);
    let rid = right_id as int;
    lemma_kids_of_node(pages0, id, h, lo, hi);
    lemma_kids_child_split(pages0, pages1, keys, kids, g, lo, hi, c, key, value, sk, sp);
    assert(keys.len() == internal_max_keys());
    assert(!kids_own(pages1, kids2, g, id));
    lemma_halves_written(pages1, pages2, keys2, kids2, g, lo, hi, mid, id, rid, h);
    lemma_split_assembled(pages0, pages1, pages2, id, h, key, value, kids, kids2, lc, rc, rid);
}

/// The last step of `lemma_node_split`: from what the two halves hold and
/// own to what the insertion has made of the file.
proof fn lemma_split_assembled(
    pages0: Seq<Seq<u8>>,
    pages1: Seq<Seq<u8>>,
    pages2: Seq<Seq<u8>>,
    id: int,
    h: nat,
    key: i64,
    value: RowRef,
    kids: Seq<PageId>,
    kids2: Seq<PageId>,
    lc: Seq<PageId>,
    rc: Seq<PageId>,
    rid: int,
)
    requires
        h > 0,
        0 <= id < pages0.len() <= pages1.len(),
        rid == pages1.len(),
        pages2.len() == pages1.len() + 1,
        forall|q: int| 0 <= q < pages1.len() && q != id ==> pages2[q] == pages1[q],
        !kids_own(pages0, kids, (h - 1) as nat, id),
        forall|k: i64, r: RowRef| #[trigger]
            holds(pages0, id, h, k, r) <==> kids_hold(pages0, kids, (h - 1) as nat, k, r),
        forall|q: int| #[trigger]
            owns(pages0, id, h, q) <==> q == id || kids_own(pages0, kids, (h - 1) as nat, q),
        kids_hold(pages1, kids2, (h - 1) as nat, key, value),
        forall|k: i64, r: RowRef| #[trigger]
            kids_hold(pages1, kids2, (h - 1) as nat, k, r) ==> kids_hold(pages0, kids, (h - 1) as nat, k, r)
                || (k == key && r == value),
        forall|k: i64, r: RowRef| #[trigger]
            kids_hold(pages0, kids, (h - 1) as nat, k, r) ==> kids_hold(pages1, kids2, (h - 1) as nat, k, r),
        forall|q: int| #[trigger]
            kids_own(pages1, kids2, (h - 1) as nat, q) ==> kids_own(pages0, kids, (h - 1) as nat, q)
                || pages0.len() <= q,
        forall|q: int| #[trigger] kids_own(pages1, kids2, (h - 1) as nat, q) ==> 0 <= q < pages1.len(),
        forall|q: int|
            0 <= q < pages0.len() && !kids_own(pages0, kids, (h - 1) as nat, q) ==> #[trigger] pages1[q] == pages0[q],
        forall|k: i64, r: RowRef| #[trigger]
            kids_hold(pages1, kids2, (h - 1) as nat, k, r) <==> kids_hold(pages1, lc, (h - 1) as nat, k, r)
                || kids_hold(pages1, rc, (h - 1) as nat, k, r),
        forall|q: int| #[trigger]
            kids_own(pages1, kids2, (h - 1) as nat, q) <==> kids_own(pages1, lc, (h - 1) as nat, q)
                || kids_own(pages1, rc, (h - 1) as nat, q),
        forall|q: int|
            !(#[trigger] kids_own(pages1, lc, (h - 1) as nat, q) && kids_own(
                pages1,
                rc,
                (h - 1) as nat,
                q,
            )),
        forall|k: i64, r: RowRef| #[trigger]
            holds(pages2, id, h, k, r) <==> kids_hold(pages1, lc, (h - 1) as nat, k, r),
        forall|q: int| #[trigger] owns(pages2, id, h, q) <==> q == id || kids_own(pages1, lc, (h - 1) as nat, q),
        forall|k: i64, r: RowRef| #[trigger]
            holds(pages2, rid, h, k, r) <==> kids_hold(pages1, rc, (h - 1) as nat, k, r),
        forall|q: int| #[trigger]
            owns(pages2, rid, h, q) <==> q == rid || kids_own(pages1, rc, (h - 1) as nat, q),
    ensures
        forall|q: int| 0 <= q < pages0.len() && !owns(pages0, id, h, q) ==> #[trigger] pages2[q] == pages0[q],
        forall|q: int| #[trigger] owns(pages2, id, h, q) ==> owns(pages0, id, h, q) || pages0.len() <= q,
        forall|q: int| #[trigger] owns(pages2, rid, h, q) ==> owns(pages0, id, h, q) || pages0.len() <= q,
        forall|k: i64, r: RowRef| #[trigger]
            holds(pages2, id, h, k, r) ==> holds(pages0, id, h, k, r) || (k == key && r == value),
        forall|k: i64, r: RowRef| #[trigger]
            holds(pages2, rid, h, k, r) ==> holds(pages0, id, h, k, r) || (k == key && r == value),
        forall|k: i64, r: RowRef| #[trigger]
            holds(pages0, id, h, k, r) ==> holds(pages2, id, h, k, r) || holds(pages2, rid, h, k, r),
        holds(pages2, id, h, key, value) || holds(pages2, rid, h, key, value),
        apart(pages2, id, rid, h),
{
    let g = (h - 1) as nat;
    assert forall|q: int| 0 <= q < pages0.len() && !owns(pages0, id, h, q) implies #[trigger] pages2[q]
        == pages0[q] by {
        assert(!kids_own(pages0, kids, g, q));
        assert(pages1[q] == pages0[q]);
    }
    assert forall|q: int| #[trigger] owns(pages2, id, h, q) implies owns(pages0, id, h, q) || pages0.len()
        <= q by {
        if q != id {
            assert(kids_own(pages1, lc, g, q));
            assert(kids_own(pages1, kids2, g, q));
        }
    }
    assert forall|q: int| #[trigger] owns(pages2, rid, h, q) implies owns(pages0, id, h, q) || pages0.len()
        <= q by {
        if q != rid {
            assert(kids_own(pages1, rc, g, q));
            assert(kids_own(pages1, kids2, g, q));
        }
    }
    assert forall|k: i64, r: RowRef| #[trigger] holds(pages2, id, h, k, r) implies holds(
        pages0,
        id,
        h,
        k,
        r,
    ) || (k == key && r == value) by {
        assert(kids_hold(pages1, lc, g, k, r));
        assert(kids_hold(pages1, kids2, g, k, r));
    }
    assert forall|k: i64, r: RowRef| #[trigger] holds(pages2, rid, h, k, r) implies holds(
        pages0,
        id,
        h,
        k,
        r,
    ) || (k == key && r == value) by {
        assert(kids_hold(pages1, rc, g, k, r));
        assert(kids_hold(pages1, kids2, g, k, r));
    }
    assert forall|k: i64, r: RowRef| #[trigger] holds(pages0, id, h, k, r) implies holds(
        pages2,
        id,
        h,
        k,
        r,
    ) || holds(pages2, rid, h, k, r) by {
        assert(kids_hold(pages0, kids, g, k, r));
        assert(kids_hold(pages1, kids2, g, k, r));
    }
    assert(holds(pages2, id, h, key, value) || holds(pages2, rid, h, key, value));
    assert forall|q: int|
        #![trigger owns(pages2, id, h, q)]
        #![trigger owns(pages2, rid, h, q)]
        !(owns(pages2, id, h, q) && owns(pages2, rid, h, q)) by {
        if owns(pages2, id, h, q) && owns(pages2, rid, h, q) {
            if q == id {
                assert(kids_own(pages1, rc, g, q));
                assert(kids_own(pages1, kids2, g, q));
            } else if q == rid {
                assert(kids_own(pages1, lc, g, q));
                assert(kids_own(pages1, kids2, g, q));
            } else {
                assert(kids_own(pages1, lc, g, q));
                assert(kids_own(pages1, rc, g, q));
            }
        }
    }
}

/// `idx` is the place of `key` among the entries: the keys before it are
/// smaller and those from it on are greater.
pub open spec fn is_place_of(es: Seq<(i64, RowRef)>, idx: int, key: i64) -> bool {
    &&& 0 <= idx <= es.len()
    &&& forall|j: int| 0 <= j < idx ==> (#[trigger] es[j]).0 < key
    &&& forall|j: int| idx <= j < es.len() ==> key < (#[trigger] es[j]).0
}

/// Putting an entry at the place of its key keeps the entries ascending;
/// the entries before the place stay, those behind it move up by one.
pub proof fn lemma_entry_placed(es: Seq<(i64, RowRef)>, idx: int, key: i64, value: RowRef)
    requires
        entries_ascending(es),
        is_place_of(es, idx, key),
    ensures
        entries_ascending(es.insert(idx, (key, value))),
        es.insert(idx, (key, value)).len() == es.len() + 1,
        es.insert(idx, (key, value))[idx] == (key, value),
        forall|i: int| 0 <= i < idx ==> #[trigger] es.insert(idx, (key, value))[i] == es[i],
        forall|i: int|
            idx < i <= es.len() ==> #[trigger] es.insert(idx, (key, value))[i] == es[i - 1],
{
    let m = es.insert(idx, (key, value));
    assert forall|i: int, j: int| 0 <= i < j < m.len() implies m[i].0 < m[j].0 by {
        if j < idx {
            assert(m[i] == es[i] && m[j] == es[j]);
        } else if j == idx {
            assert(m[i] == es[i]);
        } else if i < idx {
            assert(m[i] == es[i] && m[j] == es[j - 1]);
        } else if i == idx {
            assert(m[j] == es[j - 1]);
        } else {
            assert(m[i] == es[i - 1] && m[j] == es[j - 1]);
        }
    }
}

/// Ascending entries within bounds, cut at a place that is neither end,
/// are ascending entries within bounds on both sides of the cut.
pub proof fn lemma_entries_cut(m: Seq<(i64, RowRef)>, mid: int, lo: int, hi: int)
    requires
        entries_ascending(m),
        forall|i: int| 0 <= i < m.len() ==> lo <= (#[trigger] m[i]).0 < hi,
        0 < mid < m.len(),
    ensures
        lo < m[mid].0 < hi,
        entries_ascending(m.subrange(0, mid)),
        entries_ascending(m.subrange(mid, m.len() as int)),
        forall|i: int| 0 <= i < mid ==> lo <= (#[trigger] m.subrange(0, mid)[i]).0 < m[mid].0,
        forall|i: int|
            0 <= i < m.len() - mid ==> m[mid].0 <= (#[trigger] m.subrange(mid, m.len() as int)[i]).0
                < hi,
{
    let left = m.subrange(0, mid);
    let right = m.subrange(mid, m.len() as int);
    assert(m[0].0 < m[mid].0);
    assert(lo <= m[0].0);
    assert forall|i: int, j: int| 0 <= i < j < left.len() implies left[i].0 < left[j].0 by {
        assert(m[i].0 < m[j].0);
    }
    assert forall|i: int, j: int| 0 <= i < j < right.len() implies right[i].0 < right[j].0 by {
        assert(m[mid + i].0 < m[mid + j].0);
    }
    assert forall|i: int| 0 <= i < mid implies lo <= (#[trigger] left[i]).0 < m[mid].0 by {
        assert(m[i].0 < m[mid].0);
        assert(lo <= m[i].0);
    }
    assert forall|i: int| 0 <= i < m.len() - mid implies m[mid].0 <= (#[trigger] right[i]).0
        < hi by {
        assert(lo <= m[mid + i].0 < hi);
        if i > 0 {
            assert(m[mid].0 < m[mid + i].0);
        }
    }
}

/// Entries after an insertion at the place of the key are within the
/// bounds that the entries and the key were within.
pub proof fn lemma_entries_bounded(
    es: Seq<(i64, RowRef)>,
    idx: int,
    key: i64,
    value: RowRef,
    lo: int,
    hi: int,
)
    requires
        0 <= idx <= es.len(),
        lo <= key < hi,
        forall|i: int| 0 <= i < es.len() ==> lo <= (#[trigger] es[i]).0 < hi,
    ensures
        forall|i: int|
            0 <= i < es.len() + 1 ==> lo <= (#[trigger] es.insert(idx, (key, value))[i]).0 < hi,
{
    let m = es.insert(idx, (key, value));
    assert forall|i: int| 0 <= i < es.len() + 1 implies lo <= (#[trigger] m[i]).0 < hi by {
        if i < idx {
            assert(m[i] == es[i]);
        } else if i > idx {
            assert(m[i] == es[i - 1]);
        }
    }
}

/// A key whose place among the entries of a leaf is known is not in the
/// leaf.
pub proof fn lemma_leaf_lacks(pages: Seq<Seq<u8>>, id: int, idx: int, key: i64)
    requires
        is_place_of(leaf_entries(pages[id]), idx, key),
    ensures
        forall|r: RowRef| !holds(pages, id, 0, key, r),
{
    let es = leaf_entries(pages[id]);
    assert forall|r: RowRef| !holds(pages, id, 0, key, r) by {
        if holds(pages, id, 0, key, r) {
            let i = choose|i: int| 0 <= i < es.len() && #[trigger] es[i] == (key, r);
            assert(es[i].0 == key);
        }
    }
}

/// Writing a leaf with one entry more, put at the place of its key, is
/// an insertion below the leaf that did not part it.
pub proof fn lemma_leaf_grown(
    pages0: Seq<Seq<u8>>,
    pages2: Seq<Seq<u8>>,
    id: int,
    lo: int,
    hi: int,
    idx: int,
    key: i64,
    value: RowRef,
)
    requires
        subtree_wf(pages0, id, 0, lo, hi),
        lo <= key < hi,
        leaf_len_of(pages0[id]) < leaf_max_entries(),
        is_place_of(leaf_entries(pages0[id]), idx, key),
        pages2.len() == pages0.len(),
        forall|q: int| 0 <= q < pages0.len() && q != id ==> pages2[q] == pages0[q],
        page_id_of(pages2[id]) == id,
        is_tree_page(pages2[id], PageFlags::Leaf),
        leaf_entries(pages2[id]) == leaf_entries(pages0[id]).insert(idx, (key, value)),
    ensures
        grown_by(pages0, pages2, id, 0, lo, hi, key, value, None),
{
    let es = leaf_entries(pages0[id]);
    let m = leaf_entries(pages2[id]);
    lemma_entry_placed(es, idx, key, value);
    lemma_entries_bounded(es, idx, key, value, lo, hi);
    assert(leaf_len_of(pages2[id]) == m.len());
    assert(leaf_wf(pages2[id], lo, hi));
    assert(holds(pages2, id, 0, key, value)) by {
        assert(m[idx] == (key, value));
    }
    assert forall|k: i64, r: RowRef| #[trigger] holds(pages2, id, 0, k, r) implies holds(
        pages0,
        id,
        0,
        k,
        r,
    ) || (k == key && r == value) by {
        let i = choose|i: int| 0 <= i < m.len() && #[trigger] m[i] == (k, r);
        if i < idx {
            assert(es[i] == (k, r));
        } else if i > idx {
            assert(es[i - 1] == (k, r));
        }
    }
    assert forall|k: i64, r: RowRef| #[trigger] holds(pages0, id, 0, k, r) implies holds(
        pages2,
        id,
        0,
        k,
        r,
    ) by {
        let j = choose|j: int| 0 <= j < es.len() && #[trigger] es[j] == (k, r);
        if j < idx {
            assert(m[j] == (k, r));
        } else {
            assert(m[j + 1] == (k, r));
        }
    }
}

/// Adding an entry to a full leaf by parting the leaf at the middle of
/// its entries, the new one among them, is an insertion below the leaf
/// that parted it at the first key of the upper part.
pub proof fn lemma_leaf_split_grown(
    pages0: Seq<Seq<u8>>,
    pages2: Seq<Seq<u8>>,
    id: int,
    lo: int,
    hi: int,
    idx: int,
    key: i64,
    value: RowRef,
    sk: i64,
    sp: PageId,
)
    requires
        subtree_wf(pages0, id, 0, lo, hi),
        lo <= key < hi,
        leaf_len_of(pages0[id]) == leaf_max_entries(),
        is_place_of(leaf_entries(pages0[id]), idx, key),
        pages2.len() == pages0.len() + 1,
        sp == pages0.len(),
        forall|q: int| 0 <= q < pages0.len() && q != id ==> pages2[q] == pages0[q],
        page_id_of(pages2[id]) == id,
        page_id_of(pages2[sp as int]) == sp,
        is_tree_page(pages2[id], PageFlags::Leaf),
        is_tree_page(pages2[sp as int], PageFlags::Leaf),
        leaf_entries(pages2[id]) == leaf_entries(pages0[id]).insert(idx, (key, value)).subrange(
            0,
            leaf_split_point(),
        ),
        leaf_entries(pages2[sp as int]) == leaf_entries(pages0[id]).insert(idx, (key, value)).subrange(
            leaf_split_point(),
            leaf_max_entries() + 1,
        ),
        sk == leaf_entries(pages0[id]).insert(idx, (key, value))[leaf_split_point()].0,
    ensures
        grown_by(pages0, pages2, id, 0, lo, hi, key, value, Some((sk, sp))),
{
    let es = leaf_entries(pages0[id]);
    let m = es.insert(idx, (key, value));
    let mid = leaf_split_point();
    let left = leaf_entries(pages2[id]);
    let right = leaf_entries(pages2[sp as int]);
    let rid = sp as int;
    lemma_entry_placed(es, idx, key, value);
    lemma_entries_bounded(es, idx, key, value, lo, hi);
    lemma_entries_cut(m, mid, lo, hi);
    assert(leaf_len_of(pages2[id]) == left.len());
    assert(leaf_len_of(pages2[rid]) == right.len());
    assert(leaf_wf(pages2[id], lo, sk as int));
    assert(leaf_wf(pages2[rid], sk as int, hi));
    lemma_leaf_split_holds(pages0, pages2, id, idx, key, value, rid);
}

/// What the two leaves of `lemma_leaf_split_grown` hold.
proof fn lemma_leaf_split_holds(
    pages0: Seq<Seq<u8>>,
    pages2: Seq<Seq<u8>>,
    id: int,
    idx: int,
    key: i64,
    value: RowRef,
    rid: int,
)
    requires
        0 <= id < pages0.len(),
        rid == pages0.len(),
        pages2.len() == pages0.len() + 1,
        0 <= idx <= leaf_entries(pages0[id]).len(),
        leaf_entries(pages0[id]).len() == leaf_max_entries(),
        leaf_entries(pages2[id]) == leaf_entries(pages0[id]).insert(idx, (key, value)).subrange(
            0,
            leaf_split_point(),
        ),
        leaf_entries(pages2[rid]) == leaf_entries(pages0[id]).insert(idx, (key, value)).subrange(
            leaf_split_point(),
            leaf_max_entries() + 1,
        ),
    ensures
        holds(pages2, id, 0, key, value) || holds(pages2, rid, 0, key, value),
        forall|k: i64, r: RowRef| #[trigger]
            holds(pages2, id, 0, k, r) ==> holds(pages0, id, 0, k, r) || (k == key && r == value),
        forall|k: i64, r: RowRef| #[trigger]
            holds(pages2, rid, 0, k, r) ==> holds(pages0, id, 0, k, r) || (k == key && r == value),
        forall|k: i64, r: RowRef| #[trigger]
            holds(pages0, id, 0, k, r) ==> holds(pages2, id, 0, k, r) || holds(pages2, rid, 0, k, r),
{
    let es = leaf_entries(pages0[id]);
    let m = es.insert(idx, (key, value));
    let mid = leaf_split_point();
    let left = leaf_entries(pages2[id]);
    let right = leaf_entries(pages2[rid]);
    assert(holds(pages2, id, 0, key, value) || holds(pages2, rid, 0, key, value)) by {
        if idx < mid {
            assert(left[idx] == (key, value));
        } else {
            assert(right[idx - mid] == (key, value));
        }
    }
    assert forall|k: i64, r: RowRef| #[trigger] holds(pages2, id, 0, k, r) implies holds(
        pages0,
        id,
        0,
        k,
        r,
    ) || (k == key && r == value) by {
        let i = choose|i: int| 0 <= i < left.len() && #[trigger] left[i] == (k, r);
        assert(left[i] == m[i]);
        if i < idx {
            assert(es[i] == (k, r));
        } else if i > idx {
            assert(es[i - 1] == (k, r));
        }
    }
    assert forall|k: i64, r: RowRef| #[trigger] holds(pages2, rid, 0, k, r) implies holds(
        pages0,
        id,
        0,
        k,
        r,
    ) || (k == key && r == value) by {
        let i = choose|i: int| 0 <= i < right.len() && #[trigger] right[i] == (k, r);
        assert(right[i] == m[mid + i]);
        if mid + i < idx {
            assert(es[mid + i] == (k, r));
        } else if mid + i > idx {
            assert(es[mid + i - 1] == (k, r));
        }
    }
    assert forall|k: i64, r: RowRef| #[trigger] holds(pages0, id, 0, k, r) implies holds(
        pages2,
        id,
        0,
        k,
        r,
    ) || holds(pages2, rid, 0, k, r) by {
        let j = choose|j: int| 0 <= j < es.len() && #[trigger] es[j] == (k, r);
        let i = if j < idx {
            j
        } else {
            j + 1
        };
        assert(m[i] == (k, r));
        if i < mid {
            assert(left[i] == (k, r));
        } else {
            assert(right[i - mid] == (k, r));
        }
    }
}

/// Two pages say the same as pages of the index.
pub open spec fn same_node(a: Seq<u8>, b: Seq<u8>) -> bool {
    &&& a.len() == b.len()
    &&& magic_of(a) == magic_of(b)
    &&& flags_of(a) == flags_of(b)
    &&& flags_of(a) == PageFlags::Leaf.spec_code() ==> leaf_len_of(a) == leaf_len_of(b)
        && leaf_entries(a) == leaf_entries(b) && leaf_next_of(a) == leaf_next_of(b)
    &&& flags_of(a) == PageFlags::Internal.spec_code() ==> internal_len_of(a) == internal_len_of(b)
        && internal_keys(a) == internal_keys(b) && internal_children(a) == internal_children(b)
}

/// A copy of a subtree's top page at another place is the top of a
/// subtree that holds the same.
pub proof fn lemma_moved(
    pages2: Seq<Seq<u8>>,
    pages3: Seq<Seq<u8>>,
    a: int,
    b: int,
    h: nat,
    lo: int,
    hi: int,
)
    requires
        subtree_wf(pages2, a, h, lo, hi),
        pages2.len() <= pages3.len(),
        0 <= b < pages3.len(),
        page_id_of(pages3[b]) == b,
        same_node(pages2[a], pages3[b]),
        !owns(pages2, a, h, b),
        forall|q: int| owns(pages2, a, h, q) && q != a ==> pages3[q] == pages2[q],
    ensures
        subtree_wf(pages3, b, h, lo, hi),
        forall|k: i64, r: RowRef| #[trigger] holds(pages3, b, h, k, r) <==> holds(pages2, a, h, k, r),
        forall|q: int| #[trigger] owns(pages3, b, h, q) <==> q == b || (owns(pages2, a, h, q) && q != a),
{
    if h == 0 {
    } else {
        let keys = internal_keys(pages2[a]);
        let kids = internal_children(pages2[a]);
        let g = (h - 1) as nat;
        lemma_kids_of_node(pages2, a, h, lo, hi);
        assert forall|q: int| #[trigger] kids_own(pages2, kids, g, q) implies pages3[q] == pages2[q] && q
            != b by {
            assert(owns(pages2, a, h, q));
        }
        lemma_half_written(pages2, pages3, keys, kids, g, lo, hi, b, h);
        assert forall|k: i64, r: RowRef| #[trigger] holds(pages3, b, h, k, r) <==> holds(
            pages2,
            a,
            h,
            k,
            r,
        ) by {
            assert(holds(pages2, a, h, k, r) <==> kids_hold(pages2, kids, g, k, r));
        }
        assert forall|q: int| #[trigger]
            owns(pages3, b, h, q) <==> q == b || (owns(pages2, a, h, q) && q != a) by {
            assert(owns(pages2, a, h, q) <==> q == a || kids_own(pages2, kids, g, q));
        }
    }
}

/// After a split that reached the root: a copy of the old root at a new
/// page and a new root over that copy and the split's new page make a
/// tree one level higher that holds the same.
pub proof fn lemma_root_split(
    pages2: Seq<Seq<u8>>,
    pages3: Seq<Seq<u8>>,
    h: nat,
    sk: i64,
    sp: PageId,
    left_id: PageId,
)
    requires
        subtree_wf(pages2, 0, h, key_floor(), sk as int),
        subtree_wf(pages2, sp as int, h, sk as int, key_ceiling()),
        apart(pages2, 0, sp as int, h),
        key_floor() < sk,
        pages3.len() == pages2.len() + 1,
        left_id == pages2.len(),
        forall|q: int| 0 < q < pages2.len() ==> pages3[q] == pages2[q],
        same_node(pages2[0], pages3[left_id as int]),
        page_id_of(pages3[0]) == 0,
        page_id_of(pages3[left_id as int]) == left_id,
        is_tree_page(pages3[0], PageFlags::Internal),
        internal_keys(pages3[0]) == seq![sk],
        internal_children(pages3[0]) == seq![left_id, sp],
    ensures
        is_tree(pages3, h + 1),
        forall|k: i64, r: RowRef| #[trigger]
            holds(pages3, 0, h + 1, k, r) <==> holds(pages2, 0, h, k, r) || holds(pages2, sp as int, h, k, r),
{
    let lid = left_id as int;
    let rid = sp as int;
    let keys = internal_keys(pages3[0]);
    let kids = internal_children(pages3[0]);
    assert(owns(pages2, 0, h, 0));
    assert(!owns(pages2, rid, h, 0));
    assert forall|q: int| owns(pages2, 0, h, q) implies 0 <= q < pages2.len() by {
        lemma_owns_bound(pages2, 0, h, key_floor(), sk as int, q);
    }
    assert forall|q: int| owns(pages2, rid, h, q) implies 0 < q < pages2.len() by {
        lemma_owns_bound(pages2, rid, h, sk as int, key_ceiling(), q);
    }
    lemma_moved(pages2, pages3, 0, lid, h, key_floor(), sk as int);
    lemma_frame(pages2, pages3, rid, h, sk as int, key_ceiling());
    assert(kids[0] == left_id && kids[1] == sp);
    assert(keys[0] == sk);
    assert forall|c: int| 0 <= c < kids.len() implies subtree_wf(
        pages3,
        (#[trigger] kids[c]) as int,
        h,
        range_lo(keys, key_floor(), c),
        range_hi(keys, key_ceiling(), c),
    ) by {
        if c == 0 {
        } else {
            assert(c == 1);
        }
    }
    assert forall|c1: int, c2: int| 0 <= c1 < c2 < kids.len() implies apart(
        pages3,
        (#[trigger] kids[c1]) as int,
        (#[trigger] kids[c2]) as int,
        h,
    ) by {
        assert(c1 == 0 && c2 == 1);
        assert forall|q: int| !(owns(pages3, lid, h, q) && owns(pages3, rid, h, q)) by {
            if owns(pages3, lid, h, q) && owns(pages3, rid, h, q) {
                assert(owns(pages2, rid, h, q));
            }
        }
    }
    assert(kids_wf(pages3, keys, kids, h, key_floor(), key_ceiling()));
    assert(!kids_own(pages3, kids, h, 0)) by {
        if kids_own(pages3, kids, h, 0) {
            let c = choose|c: int| 0 <= c < kids.len() && owns(pages3, (#[trigger] kids[c]) as int, h, 0);
            if c == 0 {
                assert(owns(pages3, lid, h, 0));
            } else {
                assert(owns(pages3, rid, h, 0));
                assert(owns(pages2, rid, h, 0));
            }
        }
    }
    assert(internal_len_of(pages3[0]) == keys.len());
    lemma_node_of_kids(pages3, 0, h + 1, key_floor(), key_ceiling());
    assert forall|k: i64, r: RowRef| #[trigger]
        holds(pages3, 0, h + 1, k, r) <==> holds(pages2, 0, h, k, r) || holds(pages2, rid, h, k, r) by {
        assert(holds(pages3, 0, h + 1, k, r) <==> kids_hold(pages3, kids, h, k, r));
        if kids_hold(pages3, kids, h, k, r) {
            let c = choose|c: int| 0 <= c < kids.len() && holds(pages3, (#[trigger] kids[c]) as int, h, k, r);
            if c == 0 {
                assert(holds(pages3, lid, h, k, r));
            } else {
                assert(holds(pages3, rid, h, k, r));
            }
        }
        if holds(pages2, 0, h, k, r) {
            assert(holds(pages3, kids[0] as int, h, k, r));
        }
        if holds(pages2, rid, h, k, r) {
            assert(holds(pages3, kids[1] as int, h, k, r));
        }
    }
}

/// A tree that holds what another tree holds and one entry more, under
/// a key that the other lacks, holds the other's map with the entry
/// added.
pub proof fn lemma_map_inserted(
    pages0: Seq<Seq<u8>>,
    pages2: Seq<Seq<u8>>,
    h1: nat,
    h2: nat,
    key: i64,
    value: RowRef,
)
    requires
        is_tree(pages0, h1),
        is_tree(pages2, h2),
        forall|r: RowRef| !holds(pages0, 0, h1, key, r),
        forall|k: i64, r: RowRef|
            holds(pages2, 0, h2, k, r) <==> holds(pages0, 0, h1, k, r) || (k == key && r == value),
    ensures
        !tree_map(pages0).contains_key(key),
        tree_map(pages2) == tree_map(pages0).insert(key, value),
{
    lemma_tree_map(pages0, h1);
    lemma_tree_map(pages2, h2);
    let m1 = tree_map(pages0);
    let m2 = tree_map(pages2);
    if m1.contains_key(key) {
        assert(holds(pages0, 0, h1, key, m1[key]));
    }
    assert forall|k: i64| m2.contains_key(k) <==> m1.insert(key, value).contains_key(k) by {
        if m2.contains_key(k) {
            assert(holds(pages2, 0, h2, k, m2[k]));
        }
        if m1.contains_key(k) {
            assert(holds(pages0, 0, h1, k, m1[k]));
            assert(holds(pages2, 0, h2, k, m1[k]));
        }
        if k == key {
            assert(holds(pages2, 0, h2, key, value));
        }
    }
    assert forall|k: i64| m2.contains_key(k) implies m2[k] == m1.insert(key, value)[k] by {
        assert(holds(pages2, 0, h2, k, m2[k]));
        if k != key {
            assert(holds(pages0, 0, h1, k, m2[k]));
        }
    }
    assert(m2 =~= m1.insert(key, value));
}

/// `c` is the child under which `key` belongs: the keys before place
/// `c` are not above the key, and the key at place `c` is.
pub open spec fn is_child_for(keys: Seq<i64>, key: i64, c: int) -> bool {
    &&& 0 <= c <= keys.len()
    &&& c > 0 ==> keys[c - 1] <= key
    &&& c < keys.len() ==> key < keys[c]
}

/// The child under which `key` belongs.
pub open spec fn child_for(keys: Seq<i64>, key: i64) -> int {
    choose|c: int| is_child_for(keys, key, c)
}

/// Among ascending keys there is one child only under which a key
/// belongs.
pub proof fn lemma_child_for(keys: Seq<i64>, key: i64, c: int)
    requires
        ascending(keys),
        is_child_for(keys, key, c),
    ensures
        child_for(keys, key) == c,
{
    let d = child_for(keys, key);
    if d < c {
        if d < c - 1 {
            assert(keys[d] < keys[c - 1]);
        }
    }
    if c < d {
        if c < d - 1 {
            assert(keys[c] < keys[d - 1]);
        }
    }
}

/// An insertion of `key` below the subtree parts the subtree's top page:
/// the leaf that takes the key is full, and so is every page from there
/// up to the top page.
pub open spec fn parts(pages: Seq<Seq<u8>>, id: int, h: nat, key: i64) -> bool
    decreases h,
{
    if h == 0 {
        leaf_len_of(pages[id]) == leaf_max_entries()
    } else {
        internal_len_of(pages[id]) == internal_max_keys() && parts(
            pages,
            child_at(pages[id], child_for(internal_keys(pages[id]), key)),
            (h - 1) as nat,
            key,
        )
    }
}

/// The number of pages that an insertion of `key` below the subtree adds
/// to the file: one for each page that it parts.
pub open spec fn added(pages: Seq<Seq<u8>>, id: int, h: nat, key: i64) -> nat
    decreases h,
{
    if h == 0 {
        if parts(pages, id, h, key) {
            1
        } else {
            0
        }
    } else {
        added(
            pages,
            child_at(pages[id], child_for(internal_keys(pages[id]), key)),
            (h - 1) as nat,
            key,
        ) + if parts(pages, id, h, key) {
            1nat
        } else {
            0nat
        }
    }
}

/// An insertion has parted exactly the pages that were full on the
/// key's way down, and has added one page for each.
pub open spec fn grown_where_full(
    pages0: Seq<Seq<u8>>,
    pages2: Seq<Seq<u8>>,
    id: int,
    h: nat,
    key: i64,
    split: Option<(i64, PageId)>,
) -> bool {
    &&& split is Some <==> parts(pages0, id, h, key)
    &&& pages2.len() == pages0.len() + added(pages0, id, h, key)
    &&& split matches Some((_, sp)) ==> sp == pages2.len() - 1
}

/// The place of `key` among the entries.
pub open spec fn place_of(es: Seq<(i64, RowRef)>, key: i64) -> int {
    choose|idx: int| is_place_of(es, idx, key)
}

/// Among ascending entries a key has one place only.
pub proof fn lemma_place_of(es: Seq<(i64, RowRef)>, key: i64, idx: int)
    requires
        is_place_of(es, idx, key),
    ensures
        place_of(es, key) == idx,
{
    let d = place_of(es, key);
    if d < idx {
        assert(es[d].0 < key);
    }
    if idx < d {
        assert(es[idx].0 < key);
    }
}

/// What an insertion into the leaf at page `id` has written.
///
/// Where the leaf had room, it holds the entry at the place of its key
/// and no other page has changed. Where the leaf was full, its entries
/// with the new one among them are cut at the middle: the leaf keeps the
/// lower part and names the new page `sp` as its successor; `sp`, the
/// one page added, holds the upper part and names the leaf's old
/// successor; `sk` is the first key of the upper part.
pub open spec fn leaf_written(
    pages0: Seq<Seq<u8>>,
    pages2: Seq<Seq<u8>>,
    id: int,
    key: i64,
    value: RowRef,
    split: Option<(i64, PageId)>,
) -> bool {
    let es = leaf_entries(pages0[id]);
    let merged = es.insert(place_of(es, key), (key, value));
    &&& forall|q: int| 0 <= q < pages0.len() && q != id ==> #[trigger] pages2[q] == pages0[q]
    &&& same_header(pages0[id], pages2[id])
    &&& match split {
        None => {
            &&& pages2.len() == pages0.len()
            &&& leaf_next_of(pages2[id]) == leaf_next_of(pages0[id])
            &&& leaf_entries(pages2[id]) == merged
        },
        Some((sk, sp)) => {
            &&& pages2.len() == pages0.len() + 1
            &&& sp == pages0.len()
            &&& is_tree_page(pages2[sp as int], PageFlags::Leaf)
            &&& page_id_of(pages2[sp as int]) == sp
            &&& leaf_entries(pages2[id]) == merged.subrange(0, leaf_split_point())
            &&& leaf_entries(pages2[sp as int]) == merged.subrange(
                leaf_split_point(),
                leaf_max_entries() + 1,
            )
            &&& sk == merged[leaf_split_point()].0
            &&& leaf_next_of(pages2[id]) == sp
            &&& leaf_next_of(pages2[sp as int]) == leaf_next_of(pages0[id])
        },
    }
}

/// Page 0 is a new root over a root that was parted: an internal page
/// with one key, whose left child is the copy of the old root, the last
/// page of the file, and whose right child is the page that the split
/// of the old root added, the last but one.
pub open spec fn root_parted(pages: Seq<Seq<u8>>) -> bool {
    &&& pages.len() >= 3
    &&& is_tree_page(pages[0], PageFlags::Internal)
    &&& page_id_of(pages[0]) == 0
    &&& internal_len_of(pages[0]) == 1
    &&& internal_children(pages[0]) == seq![
        (pages.len() - 1) as PageId,
        (pages.len() - 2) as PageId,
    ]
}

/// What an insertion into a tree that is one leaf has made of the file.
///
/// Where the leaf had room, page 0 holds the entry at the place of its
/// key and nothing else has changed. Where it was full, two pages were
/// added: the last holds the lower half of the entries, the last but one
/// the upper half, and page 0 is the new root over the two, with the
/// first key of the upper half as its key.
pub open spec fn root_leaf_grown(
    pages0: Seq<Seq<u8>>,
    pages3: Seq<Seq<u8>>,
    key: i64,
    value: RowRef,
) -> bool {
    let es = leaf_entries(pages0[0]);
    let merged = es.insert(place_of(es, key), (key, value));
    let n = pages0.len() as int;
    if es.len() < leaf_max_entries() {
        leaf_written(pages0, pages3, 0, key, value, None)
    } else {
        &&& pages3.len() == n + 2
        &&& forall|q: int| 0 < q < n ==> #[trigger] pages3[q] == pages0[q]
        &&& root_parted(pages3)
        &&& internal_keys(pages3[0]) == seq![merged[leaf_split_point()].0]
        &&& is_tree_page(pages3[n + 1], PageFlags::Leaf)
        &&& is_tree_page(pages3[n], PageFlags::Leaf)
        &&& page_id_of(pages3[n + 1]) == n + 1
        &&& page_id_of(pages3[n]) == n
        &&& leaf_entries(pages3[n + 1]) == merged.subrange(0, leaf_split_point())
        &&& leaf_entries(pages3[n]) == merged.subrange(leaf_split_point(), leaf_max_entries() + 1)
        &&& leaf_next_of(pages3[n + 1]) == n
        &&& leaf_next_of(pages3[n]) == leaf_next_of(pages0[0])
    }
}

} // verus!
