//! The chain of leaves: every leaf names the leaf with the next greater
//! keys in its `next_leaf` field, and the last leaf names page 0, which
//! is the root and so never a leaf's successor.

use super::btree::RowRef;
use super::grow::{grown_by, same_node};
use super::heap::PageId;
use super::kids::{
    kids_own, kids_wf, lemma_kids_child_split, lemma_kids_cut, lemma_kids_of_node,
    lemma_siblings_kept,
};
use super::node::{
    internal_children, internal_keys, internal_len_of, internal_max_keys, internal_split_point,
    leaf_next_of,
};
use super::tree::{
    apart, child_at, is_tree, key_ceiling, key_floor, lemma_owns_bound, owns, range_hi, range_lo,
    subtree_wf,
};
use vstd::prelude::*;

verus! {

/// The leaf with the smallest keys of a subtree.
pub open spec fn first_leaf(pages: Seq<Seq<u8>>, id: int, h: nat) -> int
    decreases h,
{
    if h == 0 {
        id
    } else {
        first_leaf(pages, child_at(pages[id], 0), (h - 1) as nat)
    }
}

/// What the last leaf under child `c` names as its successor: the first
/// leaf under the next child, or `tail` behind the last child.
#[verifier::opaque]
pub open spec fn next_start(pages: Seq<Seq<u8>>, kids: Seq<PageId>, g: nat, tail: int, c: int) -> int {
    if c + 1 < kids.len() {
        first_leaf(pages, kids[c + 1] as int, g)
    } else {
        tail
    }
}

/// `next_start`, spelled out for one child.
pub proof fn lemma_next_start(pages: Seq<Seq<u8>>, kids: Seq<PageId>, g: nat, tail: int, c: int)
    ensures
        next_start(pages, kids, g, tail, c) == if c + 1 < kids.len() {
            first_leaf(pages, kids[c + 1] as int, g)
        } else {
            tail
        },
{
    reveal(next_start);
}

/// The leaves of the subtree are chained in key order, and the last of
/// them names `tail`.
pub open spec fn chained(pages: Seq<Seq<u8>>, id: int, h: nat, tail: int) -> bool
    decreases h,
{
    &&& 0 <= id < pages.len()
    &&& if h == 0 {
        leaf_next_of(pages[id]) == tail
    } else {
        forall|c: int|
            0 <= c < internal_children(pages[id]).len() ==> chained(
                pages,
                #[trigger] child_at(pages[id], c),
                (h - 1) as nat,
                next_start(pages, internal_children(pages[id]), (h - 1) as nat, tail, c),
            )
    }
}

/// The leaves under the children are chained in key order, and the last
/// of them names `tail`.
pub open spec fn kids_chained(pages: Seq<Seq<u8>>, kids: Seq<PageId>, g: nat, tail: int) -> bool {
    forall|c: int|
        0 <= c < kids.len() ==> chained(
            pages,
            (#[trigger] kids[c]) as int,
            g,
            next_start(pages, kids, g, tail, c),
        )
}

/// What an insertion below a subtree has made of the chain: the first
/// leaf is the one it was; without a split the chain still ends in
/// `tail`; with a split the old subtree's chain leads into the new
/// page's, which ends in `tail`.
pub open spec fn rechained(
    pages0: Seq<Seq<u8>>,
    pages2: Seq<Seq<u8>>,
    id: int,
    h: nat,
    tail: int,
    split: Option<(i64, PageId)>,
) -> bool {
    &&& first_leaf(pages2, id, h) == first_leaf(pages0, id, h)
    &&& match split {
        None => chained(pages2, id, h, tail),
        Some((_, sp)) => chained(pages2, id, h, first_leaf(pages2, sp as int, h)) && chained(
            pages2,
            sp as int,
            h,
            tail,
        ),
    }
}

/// The chain of an internal page's subtree, seen from its children.
pub proof fn lemma_chain_of_node(pages: Seq<Seq<u8>>, id: int, h: nat, tail: int)
    requires
        h > 0,
        0 <= id < pages.len(),
    ensures
        chained(pages, id, h, tail) <==> kids_chained(
            pages,
            internal_children(pages[id]),
            (h - 1) as nat,
            tail,
        ),
        first_leaf(pages, id, h) == first_leaf(
            pages,
            internal_children(pages[id])[0] as int,
            (h - 1) as nat,
        ),
{
    let b = pages[id];
    let kids = internal_children(b);
    let g = (h - 1) as nat;
    assert(kids[0] as int == child_at(b, 0));
    if chained(pages, id, h, tail) {
        assert forall|c: int| 0 <= c < kids.len() implies chained(
            pages,
            (#[trigger] kids[c]) as int,
            g,
            next_start(pages, kids, g, tail, c),
        ) by {
            assert(kids[c] as int == child_at(b, c));
        }
    }
    if kids_chained(pages, kids, g, tail) {
        assert forall|c: int| 0 <= c < kids.len() implies chained(
            pages,
            #[trigger] child_at(b, c),
            g,
            next_start(pages, kids, g, tail, c),
        ) by {
            assert(kids[c] as int == child_at(b, c));
        }
    }
}

/// A subtree's chain is the same in two files that agree on the
/// subtree's pages.
pub proof fn lemma_chain_frame(
    pages0: Seq<Seq<u8>>,
    pages2: Seq<Seq<u8>>,
    id: int,
    h: nat,
    lo: int,
    hi: int,
    tail: int,
)
    requires
        subtree_wf(pages0, id, h, lo, hi),
        pages0.len() <= pages2.len(),
        forall|q: int| owns(pages0, id, h, q) ==> pages2[q] == pages0[q],
    ensures
        first_leaf(pages2, id, h) == first_leaf(pages0, id, h),
        chained(pages0, id, h, tail) ==> chained(pages2, id, h, tail),
    decreases h,
{
    assert(owns(pages0, id, h, id));
    if h > 0 {
        let b = pages0[id];
        let kids = internal_children(b);
        let keys = internal_keys(b);
        let g = (h - 1) as nat;
        assert forall|c: int| 0 <= c < kids.len() implies first_leaf(
            pages2,
            #[trigger] child_at(b, c),
            g,
        ) == first_leaf(pages0, child_at(b, c), g) && (chained(
            pages0,
            child_at(b, c),
            g,
            next_start(pages0, kids, g, tail, c),
        ) ==> chained(pages2, child_at(b, c), g, next_start(pages0, kids, g, tail, c))) by {
            assert forall|q: int| owns(pages0, child_at(b, c), g, q) implies pages2[q] == pages0[q] by {
                assert(owns(pages0, id, h, q));
            }
            lemma_chain_frame(
                pages0,
                pages2,
                child_at(b, c),
                g,
                range_lo(keys, lo, c),
                range_hi(keys, hi, c),
                next_start(pages0, kids, g, tail, c),
            );
        }
        if chained(pages0, id, h, tail) {
            assert forall|c: int| 0 <= c < kids.len() implies chained(
                pages2,
                #[trigger] child_at(b, c),
                g,
                next_start(pages2, kids, g, tail, c),
            ) by {
                lemma_next_start(pages0, kids, g, tail, c);
                lemma_next_start(pages2, kids, g, tail, c);
                if c + 1 < kids.len() {
                    assert(kids[c + 1] as int == child_at(b, c + 1));
                }
                assert(next_start(pages2, kids, g, tail, c) == next_start(pages0, kids, g, tail, c));
            }
        }
    }
}

/// The chain under children is the same in two files that agree on the
/// children's pages.
pub proof fn lemma_kids_chain_frame(
    pages0: Seq<Seq<u8>>,
    pages2: Seq<Seq<u8>>,
    keys: Seq<i64>,
    kids: Seq<PageId>,
    g: nat,
    lo: int,
    hi: int,
    tail: int,
)
    requires
        kids_wf(pages0, keys, kids, g, lo, hi),
        pages0.len() <= pages2.len(),
        forall|q: int| #[trigger] kids_own(pages0, kids, g, q) ==> pages2[q] == pages0[q],
    ensures
        forall|c: int|
            0 <= c < kids.len() ==> first_leaf(pages2, (#[trigger] kids[c]) as int, g) == first_leaf(
                pages0,
                kids[c] as int,
                g,
            ),
        kids_chained(pages0, kids, g, tail) ==> kids_chained(pages2, kids, g, tail),
{
    assert forall|c: int| 0 <= c < kids.len() implies first_leaf(
        pages2,
        (#[trigger] kids[c]) as int,
        g,
    ) == first_leaf(pages0, kids[c] as int, g) && (chained(
        pages0,
        kids[c] as int,
        g,
        next_start(pages0, kids, g, tail, c),
    ) ==> chained(pages2, kids[c] as int, g, next_start(pages0, kids, g, tail, c))) by {
        assert forall|q: int| owns(pages0, kids[c] as int, g, q) implies pages2[q] == pages0[q] by {
            assert(kids_own(pages0, kids, g, q));
        }
        lemma_chain_frame(
            pages0,
            pages2,
            kids[c] as int,
            g,
            range_lo(keys, lo, c),
            range_hi(keys, hi, c),
            next_start(pages0, kids, g, tail, c),
        );
    }
    if kids_chained(pages0, kids, g, tail) {
        assert forall|c: int| 0 <= c < kids.len() implies chained(
            pages2,
            (#[trigger] kids[c]) as int,
            g,
            next_start(pages2, kids, g, tail, c),
        ) by {
            lemma_next_start(pages0, kids, g, tail, c);
            lemma_next_start(pages2, kids, g, tail, c);
            if c + 1 < kids.len() {
                assert(first_leaf(pages2, kids[c + 1] as int, g) == first_leaf(
                    pages0,
                    kids[c + 1] as int,
                    g,
                ));
            }
            assert(next_start(pages2, kids, g, tail, c) == next_start(pages0, kids, g, tail, c));
        }
    }
}

/// An insertion below child `c` that did not part the child leaves the
/// chain under the children as it was.
pub proof fn lemma_kids_chain_grown(
    pages0: Seq<Seq<u8>>,
    pages1: Seq<Seq<u8>>,
    keys: Seq<i64>,
    kids: Seq<PageId>,
    g: nat,
    lo: int,
    hi: int,
    tail: int,
    c: int,
    key: i64,
    value: RowRef,
)
    requires
        kids_wf(pages0, keys, kids, g, lo, hi),
        kids_chained(pages0, kids, g, tail),
        0 <= c < kids.len(),
        grown_by(
            pages0,
            pages1,
            kids[c] as int,
            g,
            range_lo(keys, lo, c),
            range_hi(keys, hi, c),
            key,
            value,
            None,
        ),
        rechained(pages0, pages1, kids[c] as int, g, next_start(pages0, kids, g, tail, c), None),
    ensures
        kids_chained(pages1, kids, g, tail),
        forall|j: int|
            0 <= j < kids.len() ==> first_leaf(pages1, (#[trigger] kids[j]) as int, g) == first_leaf(
                pages0,
                kids[j] as int,
                g,
            ),
{
    lemma_siblings_kept(pages0, pages1, keys, kids, g, lo, hi, c);
    assert forall|j: int| 0 <= j < kids.len() implies first_leaf(
        pages1,
        (#[trigger] kids[j]) as int,
        g,
    ) == first_leaf(pages0, kids[j] as int, g) && chained(
        pages1,
        kids[j] as int,
        g,
        next_start(pages0, kids, g, tail, j),
    ) by {
        if j != c {
            assert forall|q: int| owns(pages0, kids[j] as int, g, q) implies pages1[q] == pages0[q] by {}
            lemma_chain_frame(
                pages0,
                pages1,
                kids[j] as int,
                g,
                range_lo(keys, lo, j),
                range_hi(keys, hi, j),
                next_start(pages0, kids, g, tail, j),
            );
        }
    }
    assert forall|j: int| 0 <= j < kids.len() implies chained(
        pages1,
        (#[trigger] kids[j]) as int,
        g,
        next_start(pages1, kids, g, tail, j),
    ) by {
        lemma_next_start(pages0, kids, g, tail, j);
        lemma_next_start(pages1, kids, g, tail, j);
        if j + 1 < kids.len() {
            assert(first_leaf(pages1, kids[j + 1] as int, g) == first_leaf(pages0, kids[j + 1] as int, g));
        }
        assert(next_start(pages1, kids, g, tail, j) == next_start(pages0, kids, g, tail, j));
    }
}

/// An insertion below child `c` that parted the child leaves the leaves
/// chained once the new page stands behind child `c`.
pub proof fn lemma_kids_chain_split(
    pages0: Seq<Seq<u8>>,
    pages1: Seq<Seq<u8>>,
    keys: Seq<i64>,
    kids: Seq<PageId>,
    g: nat,
    lo: int,
    hi: int,
    tail: int,
    c: int,
    key: i64,
    value: RowRef,
    sk: i64,
    sp: PageId,
)
    requires
        kids_wf(pages0, keys, kids, g, lo, hi),
        kids_chained(pages0, kids, g, tail),
        0 <= c < kids.len(),
        grown_by(
            pages0,
            pages1,
            kids[c] as int,
            g,
            range_lo(keys, lo, c),
            range_hi(keys, hi, c),
            key,
            value,
            Some((sk, sp)),
        ),
        rechained(pages0, pages1, kids[c] as int, g, next_start(pages0, kids, g, tail, c), Some((sk, sp))),
    ensures
        kids_chained(pages1, kids.insert(c + 1, sp), g, tail),
        first_leaf(pages1, kids.insert(c + 1, sp)[0] as int, g) == first_leaf(pages0, kids[0] as int, g),
{
    lemma_siblings_kept(pages0, pages1, keys, kids, g, lo, hi, c);
    let kids2 = kids.insert(c + 1, sp);
    assert forall|j: int| 0 <= j < kids2.len() implies kids2[j] == (if j <= c {
        kids[j]
    } else if j == c + 1 {
        sp
    } else {
        kids[j - 1]
    }) by {}
    assert forall|j: int| 0 <= j < kids.len() implies first_leaf(
        pages1,
        (#[trigger] kids[j]) as int,
        g,
    ) == first_leaf(pages0, kids[j] as int, g) && (j != c ==> chained(
        pages1,
        kids[j] as int,
        g,
        next_start(pages0, kids, g, tail, j),
    )) by {
        if j != c {
            assert forall|q: int| owns(pages0, kids[j] as int, g, q) implies pages1[q] == pages0[q] by {}
            lemma_chain_frame(
                pages0,
                pages1,
                kids[j] as int,
                g,
                range_lo(keys, lo, j),
                range_hi(keys, hi, j),
                next_start(pages0, kids, g, tail, j),
            );
        }
    }
    assert forall|j: int| 0 <= j < kids2.len() implies chained(
        pages1,
        (#[trigger] kids2[j]) as int,
        g,
        next_start(pages1, kids2, g, tail, j),
    ) by {
        lemma_next_start(pages1, kids2, g, tail, j);
        if j < c {
            lemma_next_start(pages0, kids, g, tail, j);
            assert(kids2[j] == kids[j]);
            assert(kids2[j + 1] == kids[j + 1]);
            assert(first_leaf(pages1, kids[j + 1] as int, g) == first_leaf(pages0, kids[j + 1] as int, g));
            assert(next_start(pages1, kids2, g, tail, j) == next_start(pages0, kids, g, tail, j));
            assert(chained(pages1, kids[j] as int, g, next_start(pages0, kids, g, tail, j)));
        } else if j == c {
            assert(kids2[c + 1] == sp);
            assert(next_start(pages1, kids2, g, tail, j) == first_leaf(pages1, sp as int, g));
        } else if j == c + 1 {
            lemma_next_start(pages0, kids, g, tail, c);
            if c + 1 < kids.len() {
                assert(kids2[c + 2] == kids[c + 1]);
                assert(first_leaf(pages1, kids[c + 1] as int, g) == first_leaf(
                    pages0,
                    kids[c + 1] as int,
                    g,
                ));
            }
            assert(next_start(pages1, kids2, g, tail, j) == next_start(pages0, kids, g, tail, c));
        } else {
            lemma_next_start(pages0, kids, g, tail, j - 1);
            assert(kids2[j] == kids[j - 1]);
            if j + 1 < kids2.len() {
                assert(kids2[j + 1] == kids[j]);
                assert(first_leaf(pages1, kids[j] as int, g) == first_leaf(pages0, kids[j] as int, g));
            }
            assert(next_start(pages1, kids2, g, tail, j) == next_start(pages0, kids, g, tail, j - 1));
            assert(chained(pages1, kids[j - 1] as int, g, next_start(pages0, kids, g, tail, j - 1)));
        }
    }
    assert(kids2[0] == kids[0]);
    assert(first_leaf(pages1, kids[0] as int, g) == first_leaf(pages0, kids[0] as int, g));
}

/// Chained children, cut behind child `mid`, are chained on both sides:
/// the lower part leads into the first leaf of the upper part.
pub proof fn lemma_kids_chain_cut(
    pages: Seq<Seq<u8>>,
    kids: Seq<PageId>,
    g: nat,
    tail: int,
    mid: int,
)
    requires
        kids_chained(pages, kids, g, tail),
        0 <= mid,
        mid + 1 < kids.len(),
    ensures
        kids_chained(
            pages,
            kids.subrange(0, mid + 1),
            g,
            first_leaf(pages, kids[mid + 1] as int, g),
        ),
        kids_chained(pages, kids.subrange(mid + 1, kids.len() as int), g, tail),
{
    let lc = kids.subrange(0, mid + 1);
    let rc = kids.subrange(mid + 1, kids.len() as int);
    let between = first_leaf(pages, kids[mid + 1] as int, g);
    assert forall|c: int| 0 <= c < lc.len() implies chained(
        pages,
        (#[trigger] lc[c]) as int,
        g,
        next_start(pages, lc, g, between, c),
    ) by {
        lemma_next_start(pages, lc, g, between, c);
        lemma_next_start(pages, kids, g, tail, c);
        assert(lc[c] == kids[c]);
        if c + 1 < lc.len() {
            assert(lc[c + 1] == kids[c + 1]);
        }
        assert(next_start(pages, lc, g, between, c) == next_start(pages, kids, g, tail, c));
        assert(chained(pages, kids[c] as int, g, next_start(pages, kids, g, tail, c)));
    }
    assert forall|c: int| 0 <= c < rc.len() implies chained(
        pages,
        (#[trigger] rc[c]) as int,
        g,
        next_start(pages, rc, g, tail, c),
    ) by {
        lemma_next_start(pages, rc, g, tail, c);
        lemma_next_start(pages, kids, g, tail, mid + 1 + c);
        assert(rc[c] == kids[mid + 1 + c]);
        if c + 1 < rc.len() {
            assert(rc[c + 1] == kids[mid + 1 + c + 1]);
        }
        assert(next_start(pages, rc, g, tail, c) == next_start(
            pages,
            kids,
            g,
            tail,
            mid + 1 + c,
        ));
        assert(chained(
            pages,
            kids[mid + 1 + c] as int,
            g,
            next_start(pages, kids, g, tail, mid + 1 + c),
        ));
    }
}

/// An insertion below child `c` of a page that did not part the child
/// leaves the page's chain as it was.
pub proof fn lemma_node_chain_grown(
    pages0: Seq<Seq<u8>>,
    pages1: Seq<Seq<u8>>,
    id: int,
    h: nat,
    lo: int,
    hi: int,
    tail: int,
    c: int,
    key: i64,
    value: RowRef,
)
    requires
        h > 0,
        subtree_wf(pages0, id, h, lo, hi),
        chained(pages0, id, h, tail),
        0 <= c < internal_children(pages0[id]).len(),
        grown_by(
            pages0,
            pages1,
            child_at(pages0[id], c),
            (h - 1) as nat,
            range_lo(internal_keys(pages0[id]), lo, c),
            range_hi(internal_keys(pages0[id]), hi, c),
            key,
            value,
            None,
        ),
        rechained(
            pages0,
            pages1,
            child_at(pages0[id], c),
            (h - 1) as nat,
            next_start(pages0, internal_children(pages0[id]), (h - 1) as nat, tail, c),
            None,
        ),
    ensures
        rechained(pages0, pages1, id, h, tail, None),
{
    let keys = internal_keys(pages0[id]);
    let kids = internal_children(pages0[id]);
    let g = (h - 1) as nat;
    lemma_kids_of_node(pages0, id, h, lo, hi);
    lemma_chain_of_node(pages0, id, h, tail);
    lemma_kids_chain_grown(pages0, pages1, keys, kids, g, lo, hi, tail, c, key, value);
    assert(!owns(pages0, kids[c] as int, g, id)) by {
        if owns(pages0, kids[c] as int, g, id) {
            assert(kids_own(pages0, kids, g, id));
        }
    }
    assert(pages1[id] == pages0[id]);
    lemma_chain_of_node(pages1, id, h, tail);
}

/// An insertion below child `c` that parted the child, followed by
/// writing the page with the new key and child in their places, leaves
/// the page's chain whole.
pub proof fn lemma_node_chain_absorbed(
    pages0: Seq<Seq<u8>>,
    pages1: Seq<Seq<u8>>,
    pages2: Seq<Seq<u8>>,
    id: int,
    h: nat,
    lo: int,
    hi: int,
    tail: int,
    c: int,
    key: i64,
    value: RowRef,
    sk: i64,
    sp: PageId,
)
    requires
        h > 0,
        subtree_wf(pages0, id, h, lo, hi),
        chained(pages0, id, h, tail),
        0 <= c < internal_children(pages0[id]).len(),
        grown_by(
            pages0,
            pages1,
            child_at(pages0[id], c),
            (h - 1) as nat,
            range_lo(internal_keys(pages0[id]), lo, c),
            range_hi(internal_keys(pages0[id]), hi, c),
            key,
            value,
            Some((sk, sp)),
        ),
        rechained(
            pages0,
            pages1,
            child_at(pages0[id], c),
            (h - 1) as nat,
            next_start(pages0, internal_children(pages0[id]), (h - 1) as nat, tail, c),
            Some((sk, sp)),
        ),
        pages2.len() == pages1.len(),
        forall|q: int| 0 <= q < pages1.len() && q != id ==> pages2[q] == pages1[q],
        internal_children(pages2[id]) == internal_children(pages0[id]).insert(c + 1, sp),
    ensures
        rechained(pages0, pages2, id, h, tail, None),
{
    let keys = internal_keys(pages0[id]);
    let kids = internal_children(pages0[id]);
    let keys2 = keys.insert(c, sk);
    let kids2 = kids.insert(c + 1, sp);
    let g = (h - 1) as nat;
    lemma_kids_of_node(pages0, id, h, lo, hi);
    lemma_chain_of_node(pages0, id, h, tail);
    lemma_kids_child_split(pages0, pages1, keys, kids, g, lo, hi, c, key, value, sk, sp);
    lemma_kids_chain_split(pages0, pages1, keys, kids, g, lo, hi, tail, c, key, value, sk, sp);
    assert forall|q: int| #[trigger] kids_own(pages1, kids2, g, q) implies pages2[q] == pages1[q] by {
        let j = choose|j: int| 0 <= j < kids2.len() && owns(pages1, (#[trigger] kids2[j]) as int, g, q);
        lemma_owns_bound(pages1, kids2[j] as int, g, range_lo(keys2, lo, j), range_hi(keys2, hi, j), q);
    }
    lemma_kids_chain_frame(pages1, pages2, keys2, kids2, g, lo, hi, tail);
    lemma_chain_of_node(pages2, id, h, tail);
}

/// An insertion below child `c` of a full page that parted the child,
/// followed by parting the page itself, leaves the chain of the old page
/// leading into the chain of the new one.
pub proof fn lemma_node_chain_split(
    pages0: Seq<Seq<u8>>,
    pages1: Seq<Seq<u8>>,
    pages2: Seq<Seq<u8>>,
    id: int,
    h: nat,
    lo: int,
    hi: int,
    tail: int,
    c: int,
    key: i64,
    value: RowRef,
    sk: i64,
    sp: PageId,
    promote: i64,
    right_id: PageId,
)
    requires
        h > 0,
        subtree_wf(pages0, id, h, lo, hi),
        chained(pages0, id, h, tail),
        0 <= c < internal_children(pages0[id]).len(),
        grown_by(
            pages0,
            pages1,
            child_at(pages0[id], c),
            (h - 1) as nat,
            range_lo(internal_keys(pages0[id]), lo, c),
            range_hi(internal_keys(pages0[id]), hi, c),
            key,
            value,
            Some((sk, sp)),
        ),
        rechained(
            pages0,
            pages1,
            child_at(pages0[id], c),
            (h - 1) as nat,
            next_start(pages0, internal_children(pages0[id]), (h - 1) as nat, tail, c),
            Some((sk, sp)),
        ),
        internal_len_of(pages0[id]) == internal_max_keys(),
        pages2.len() == pages1.len() + 1,
        right_id == pages1.len(),
        forall|q: int| 0 <= q < pages1.len() && q != id ==> pages2[q] == pages1[q],
        internal_children(pages2[id]) == internal_children(pages0[id]).insert(c + 1, sp).subrange(
            0,
            internal_split_point() + 1,
        ),
        internal_children(pages2[right_id as int]) == internal_children(pages0[id]).insert(
            c + 1,
            sp,
        ).subrange(internal_split_point() + 1, internal_max_keys() + 2),
    ensures
        rechained(pages0, pages2, id, h, tail, Some((promote, right_id))),
{
    let keys = internal_keys(pages0[id]);
    let kids = internal_children(pages0[id]);
    let keys2 = keys.insert(c, sk);
    let kids2 = kids.insert(c + 1, sp);
    let g = (h - 1) as nat;
    let mid = internal_split_point();
    let lk = keys2.subrange(0, mid);
    let lc = kids2.subrange(0, mid + 1);
    let rk = keys2.subrange(mid + 1, keys2.len() as int);
    let rc = kids2.subrange(mid + 1, kids2.len() as int);
    let rid = right_id as int;
    lemma_split_prepared(pages0, pages1, id, h, lo, hi, tail, c, key, value, sk, sp);
    assert(keys.len() == internal_max_keys());
    assert(kids.len() == internal_max_keys() + 1);
    assert(keys2.len() == internal_max_keys() + 1);
    assert(kids2.len() == internal_max_keys() + 2);
    assert(internal_max_keys() == 679);
    assert(mid == 340);
    assert(internal_children(pages2[rid]) == kids2.subrange(mid + 1, kids2.len() as int));
    assert(internal_children(pages2[id]) == kids2.subrange(0, mid + 1));
    lemma_halves_chain_written(pages1, pages2, keys2, kids2, g, lo, hi, tail, mid, id, rid, h);
    assert(first_leaf(pages2, id, h) == first_leaf(pages0, id, h));
}

/// What the children of a page are, in key order and chain, once a
/// split below child `c` has been taken in among them.
pub proof fn lemma_split_prepared(
    pages0: Seq<Seq<u8>>,
    pages1: Seq<Seq<u8>>,
    id: int,
    h: nat,
    lo: int,
    hi: int,
    tail: int,
    c: int,
    key: i64,
    value: RowRef,
    sk: i64,
    sp: PageId,
)
    requires
        h > 0,
        subtree_wf(pages0, id, h, lo, hi),
        chained(pages0, id, h, tail),
        0 <= c < internal_children(pages0[id]).len(),
        grown_by(
            pages0,
            pages1,
            child_at(pages0[id], c),
            (h - 1) as nat,
            range_lo(internal_keys(pages0[id]), lo, c),
            range_hi(internal_keys(pages0[id]), hi, c),
            key,
            value,
            Some((sk, sp)),
        ),
        rechained(
            pages0,
            pages1,
            child_at(pages0[id], c),
            (h - 1) as nat,
            next_start(pages0, internal_children(pages0[id]), (h - 1) as nat, tail, c),
            Some((sk, sp)),
        ),
    ensures
        0 <= id < pages0.len() <= pages1.len(),
        kids_wf(
            pages1,
            internal_keys(pages0[id]).insert(c, sk),
            internal_children(pages0[id]).insert(c + 1, sp),
            (h - 1) as nat,
            lo,
            hi,
        ),
        kids_chained(pages1, internal_children(pages0[id]).insert(c + 1, sp), (h - 1) as nat, tail),
        !kids_own(pages1, internal_children(pages0[id]).insert(c + 1, sp), (h - 1) as nat, id),
        first_leaf(pages1, internal_children(pages0[id]).insert(c + 1, sp)[0] as int, (h - 1) as nat)
            == first_leaf(pages0, id, h),
{
    let keys = internal_keys(pages0[id]);
    let kids = internal_children(pages0[id]);
    let g = (h - 1) as nat;
    lemma_kids_of_node(pages0, id, h, lo, hi);
    lemma_chain_of_node(pages0, id, h, tail);
    lemma_kids_child_split(pages0, pages1, keys, kids, g, lo, hi, c, key, value, sk, sp);
    lemma_kids_chain_split(pages0, pages1, keys, kids, g, lo, hi, tail, c, key, value, sk, sp);
    if kids_own(pages1, kids.insert(c + 1, sp), g, id) {
        assert(kids_own(pages0, kids, g, id) || pages0.len() <= id);
    }
}

/// Chained children cut behind child `mid`, with one internal page
/// written over each side, are two chained subtrees, the lower leading
/// into the upper.
pub proof fn lemma_halves_chain_written(
    pages1: Seq<Seq<u8>>,
    pages2: Seq<Seq<u8>>,
    keys: Seq<i64>,
    kids: Seq<PageId>,
    g: nat,
    lo: int,
    hi: int,
    tail: int,
    mid: int,
    id: int,
    rid: int,
    h: nat,
)
    requires
        kids_wf(pages1, keys, kids, g, lo, hi),
        kids_chained(pages1, kids, g, tail),
        1 <= mid,
        mid + 1 < keys.len(),
        h == g + 1,
        0 <= id < pages1.len(),
        rid == pages1.len(),
        pages2.len() == pages1.len() + 1,
        forall|q: int| 0 <= q < pages1.len() && q != id ==> pages2[q] == pages1[q],
        !kids_own(pages1, kids, g, id),
        internal_children(pages2[id]) == kids.subrange(0, mid + 1),
        internal_children(pages2[rid]) == kids.subrange(mid + 1, kids.len() as int),
    ensures
        chained(pages2, id, h, first_leaf(pages2, rid, h)),
        chained(pages2, rid, h, tail),
        first_leaf(pages2, id, h) == first_leaf(pages1, kids[0] as int, g),
{
    let lk = keys.subrange(0, mid);
    let lc = kids.subrange(0, mid + 1);
    let rk = keys.subrange(mid + 1, keys.len() as int);
    let rc = kids.subrange(mid + 1, kids.len() as int);
    lemma_kids_cut(pages1, keys, kids, g, lo, hi, mid);
    lemma_kids_chain_cut(pages1, kids, g, tail, mid);
    let between = first_leaf(pages1, kids[mid + 1] as int, g);
    assert forall|q: int| #[trigger] kids_own(pages1, kids, g, q) implies pages2[q] == pages1[q] by {
        let j = choose|j: int| 0 <= j < kids.len() && owns(pages1, (#[trigger] kids[j]) as int, g, q);
        lemma_owns_bound(pages1, kids[j] as int, g, range_lo(keys, lo, j), range_hi(keys, hi, j), q);
    }
    assert forall|q: int| #[trigger] kids_own(pages1, lc, g, q) implies pages2[q] == pages1[q] by {
        assert(kids_own(pages1, kids, g, q));
    }
    assert forall|q: int| #[trigger] kids_own(pages1, rc, g, q) implies pages2[q] == pages1[q] by {
        assert(kids_own(pages1, kids, g, q));
    }
    lemma_kids_chain_frame(pages1, pages2, lk, lc, g, lo, keys[mid] as int, between);
    lemma_kids_chain_frame(pages1, pages2, rk, rc, g, keys[mid] as int, hi, tail);
    assert(rc[0] == kids[mid + 1]);
    assert(lc[0] == kids[0]);
    lemma_chain_of_node(pages2, rid, h, tail);
    assert(first_leaf(pages2, rid, h) == between);
    lemma_chain_of_node(pages2, id, h, between);
}

/// A copy of a subtree's top page at another place is the top of a
/// subtree with the same chain.
pub proof fn lemma_chain_moved(
    pages2: Seq<Seq<u8>>,
    pages3: Seq<Seq<u8>>,
    a: int,
    b: int,
    h: nat,
    lo: int,
    hi: int,
    tail: int,
)
    requires
        subtree_wf(pages2, a, h, lo, hi),
        chained(pages2, a, h, tail),
        pages2.len() <= pages3.len(),
        0 <= b < pages3.len(),
        same_node(pages2[a], pages3[b]),
        forall|q: int| owns(pages2, a, h, q) && q != a ==> pages3[q] == pages2[q],
    ensures
        chained(pages3, b, h, tail),
{
    if h > 0 {
        let keys = internal_keys(pages2[a]);
        let kids = internal_children(pages2[a]);
        let g = (h - 1) as nat;
        lemma_kids_of_node(pages2, a, h, lo, hi);
        lemma_chain_of_node(pages2, a, h, tail);
        assert forall|q: int| #[trigger] kids_own(pages2, kids, g, q) implies pages3[q] == pages2[q] by {
            assert(owns(pages2, a, h, q));
        }
        lemma_kids_chain_frame(pages2, pages3, keys, kids, g, lo, hi, tail);
        lemma_chain_of_node(pages3, b, h, tail);
    }
}

/// After a split that reached the root, the leaves under the new root
/// are chained, and the last of them names page 0.
pub proof fn lemma_root_chain(
    pages2: Seq<Seq<u8>>,
    pages3: Seq<Seq<u8>>,
    h: nat,
    sk: i64,
    sp: PageId,
    left_id: PageId,
)
    requires
        subtree_wf(pages2, 0, h, key_floor(), sk as int),
        subtree_wf(pages2, sp as int, h, sk as int, key_ceiling()),
        apart(pages2, 0, sp as int, h),
        chained(pages2, 0, h, first_leaf(pages2, sp as int, h)),
        chained(pages2, sp as int, h, 0),
        pages3.len() == pages2.len() + 1,
        left_id == pages2.len(),
        forall|q: int| 0 < q < pages2.len() ==> pages3[q] == pages2[q],
        same_node(pages2[0], pages3[left_id as int]),
        internal_children(pages3[0]) == seq![left_id, sp],
    ensures
        chained(pages3, 0, h + 1, 0),
{
    let lid = left_id as int;
    let rid = sp as int;
    let kids = internal_children(pages3[0]);
    assert(owns(pages2, 0, h, 0));
    assert(!owns(pages2, rid, h, 0));
    assert forall|q: int| owns(pages2, 0, h, q) implies 0 <= q < pages2.len() by {
        lemma_owns_bound(pages2, 0, h, key_floor(), sk as int, q);
    }
    assert forall|q: int| owns(pages2, rid, h, q) implies 0 < q < pages2.len() by {
        lemma_owns_bound(pages2, rid, h, sk as int, key_ceiling(), q);
    }
    lemma_chain_frame(pages2, pages3, rid, h, sk as int, key_ceiling(), 0);
    lemma_chain_moved(pages2, pages3, 0, lid, h, key_floor(), sk as int, first_leaf(pages2, rid, h));
    assert(kids[0] == left_id && kids[1] == sp);
    assert forall|c: int| 0 <= c < kids.len() implies chained(
        pages3,
        (#[trigger] kids[c]) as int,
        h,
        next_start(pages3, kids, h, 0, c),
    ) by {
        lemma_next_start(pages3, kids, h, 0, c);
        if c == 0 {
            assert(next_start(pages3, kids, h, 0, 0) == first_leaf(pages3, rid, h));
        } else {
            assert(c == 1);
        }
    }
    lemma_chain_of_node(pages3, 0, h + 1, 0);
}

/// The pages are a tree of height `h` with its root at page 0, and the
/// leaves of the tree are chained in key order, the last of them naming
/// page 0.
pub open spec fn is_index(pages: Seq<Seq<u8>>, h: nat) -> bool {
    is_tree(pages, h) && chained(pages, 0, h, 0)
}

} // verus!
