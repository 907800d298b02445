//! An internal page's subtree, seen as the sequence of its keys and the
//! sequence of its children: what stays true of the children when one of
//! them takes an entry, when a key and a child are added among them, and
//! when they are cut in two.

use super::btree::RowRef;
use super::grow::grown_by;
use super::heap::PageId;
use super::node::{internal_children, internal_keys, internal_len_of, internal_max_keys};
use super::page::{page_id_of, PageFlags};
use super::tree::{
    apart, ascending, child_at, holds, is_tree_page, lemma_frame, lemma_owns_bound, lemma_ranges,
    owns, range_hi, range_lo, subtree_wf,
};
use vstd::prelude::*;

verus! {

/// The children `kids`, parted by `keys`, are search trees of height `g`
/// that share no page and cover `[lo, hi)` between them.
pub open spec fn kids_wf(
    pages: Seq<Seq<u8>>,
    keys: Seq<i64>,
    kids: Seq<PageId>,
    g: nat,
    lo: int,
    hi: int,
) -> bool {
    &&& kids.len() == keys.len() + 1
    &&& lo < hi
    &&& ascending(keys)
    &&& forall|i: int| 0 <= i < keys.len() ==> lo < #[trigger] keys[i] < hi
    &&& forall|c: int|
        0 <= c < kids.len() ==> subtree_wf(
            pages,
            (#[trigger] kids[c]) as int,
            g,
            range_lo(keys, lo, c),
            range_hi(keys, hi, c),
        )
    &&& forall|c1: int, c2: int|
        0 <= c1 < c2 < kids.len() ==> apart(
            pages,
            (#[trigger] kids[c1]) as int,
            (#[trigger] kids[c2]) as int,
            g,
        )
}

/// A leaf under one of the children holds the entry.
pub open spec fn kids_hold(pages: Seq<Seq<u8>>, kids: Seq<PageId>, g: nat, k: i64, r: RowRef) -> bool {
    exists|c: int| 0 <= c < kids.len() && holds(pages, (#[trigger] kids[c]) as int, g, k, r)
}

/// The page is part of the subtree of one of the children.
pub open spec fn kids_own(pages: Seq<Seq<u8>>, kids: Seq<PageId>, g: nat, q: int) -> bool {
    exists|c: int| 0 <= c < kids.len() && owns(pages, (#[trigger] kids[c]) as int, g, q)
}

/// An internal page's subtree, seen from its children.
pub proof fn lemma_kids_of_node(pages: Seq<Seq<u8>>, id: int, h: nat, lo: int, hi: int)
    requires
        h > 0,
        subtree_wf(pages, id, h, lo, hi),
    ensures
        kids_wf(
            pages,
            internal_keys(pages[id]),
            internal_children(pages[id]),
            (h - 1) as nat,
            lo,
            hi,
        ),
        !kids_own(pages, internal_children(pages[id]), (h - 1) as nat, id),
        forall|k: i64, r: RowRef|
            #![trigger holds(pages, id, h, k, r)]
            #![trigger kids_hold(pages, internal_children(pages[id]), (h - 1) as nat, k, r)]
            holds(pages, id, h, k, r) <==> kids_hold(
                pages,
                internal_children(pages[id]),
                (h - 1) as nat,
                k,
                r,
            ),
        forall|q: int|
            #![trigger owns(pages, id, h, q)]
            #![trigger kids_own(pages, internal_children(pages[id]), (h - 1) as nat, q)]
            owns(pages, id, h, q) <==> q == id || kids_own(
                pages,
                internal_children(pages[id]),
                (h - 1) as nat,
                q,
            ),
{
    let b = pages[id];
    let keys = internal_keys(b);
    let kids = internal_children(b);
    let g = (h - 1) as nat;
    assert(lo < keys[0] < hi);
    assert forall|c: int| 0 <= c < kids.len() implies subtree_wf(
        pages,
        (#[trigger] kids[c]) as int,
        g,
        range_lo(keys, lo, c),
        range_hi(keys, hi, c),
    ) by {
        assert(kids[c] as int == child_at(b, c));
    }
    assert forall|c1: int, c2: int| 0 <= c1 < c2 < kids.len() implies apart(
        pages,
        (#[trigger] kids[c1]) as int,
        (#[trigger] kids[c2]) as int,
        g,
    ) by {
        assert(kids[c1] as int == child_at(b, c1));
        assert(kids[c2] as int == child_at(b, c2));
    }
    if kids_own(pages, kids, g, id) {
        let c = choose|c: int| 0 <= c < kids.len() && owns(pages, (#[trigger] kids[c]) as int, g, id);
        assert(kids[c] as int == child_at(b, c));
    }
    assert forall|k: i64, r: RowRef|
        #![trigger holds(pages, id, h, k, r)]
        #![trigger kids_hold(pages, kids, g, k, r)]
        holds(pages, id, h, k, r) <==> kids_hold(pages, kids, g, k, r) by {
        if holds(pages, id, h, k, r) {
            let c = choose|c: int|
                0 <= c < kids.len() && holds(pages, #[trigger] child_at(b, c), g, k, r);
            assert(holds(pages, kids[c] as int, g, k, r));
        }
        if kids_hold(pages, kids, g, k, r) {
            let c = choose|c: int|
                0 <= c < kids.len() && holds(pages, (#[trigger] kids[c]) as int, g, k, r);
            assert(kids[c] as int == child_at(b, c));
        }
    }
    assert forall|q: int|
        #![trigger owns(pages, id, h, q)]
        #![trigger kids_own(pages, kids, g, q)]
        owns(pages, id, h, q) <==> q == id || kids_own(pages, kids, g, q) by {
        if owns(pages, id, h, q) && q != id {
            let c = choose|c: int| 0 <= c < kids.len() && owns(pages, #[trigger] child_at(b, c), g, q);
            assert(owns(pages, kids[c] as int, g, q));
        }
        if kids_own(pages, kids, g, q) {
            let c = choose|c: int|
                0 <= c < kids.len() && owns(pages, (#[trigger] kids[c]) as int, g, q);
            assert(kids[c] as int == child_at(b, c));
        }
    }
}

/// An internal page over well-formed children that do not reach back to
/// it is the top of a well-formed subtree.
pub proof fn lemma_node_of_kids(pages: Seq<Seq<u8>>, id: int, h: nat, lo: int, hi: int)
    requires
        h > 0,
        0 <= id < pages.len(),
        page_id_of(pages[id]) == id,
        is_tree_page(pages[id], PageFlags::Internal),
        1 <= internal_len_of(pages[id]) <= internal_max_keys(),
        kids_wf(
            pages,
            internal_keys(pages[id]),
            internal_children(pages[id]),
            (h - 1) as nat,
            lo,
            hi,
        ),
        !kids_own(pages, internal_children(pages[id]), (h - 1) as nat, id),
    ensures
        subtree_wf(pages, id, h, lo, hi),
        forall|k: i64, r: RowRef|
            #![trigger holds(pages, id, h, k, r)]
            #![trigger kids_hold(pages, internal_children(pages[id]), (h - 1) as nat, k, r)]
            holds(pages, id, h, k, r) <==> kids_hold(
                pages,
                internal_children(pages[id]),
                (h - 1) as nat,
                k,
                r,
            ),
        forall|q: int|
            #![trigger owns(pages, id, h, q)]
            #![trigger kids_own(pages, internal_children(pages[id]), (h - 1) as nat, q)]
            owns(pages, id, h, q) <==> q == id || kids_own(
                pages,
                internal_children(pages[id]),
                (h - 1) as nat,
                q,
            ),
{
    let b = pages[id];
    let keys = internal_keys(b);
    let kids = internal_children(b);
    let g = (h - 1) as nat;
    assert forall|c: int| 0 <= c < kids.len() implies subtree_wf(
        pages,
        #[trigger] child_at(b, c),
        g,
        range_lo(keys, lo, c),
        range_hi(keys, hi, c),
    ) && !owns(pages, child_at(b, c), g, id) by {
        assert(kids[c] as int == child_at(b, c));
    }
    assert forall|c1: int, c2: int| 0 <= c1 < c2 < kids.len() implies apart(
        pages,
        #[trigger] child_at(b, c1),
        #[trigger] child_at(b, c2),
        g,
    ) by {
        assert(kids[c1] as int == child_at(b, c1));
        assert(kids[c2] as int == child_at(b, c2));
    }
    assert(subtree_wf(pages, id, h, lo, hi));
    lemma_kids_of_node(pages, id, h, lo, hi);
}

/// Children mean the same in two files that agree on the children's
/// pages.
pub proof fn lemma_kids_frame(
    pages0: Seq<Seq<u8>>,
    pages2: Seq<Seq<u8>>,
    keys: Seq<i64>,
    kids: Seq<PageId>,
    g: nat,
    lo: int,
    hi: int,
)
    requires
        kids_wf(pages0, keys, kids, g, lo, hi),
        pages0.len() <= pages2.len(),
        forall|q: int| kids_own(pages0, kids, g, q) ==> pages2[q] == pages0[q],
    ensures
        kids_wf(pages2, keys, kids, g, lo, hi),
        forall|q: int| kids_own(pages2, kids, g, q) <==> kids_own(pages0, kids, g, q),
        forall|k: i64, r: RowRef| kids_hold(pages2, kids, g, k, r) <==> kids_hold(pages0, kids, g, k, r),
{
    assert forall|c: int| 0 <= c < kids.len() implies {
        &&& subtree_wf(
            pages2,
            (#[trigger] kids[c]) as int,
            g,
            range_lo(keys, lo, c),
            range_hi(keys, hi, c),
        )
        &&& forall|q: int| owns(pages2, kids[c] as int, g, q) <==> owns(pages0, kids[c] as int, g, q)
        &&& forall|k: i64, r: RowRef|
            holds(pages2, kids[c] as int, g, k, r) <==> holds(pages0, kids[c] as int, g, k, r)
    } by {
        assert forall|q: int| owns(pages0, kids[c] as int, g, q) implies pages2[q] == pages0[q] by {
            assert(kids_own(pages0, kids, g, q));
        }
        lemma_frame(pages0, pages2, kids[c] as int, g, range_lo(keys, lo, c), range_hi(keys, hi, c));
    }
    assert forall|c1: int, c2: int| 0 <= c1 < c2 < kids.len() implies apart(
        pages2,
        (#[trigger] kids[c1]) as int,
        (#[trigger] kids[c2]) as int,
        g,
    ) by {
        assert(apart(pages0, kids[c1] as int, kids[c2] as int, g));
    }
    assert forall|q: int| kids_own(pages2, kids, g, q) <==> kids_own(pages0, kids, g, q) by {
        if kids_own(pages2, kids, g, q) {
            let c = choose|c: int| 0 <= c < kids.len() && owns(pages2, (#[trigger] kids[c]) as int, g, q);
            assert(owns(pages0, kids[c] as int, g, q));
        }
        if kids_own(pages0, kids, g, q) {
            let c = choose|c: int| 0 <= c < kids.len() && owns(pages0, (#[trigger] kids[c]) as int, g, q);
            assert(owns(pages2, kids[c] as int, g, q));
        }
    }
    assert forall|k: i64, r: RowRef| kids_hold(pages2, kids, g, k, r) <==> kids_hold(
        pages0,
        kids,
        g,
        k,
        r,
    ) by {
        if kids_hold(pages2, kids, g, k, r) {
            let c = choose|c: int|
                0 <= c < kids.len() && holds(pages2, (#[trigger] kids[c]) as int, g, k, r);
            assert(holds(pages0, kids[c] as int, g, k, r));
        }
        if kids_hold(pages0, kids, g, k, r) {
            let c = choose|c: int|
                0 <= c < kids.len() && holds(pages0, (#[trigger] kids[c]) as int, g, k, r);
            assert(holds(pages2, kids[c] as int, g, k, r));
        }
    }
}

/// Where a file has changed only in pages of child `c` and in new
/// pages, the other children are what they were.
pub proof fn lemma_siblings_kept(
    pages0: Seq<Seq<u8>>,
    pages1: Seq<Seq<u8>>,
    keys: Seq<i64>,
    kids: Seq<PageId>,
    g: nat,
    lo: int,
    hi: int,
    c: int,
)
    requires
        kids_wf(pages0, keys, kids, g, lo, hi),
        0 <= c < kids.len(),
        pages0.len() <= pages1.len(),
        forall|q: int| 0 <= q < pages0.len() && !owns(pages0, kids[c] as int, g, q) ==> #[trigger] pages1[q] == pages0[q],
    ensures
        forall|j: int|
            0 <= j < kids.len() && j != c ==> {
                &&& subtree_wf(
                    pages1,
                    (#[trigger] kids[j]) as int,
                    g,
                    range_lo(keys, lo, j),
                    range_hi(keys, hi, j),
                )
                &&& forall|q: int| owns(pages1, kids[j] as int, g, q) <==> owns(pages0, kids[j] as int, g, q)
                &&& forall|q: int|
                    owns(pages0, kids[j] as int, g, q) ==> 0 <= q < pages0.len() && !owns(
                        pages0,
                        kids[c] as int,
                        g,
                        q,
                    )
                &&& forall|k: i64, r: RowRef|
                    holds(pages1, kids[j] as int, g, k, r) <==> holds(pages0, kids[j] as int, g, k, r)
            },
{
    assert forall|j: int| 0 <= j < kids.len() && j != c implies {
        &&& subtree_wf(
            pages1,
            (#[trigger] kids[j]) as int,
            g,
            range_lo(keys, lo, j),
            range_hi(keys, hi, j),
        )
        &&& forall|q: int| owns(pages1, kids[j] as int, g, q) <==> owns(pages0, kids[j] as int, g, q)
        &&& forall|q: int|
            owns(pages0, kids[j] as int, g, q) ==> 0 <= q < pages0.len() && !owns(pages0, kids[c] as int, g, q)
        &&& forall|k: i64, r: RowRef|
            holds(pages1, kids[j] as int, g, k, r) <==> holds(pages0, kids[j] as int, g, k, r)
    } by {
        assert forall|q: int| owns(pages0, kids[j] as int, g, q) implies 0 <= q < pages0.len() && !owns(
            pages0,
            kids[c] as int,
            g,
            q,
        ) by {
            lemma_owns_bound(pages0, kids[j] as int, g, range_lo(keys, lo, j), range_hi(keys, hi, j), q);
            if j < c {
                assert(apart(pages0, kids[j] as int, kids[c] as int, g));
            } else {
                assert(apart(pages0, kids[c] as int, kids[j] as int, g));
            }
        }
        lemma_frame(pages0, pages1, kids[j] as int, g, range_lo(keys, lo, j), range_hi(keys, hi, j));
    }
}

/// An insertion below child `c` that did not part the child leaves the
/// children well formed, with one entry more among them.
pub proof fn lemma_kids_child_grown(
    pages0: Seq<Seq<u8>>,
    pages1: Seq<Seq<u8>>,
    keys: Seq<i64>,
    kids: Seq<PageId>,
    g: nat,
    lo: int,
    hi: int,
    c: int,
    key: i64,
    value: RowRef,
)
    requires
        kids_wf(pages0, keys, kids, g, lo, hi),
        0 <= c < kids.len(),
        grown_by(
            pages0,
            pages1,
            kids[c] as int,
            g,
            range_lo(keys, lo, c),
            range_hi(keys, hi, c),
            key,
            value,
            None,
        ),
    ensures
        kids_wf(pages1, keys, kids, g, lo, hi),
        kids_hold(pages1, kids, g, key, value),
        forall|k: i64, r: RowRef| #[trigger]
            kids_hold(pages1, kids, g, k, r) ==> kids_hold(pages0, kids, g, k, r) || (k == key && r == value),
        forall|k: i64, r: RowRef| #[trigger] kids_hold(pages0, kids, g, k, r) ==> kids_hold(pages1, kids, g, k, r),
        forall|q: int| #[trigger] kids_own(pages1, kids, g, q) ==> kids_own(pages0, kids, g, q) || pages0.len() <= q,
        forall|q: int| 0 <= q < pages0.len() && !kids_own(pages0, kids, g, q) ==> #[trigger] pages1[q] == pages0[q],
{
    lemma_siblings_kept(pages0, pages1, keys, kids, g, lo, hi, c);
    let kc = kids[c] as int;
    assert forall|c1: int, c2: int| 0 <= c1 < c2 < kids.len() implies apart(
        pages1,
        (#[trigger] kids[c1]) as int,
        (#[trigger] kids[c2]) as int,
        g,
    ) by {
        assert(apart(pages0, kids[c1] as int, kids[c2] as int, g));
        assert forall|q: int|
            !(owns(pages1, kids[c1] as int, g, q) && owns(pages1, kids[c2] as int, g, q)) by {
            if owns(pages1, kids[c1] as int, g, q) && owns(pages1, kids[c2] as int, g, q) {
                if c1 == c {
                    assert(owns(pages0, kids[c2] as int, g, q));
                } else if c2 == c {
                    assert(owns(pages0, kids[c1] as int, g, q));
                } else {
                    assert(owns(pages0, kids[c1] as int, g, q));
                    assert(owns(pages0, kids[c2] as int, g, q));
                }
            }
        }
    }
    assert(holds(pages1, kids[c] as int, g, key, value));
    assert forall|k: i64, r: RowRef| #[trigger] kids_hold(pages1, kids, g, k, r) implies kids_hold(
        pages0,
        kids,
        g,
        k,
        r,
    ) || (k == key && r == value) by {
        let j = choose|j: int| 0 <= j < kids.len() && holds(pages1, (#[trigger] kids[j]) as int, g, k, r);
        if !(k == key && r == value) {
            assert(holds(pages0, kids[j] as int, g, k, r));
        }
    }
    assert forall|k: i64, r: RowRef| #[trigger] kids_hold(pages0, kids, g, k, r) implies kids_hold(
        pages1,
        kids,
        g,
        k,
        r,
    ) by {
        let j = choose|j: int| 0 <= j < kids.len() && holds(pages0, (#[trigger] kids[j]) as int, g, k, r);
        assert(holds(pages1, kids[j] as int, g, k, r));
    }
    assert forall|q: int| #[trigger] kids_own(pages1, kids, g, q) implies kids_own(pages0, kids, g, q)
        || pages0.len() <= q by {
        let j = choose|j: int| 0 <= j < kids.len() && owns(pages1, (#[trigger] kids[j]) as int, g, q);
        if q < pages0.len() {
            assert(owns(pages0, kids[j] as int, g, q));
        }
    }
    assert forall|q: int| 0 <= q < pages0.len() && !kids_own(pages0, kids, g, q) implies #[trigger] pages1[q]
        == pages0[q] by {
        assert(!owns(pages0, kids[c] as int, g, q));
    }
}

/// An insertion below child `c` that parted the child at `sk`, with the
/// upper part under the new page `sp`, leaves well-formed children once
/// `sk` and `sp` stand behind child `c`.
pub proof fn lemma_kids_child_split(
    pages0: Seq<Seq<u8>>,
    pages1: Seq<Seq<u8>>,
    keys: Seq<i64>,
    kids: Seq<PageId>,
    g: nat,
    lo: int,
    hi: int,
    c: int,
    key: i64,
    value: RowRef,
    sk: i64,
    sp: PageId,
)
    requires
        kids_wf(pages0, keys, kids, g, lo, hi),
        0 <= c < kids.len(),
        grown_by(
            pages0,
            pages1,
            kids[c] as int,
            g,
            range_lo(keys, lo, c),
            range_hi(keys, hi, c),
            key,
            value,
            Some((sk, sp)),
        ),
    ensures
        kids_wf(pages1, keys.insert(c, sk), kids.insert(c + 1, sp), g, lo, hi),
        kids_hold(pages1, kids.insert(c + 1, sp), g, key, value),
        forall|k: i64, r: RowRef| #[trigger]
            kids_hold(pages1, kids.insert(c + 1, sp), g, k, r) ==> kids_hold(pages0, kids, g, k, r) || (k
                == key && r == value),
        forall|k: i64, r: RowRef| #[trigger]
            kids_hold(pages0, kids, g, k, r) ==> kids_hold(pages1, kids.insert(c + 1, sp), g, k, r),
        forall|q: int| #[trigger]
            kids_own(pages1, kids.insert(c + 1, sp), g, q) ==> kids_own(pages0, kids, g, q) || pages0.len() <= q,
        forall|q: int| 0 <= q < pages0.len() && !kids_own(pages0, kids, g, q) ==> #[trigger] pages1[q] == pages0[q],
{
    lemma_siblings_kept(pages0, pages1, keys, kids, g, lo, hi, c);
    lemma_ranges(keys, lo, hi);
    let keys2 = keys.insert(c, sk);
    let kids2 = kids.insert(c + 1, sp);
    let n = keys.len() as int;
    assert(range_lo(keys, lo, c) < range_hi(keys, hi, c));
    assert forall|i: int| 0 <= i < keys2.len() implies keys2[i] == (if i < c {
        keys[i]
    } else if i == c {
        sk
    } else {
        keys[i - 1]
    }) by {}
    assert forall|j: int| 0 <= j < kids2.len() implies kids2[j] == (if j <= c {
        kids[j]
    } else if j == c + 1 {
        sp
    } else {
        kids[j - 1]
    }) by {}
    assert forall|i: int| 0 <= i < c implies #[trigger] keys[i] < sk by {
        if i < c - 1 {
            assert(keys[i] < keys[c - 1]);
        }
    }
    assert forall|i: int| c <= i < n implies sk < #[trigger] keys[i] by {
        if c < i {
            assert(keys[c] < keys[i]);
        }
    }
    assert forall|i: int, j: int| 0 <= i < j < keys2.len() implies keys2[i] < keys2[j] by {
        if j < c {
            assert(keys[i] < keys[j]);
        } else if j == c {
        } else if i < c {
            assert(keys[i] < sk);
            assert(sk < keys[j - 1]);
        } else if i == c {
            assert(sk < keys[j - 1]);
        } else {
            assert(keys[i - 1] < keys[j - 1]);
        }
    }
    assert forall|i: int| 0 <= i < keys2.len() implies lo < #[trigger] keys2[i] < hi by {
        if i < c {
            assert(lo < keys[i] < hi);
        } else if i > c {
            assert(lo < keys[i - 1] < hi);
        }
    }
    assert forall|j: int| 0 <= j < kids2.len() implies subtree_wf(
        pages1,
        (#[trigger] kids2[j]) as int,
        g,
        range_lo(keys2, lo, j),
        range_hi(keys2, hi, j),
    ) by {
        if j < c {
            assert(subtree_wf(
                pages1,
                kids[j] as int,
                g,
                range_lo(keys, lo, j),
                range_hi(keys, hi, j),
            ));
        } else if j == c {
        } else if j == c + 1 {
        } else {
            assert(subtree_wf(
                pages1,
                kids[j - 1] as int,
                g,
                range_lo(keys, lo, j - 1),
                range_hi(keys, hi, j - 1),
            ));
        }
    }
    // what each child of the new sequence is made of
    assert forall|j: int, q: int|
        0 <= j < kids2.len() && j != c && j != c + 1 && #[trigger] owns(
            pages1,
            kids2[j] as int,
            g,
            q,
        ) implies 0 <= q < pages0.len() && !owns(pages0, kids[c] as int, g, q) && kids_own(pages0, kids, g, q) by {
        let s0 = if j < c {
            j
        } else {
            j - 1
        };
        assert(kids2[j] == kids[s0]);
        assert(owns(pages0, kids[s0] as int, g, q));
    }
    assert forall|j: int, q: int|
        0 <= j < kids2.len() && (j == c || j == c + 1) && #[trigger] owns(
            pages1,
            kids2[j] as int,
            g,
            q,
        ) implies owns(pages0, kids[c] as int, g, q) || pages0.len() <= q by {}
    assert forall|j1: int, j2: int| 0 <= j1 < j2 < kids2.len() implies apart(
        pages1,
        (#[trigger] kids2[j1]) as int,
        (#[trigger] kids2[j2]) as int,
        g,
    ) by {
        assert forall|q: int|
            !(owns(pages1, kids2[j1] as int, g, q) && owns(pages1, kids2[j2] as int, g, q)) by {
            if owns(pages1, kids2[j1] as int, g, q) && owns(pages1, kids2[j2] as int, g, q) {
                let near1 = j1 == c || j1 == c + 1;
                let near2 = j2 == c || j2 == c + 1;
                if near1 && near2 {
                    assert(apart(pages1, kids[c] as int, sp as int, g));
                } else if !near1 && !near2 {
                    let s1 = if j1 < c {
                        j1
                    } else {
                        j1 - 1
                    };
                    let s2 = if j2 < c {
                        j2
                    } else {
                        j2 - 1
                    };
                    assert(kids2[j1] == kids[s1]);
                    assert(kids2[j2] == kids[s2]);
                    assert(owns(pages0, kids[s1] as int, g, q));
                    assert(owns(pages0, kids[s2] as int, g, q));
                    assert(apart(pages0, kids[s1] as int, kids[s2] as int, g));
                }
            }
        }
    }
    assert(kids_wf(pages1, keys2, kids2, g, lo, hi));
    if holds(pages1, kids[c] as int, g, key, value) {
        assert(holds(pages1, kids2[c] as int, g, key, value));
    } else {
        assert(holds(pages1, kids2[c + 1] as int, g, key, value));
    }
    assert forall|k: i64, r: RowRef| #[trigger] kids_hold(pages1, kids2, g, k, r) implies kids_hold(
        pages0,
        kids,
        g,
        k,
        r,
    ) || (k == key && r == value) by {
        let j = choose|j: int| 0 <= j < kids2.len() && holds(pages1, (#[trigger] kids2[j]) as int, g, k, r);
        if !(k == key && r == value) {
            if j == c || j == c + 1 {
                assert(holds(pages0, kids[c] as int, g, k, r));
            } else {
                let s0 = if j < c {
                    j
                } else {
                    j - 1
                };
                assert(kids2[j] == kids[s0]);
                assert(holds(pages0, kids[s0] as int, g, k, r));
            }
        }
    }
    assert forall|k: i64, r: RowRef| #[trigger] kids_hold(pages0, kids, g, k, r) implies kids_hold(
        pages1,
        kids2,
        g,
        k,
        r,
    ) by {
        let j = choose|j: int| 0 <= j < kids.len() && holds(pages0, (#[trigger] kids[j]) as int, g, k, r);
        if j == c {
            if holds(pages1, kids[c] as int, g, k, r) {
                assert(holds(pages1, kids2[c] as int, g, k, r));
            } else {
                assert(holds(pages1, kids2[c + 1] as int, g, k, r));
            }
        } else {
            let t = if j < c {
                j
            } else {
                j + 1
            };
            assert(kids2[t] == kids[j]);
            assert(holds(pages1, kids2[t] as int, g, k, r));
        }
    }
    assert forall|q: int| #[trigger] kids_own(pages1, kids2, g, q) implies kids_own(pages0, kids, g, q)
        || pages0.len() <= q by {
        let j = choose|j: int| 0 <= j < kids2.len() && owns(pages1, (#[trigger] kids2[j]) as int, g, q);
        if q < pages0.len() {
            if j == c || j == c + 1 {
                assert(owns(pages0, kids[c] as int, g, q));
            }
        }
    }
    assert forall|q: int| 0 <= q < pages0.len() && !kids_own(pages0, kids, g, q) implies #[trigger] pages1[q]
        == pages0[q] by {
        assert(!owns(pages0, kids[c] as int, g, q));
    }
}

/// Well-formed children, cut at key `mid`, are well-formed children on
/// both sides of that key, and share no page across the cut.
pub proof fn lemma_kids_cut(
    pages: Seq<Seq<u8>>,
    keys: Seq<i64>,
    kids: Seq<PageId>,
    g: nat,
    lo: int,
    hi: int,
    mid: int,
)
    requires
        kids_wf(pages, keys, kids, g, lo, hi),
        0 <= mid < keys.len(),
    ensures
        kids_wf(pages, keys.subrange(0, mid), kids.subrange(0, mid + 1), g, lo, keys[mid] as int),
        kids_wf(
            pages,
            keys.subrange(mid + 1, keys.len() as int),
            kids.subrange(mid + 1, kids.len() as int),
            g,
            keys[mid] as int,
            hi,
        ),
        forall|k: i64, r: RowRef| #[trigger]
            kids_hold(pages, kids, g, k, r) <==> kids_hold(pages, kids.subrange(0, mid + 1), g, k, r)
                || kids_hold(pages, kids.subrange(mid + 1, kids.len() as int), g, k, r),
        forall|q: int| #[trigger]
            kids_own(pages, kids, g, q) <==> kids_own(pages, kids.subrange(0, mid + 1), g, q)
                || kids_own(pages, kids.subrange(mid + 1, kids.len() as int), g, q),
        forall|q: int|
            !(#[trigger] kids_own(pages, kids.subrange(0, mid + 1), g, q) && kids_own(
                pages,
                kids.subrange(mid + 1, kids.len() as int),
                g,
                q,
            )),
{
    let n = keys.len() as int;
    let lk = keys.subrange(0, mid);
    let lc = kids.subrange(0, mid + 1);
    let rk = keys.subrange(mid + 1, n);
    let rc = kids.subrange(mid + 1, n + 1);
    let sep = keys[mid] as int;
    assert(lo < keys[mid] < hi);
    assert forall|i: int| 0 <= i < lk.len() implies lo < #[trigger] lk[i] < sep by {
        assert(lo < keys[i] < hi);
        assert(keys[i] < keys[mid]);
    }
    assert forall|i: int| 0 <= i < rk.len() implies sep < #[trigger] rk[i] < hi by {
        assert(lo < keys[mid + 1 + i] < hi);
        assert(keys[mid] < keys[mid + 1 + i]);
    }
    assert forall|i: int, j: int| 0 <= i < j < lk.len() implies lk[i] < lk[j] by {
        assert(keys[i] < keys[j]);
    }
    assert forall|i: int, j: int| 0 <= i < j < rk.len() implies rk[i] < rk[j] by {
        assert(keys[mid + 1 + i] < keys[mid + 1 + j]);
    }
    assert forall|c: int| 0 <= c < lc.len() implies subtree_wf(
        pages,
        (#[trigger] lc[c]) as int,
        g,
        range_lo(lk, lo, c),
        range_hi(lk, sep, c),
    ) by {
        assert(subtree_wf(
            pages,
            kids[c] as int,
            g,
            range_lo(keys, lo, c),
            range_hi(keys, hi, c),
        ));
    }
    assert forall|c: int| 0 <= c < rc.len() implies subtree_wf(
        pages,
        (#[trigger] rc[c]) as int,
        g,
        range_lo(rk, sep, c),
        range_hi(rk, hi, c),
    ) by {
        assert(rc[c] == kids[mid + 1 + c]);
        assert(subtree_wf(
            pages,
            kids[mid + 1 + c] as int,
            g,
            range_lo(keys, lo, mid + 1 + c),
            range_hi(keys, hi, mid + 1 + c),
        ));
    }
    assert forall|c1: int, c2: int| 0 <= c1 < c2 < lc.len() implies apart(
        pages,
        (#[trigger] lc[c1]) as int,
        (#[trigger] lc[c2]) as int,
        g,
    ) by {
        assert(apart(pages, kids[c1] as int, kids[c2] as int, g));
    }
    assert forall|c1: int, c2: int| 0 <= c1 < c2 < rc.len() implies apart(
        pages,
        (#[trigger] rc[c1]) as int,
        (#[trigger] rc[c2]) as int,
        g,
    ) by {
        assert(rc[c1] == kids[mid + 1 + c1]);
        assert(rc[c2] == kids[mid + 1 + c2]);
        assert(apart(pages, kids[mid + 1 + c1] as int, kids[mid + 1 + c2] as int, g));
    }
    assert forall|k: i64, r: RowRef| #[trigger]
        kids_hold(pages, kids, g, k, r) <==> kids_hold(pages, lc, g, k, r) || kids_hold(
            pages,
            rc,
            g,
            k,
            r,
        ) by {
        if kids_hold(pages, kids, g, k, r) {
            let c = choose|c: int| 0 <= c < kids.len() && holds(pages, (#[trigger] kids[c]) as int, g, k, r);
            if c <= mid {
                assert(holds(pages, lc[c] as int, g, k, r));
            } else {
                assert(rc[c - mid - 1] == kids[c]);
                assert(holds(pages, rc[c - mid - 1] as int, g, k, r));
            }
        }
        if kids_hold(pages, lc, g, k, r) {
            let c = choose|c: int| 0 <= c < lc.len() && holds(pages, (#[trigger] lc[c]) as int, g, k, r);
            assert(holds(pages, kids[c] as int, g, k, r));
        }
        if kids_hold(pages, rc, g, k, r) {
            let c = choose|c: int| 0 <= c < rc.len() && holds(pages, (#[trigger] rc[c]) as int, g, k, r);
            assert(rc[c] == kids[mid + 1 + c]);
            assert(holds(pages, kids[mid + 1 + c] as int, g, k, r));
        }
    }
    assert forall|q: int| #[trigger]
        kids_own(pages, kids, g, q) <==> kids_own(pages, lc, g, q) || kids_own(pages, rc, g, q) by {
        if kids_own(pages, kids, g, q) {
            let c = choose|c: int| 0 <= c < kids.len() && owns(pages, (#[trigger] kids[c]) as int, g, q);
            if c <= mid {
                assert(owns(pages, lc[c] as int, g, q));
            } else {
                assert(rc[c - mid - 1] == kids[c]);
                assert(owns(pages, rc[c - mid - 1] as int, g, q));
            }
        }
        if kids_own(pages, lc, g, q) {
            let c = choose|c: int| 0 <= c < lc.len() && owns(pages, (#[trigger] lc[c]) as int, g, q);
            assert(owns(pages, kids[c] as int, g, q));
        }
        if kids_own(pages, rc, g, q) {
            let c = choose|c: int| 0 <= c < rc.len() && owns(pages, (#[trigger] rc[c]) as int, g, q);
            assert(rc[c] == kids[mid + 1 + c]);
            assert(owns(pages, kids[mid + 1 + c] as int, g, q));
        }
    }
    assert forall|q: int| !(#[trigger] kids_own(pages, lc, g, q) && kids_own(pages, rc, g, q)) by {
        if kids_own(pages, lc, g, q) && kids_own(pages, rc, g, q) {
            let c1 = choose|c: int| 0 <= c < lc.len() && owns(pages, (#[trigger] lc[c]) as int, g, q);
            let c2 = choose|c: int| 0 <= c < rc.len() && owns(pages, (#[trigger] rc[c]) as int, g, q);
            assert(rc[c2] == kids[mid + 1 + c2]);
            assert(lc[c1] == kids[c1]);
            assert(apart(pages, kids[c1] as int, kids[mid + 1 + c2] as int, g));
        }
    }
}

/// Well-formed children cut at key `mid`, with one internal page written
/// over each side, are two well-formed subtrees.
pub proof fn lemma_halves_written(
    pages1: Seq<Seq<u8>>,
    pages2: Seq<Seq<u8>>,
    keys: Seq<i64>,
    kids: Seq<PageId>,
    g: nat,
    lo: int,
    hi: int,
    mid: int,
    id: int,
    rid: int,
    h: nat,
)
    requires
        kids_wf(pages1, keys, kids, g, lo, hi),
        1 <= mid,
        mid + 1 < keys.len() <= internal_max_keys() + 1,
        h == g + 1,
        0 <= id < pages1.len(),
        rid == pages1.len(),
        pages2.len() == pages1.len() + 1,
        forall|q: int| 0 <= q < pages1.len() && q != id ==> pages2[q] == pages1[q],
        !kids_own(pages1, kids, g, id),
        page_id_of(pages2[id]) == id,
        page_id_of(pages2[rid]) == rid,
        is_tree_page(pages2[id], PageFlags::Internal),
        is_tree_page(pages2[rid], PageFlags::Internal),
        internal_keys(pages2[id]) == keys.subrange(0, mid),
        internal_children(pages2[id]) == kids.subrange(0, mid + 1),
        internal_keys(pages2[rid]) == keys.subrange(mid + 1, keys.len() as int),
        internal_children(pages2[rid]) == kids.subrange(mid + 1, kids.len() as int),
    ensures
        lo < keys[mid] < hi,
        subtree_wf(pages2, id, h, lo, keys[mid] as int),
        subtree_wf(pages2, rid, h, keys[mid] as int, hi),
        forall|q: int| #[trigger] kids_own(pages1, kids, g, q) ==> 0 <= q < pages1.len(),
        forall|k: i64, r: RowRef| #[trigger]
            kids_hold(pages1, kids, g, k, r) <==> kids_hold(pages1, kids.subrange(0, mid + 1), g, k, r)
                || kids_hold(pages1, kids.subrange(mid + 1, kids.len() as int), g, k, r),
        forall|q: int| #[trigger]
            kids_own(pages1, kids, g, q) <==> kids_own(pages1, kids.subrange(0, mid + 1), g, q)
                || kids_own(pages1, kids.subrange(mid + 1, kids.len() as int), g, q),
        forall|q: int|
            !(#[trigger] kids_own(pages1, kids.subrange(0, mid + 1), g, q) && kids_own(
                pages1,
                kids.subrange(mid + 1, kids.len() as int),
                g,
                q,
            )),
        forall|k: i64, r: RowRef| #[trigger]
            holds(pages2, id, h, k, r) <==> kids_hold(pages1, kids.subrange(0, mid + 1), g, k, r),
        forall|q: int| #[trigger]
            owns(pages2, id, h, q) <==> q == id || kids_own(pages1, kids.subrange(0, mid + 1), g, q),
        forall|k: i64, r: RowRef| #[trigger]
            holds(pages2, rid, h, k, r) <==> kids_hold(
                pages1,
                kids.subrange(mid + 1, kids.len() as int),
                g,
                k,
                r,
            ),
        forall|q: int| #[trigger]
            owns(pages2, rid, h, q) <==> q == rid || kids_own(
                pages1,
                kids.subrange(mid + 1, kids.len() as int),
                g,
                q,
            ),
{
    let lk = keys.subrange(0, mid);
    let lc = kids.subrange(0, mid + 1);
    let rk = keys.subrange(mid + 1, keys.len() as int);
    let rc = kids.subrange(mid + 1, kids.len() as int);
    lemma_kids_cut(pages1, keys, kids, g, lo, hi, mid);
    assert(lo < keys[mid] < hi);
    assert forall|q: int| #[trigger] kids_own(pages1, kids, g, q) implies 0 <= q < pages1.len() by {
        let j = choose|j: int| 0 <= j < kids.len() && owns(pages1, (#[trigger] kids[j]) as int, g, q);
        lemma_owns_bound(pages1, kids[j] as int, g, range_lo(keys, lo, j), range_hi(keys, hi, j), q);
    }
    assert forall|q: int| #[trigger] kids_own(pages1, lc, g, q) implies pages2[q] == pages1[q] && q != id by {
        assert(kids_own(pages1, kids, g, q));
    }
    assert forall|q: int| #[trigger] kids_own(pages1, rc, g, q) implies pages2[q] == pages1[q] && q != rid by {
        assert(kids_own(pages1, kids, g, q));
    }
    lemma_half_written(pages1, pages2, lk, lc, g, lo, keys[mid] as int, id, h);
    lemma_half_written(pages1, pages2, rk, rc, g, keys[mid] as int, hi, rid, h);
}

/// An internal page written over well-formed children is the top of a
/// well-formed subtree that holds what the children held.
pub proof fn lemma_half_written(
    pages1: Seq<Seq<u8>>,
    pages2: Seq<Seq<u8>>,
    keys: Seq<i64>,
    kids: Seq<PageId>,
    g: nat,
    lo: int,
    hi: int,
    id: int,
    h: nat,
)
    requires
        kids_wf(pages1, keys, kids, g, lo, hi),
        1 <= keys.len() <= internal_max_keys(),
        h == g + 1,
        0 <= id < pages2.len(),
        pages1.len() <= pages2.len(),
        forall|q: int| #[trigger] kids_own(pages1, kids, g, q) ==> pages2[q] == pages1[q] && q != id,
        page_id_of(pages2[id]) == id,
        is_tree_page(pages2[id], PageFlags::Internal),
        internal_keys(pages2[id]) == keys,
        internal_children(pages2[id]) == kids,
    ensures
        subtree_wf(pages2, id, h, lo, hi),
        forall|k: i64, r: RowRef| #[trigger] holds(pages2, id, h, k, r) <==> kids_hold(pages1, kids, g, k, r),
        forall|q: int| #[trigger] owns(pages2, id, h, q) <==> q == id || kids_own(pages1, kids, g, q),
{
    lemma_kids_frame(pages1, pages2, keys, kids, g, lo, hi);
    assert(internal_len_of(pages2[id]) == keys.len());
    assert(!kids_own(pages2, kids, g, id)) by {
        if kids_own(pages2, kids, g, id) {
            assert(kids_own(pages1, kids, g, id));
        }
    }
    lemma_node_of_kids(pages2, id, h, lo, hi);
    assert forall|k: i64, r: RowRef| #[trigger] holds(pages2, id, h, k, r) <==> kids_hold(
        pages1,
        kids,
        g,
        k,
        r,
    ) by {
        assert(holds(pages2, id, h, k, r) <==> kids_hold(pages2, kids, g, k, r));
    }
    assert forall|q: int| #[trigger] owns(pages2, id, h, q) <==> q == id || kids_own(pages1, kids, g, q) by {
        assert(owns(pages2, id, h, q) <==> q == id || kids_own(pages2, kids, g, q));
    }
}

} // verus!
