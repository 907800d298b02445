//! What the pages of an index file mean, read as a tree.
//!
//! A subtree is named by the id of its top page and its height; a leaf has
//! height 0. `subtree_wf` says that a subtree is a search tree for the keys
//! between two bounds, `holds` which entries its leaves hold, and `owns`
//! which pages it is made of.

use super::btree::RowRef;
use super::node::{
    internal_children, internal_keys, internal_len_of, internal_max_keys, leaf_entries, leaf_len_of,
    leaf_max_entries,
};
use super::page::{flags_of, magic_of, page_id_of, PageFlags, PAGE_MAGIC, PAGE_SIZE};
use vstd::prelude::*;
use vstd::set_lib::{lemma_int_range, lemma_len_subset, set_int_range};

verus! {

/// Below every key.
pub open spec fn key_floor() -> int {
    i64::MIN as int
}

/// Above every key.
pub open spec fn key_ceiling() -> int {
    i64::MAX + 1
}

/// `b` is a page of the index with the given kind.
pub open spec fn is_tree_page(b: Seq<u8>, flags: PageFlags) -> bool {
    &&& b.len() == PAGE_SIZE
    &&& magic_of(b) == PAGE_MAGIC
    &&& flags_of(b) == flags.spec_code()
}

/// The keys are strictly ascending.
pub open spec fn ascending(keys: Seq<i64>) -> bool {
    forall|i: int, j: int| 0 <= i < j < keys.len() ==> keys[i] < keys[j]
}

/// The entries ascend strictly by key.
pub open spec fn entries_ascending(es: Seq<(i64, RowRef)>) -> bool {
    forall|i: int, j: int| 0 <= i < j < es.len() ==> es[i].0 < es[j].0
}

/// A leaf whose keys ascend strictly and lie in `[lo, hi)`.
pub open spec fn leaf_wf(b: Seq<u8>, lo: int, hi: int) -> bool {
    &&& is_tree_page(b, PageFlags::Leaf)
    &&& leaf_len_of(b) <= leaf_max_entries()
    &&& entries_ascending(leaf_entries(b))
    &&& forall|i: int| 0 <= i < leaf_entries(b).len() ==> lo <= (#[trigger] leaf_entries(b)[i]).0 < hi
}

/// An internal page with at least one key, whose keys ascend strictly and
/// lie strictly between `lo` and `hi`.
pub open spec fn internal_wf(b: Seq<u8>, lo: int, hi: int) -> bool {
    &&& is_tree_page(b, PageFlags::Internal)
    &&& 1 <= internal_len_of(b) <= internal_max_keys()
    &&& ascending(internal_keys(b))
    &&& forall|i: int| 0 <= i < internal_keys(b).len() ==> lo < #[trigger] internal_keys(b)[i] < hi
}

/// The lower bound of the keys under child `c`.
pub open spec fn range_lo(keys: Seq<i64>, lo: int, c: int) -> int {
    if c <= 0 {
        lo
    } else {
        keys[c - 1] as int
    }
}

/// The upper bound of the keys under child `c`.
pub open spec fn range_hi(keys: Seq<i64>, hi: int, c: int) -> int {
    if c >= keys.len() {
        hi
    } else {
        keys[c] as int
    }
}

/// The child of page `b` at place `c`, as a page id.
pub open spec fn child_at(b: Seq<u8>, c: int) -> int {
    internal_children(b)[c] as int
}

/// Page `q` is part of the subtree.
pub open spec fn owns(pages: Seq<Seq<u8>>, id: int, h: nat, q: int) -> bool
    decreases h,
{
    q == id || (h > 0 && 0 <= id < pages.len() && exists|c: int|
        0 <= c < internal_children(pages[id]).len() && owns(
            pages,
            #[trigger] child_at(pages[id], c),
            (h - 1) as nat,
            q,
        ))
}

/// A leaf of the subtree holds the entry `(k, r)`.
pub open spec fn holds(pages: Seq<Seq<u8>>, id: int, h: nat, k: i64, r: RowRef) -> bool
    decreases h,
{
    0 <= id < pages.len() && if h == 0 {
        exists|i: int|
            0 <= i < leaf_entries(pages[id]).len() && #[trigger] leaf_entries(pages[id])[i] == (
                k,
                r,
            )
    } else {
        exists|c: int|
            0 <= c < internal_children(pages[id]).len() && holds(
                pages,
                #[trigger] child_at(pages[id], c),
                (h - 1) as nat,
                k,
                r,
            )
    }
}

/// No page is part of both subtrees.
pub open spec fn apart(pages: Seq<Seq<u8>>, a: int, b: int, h: nat) -> bool {
    forall|q: int|
        #![trigger owns(pages, a, h, q)]
        #![trigger owns(pages, b, h, q)]
        !(owns(pages, a, h, q) && owns(pages, b, h, q))
}

/// The subtree is a search tree of height `h` for the keys in `[lo, hi)`:
/// its pages are well formed and carry their own ids in their headers,
/// key `i` of an internal page parts the keys
/// under child `i` from those under child `i + 1`, all leaves are `h`
/// levels down, and no page occurs twice.
pub open spec fn subtree_wf(pages: Seq<Seq<u8>>, id: int, h: nat, lo: int, hi: int) -> bool
    decreases h,
{
    &&& 0 <= id < pages.len()
    &&& page_id_of(pages[id]) == id
    &&& if h == 0 {
        leaf_wf(pages[id], lo, hi)
    } else {
        &&& internal_wf(pages[id], lo, hi)
        &&& forall|c: int|
            0 <= c < internal_children(pages[id]).len() ==> subtree_wf(
                pages,
                #[trigger] child_at(pages[id], c),
                (h - 1) as nat,
                range_lo(internal_keys(pages[id]), lo, c),
                range_hi(internal_keys(pages[id]), hi, c),
            )
        &&& forall|c: int|
            0 <= c < internal_children(pages[id]).len() ==> !owns(
                pages,
                #[trigger] child_at(pages[id], c),
                (h - 1) as nat,
                id,
            )
        &&& forall|c1: int, c2: int|
            0 <= c1 < c2 < internal_children(pages[id]).len() ==> apart(
                pages,
                #[trigger] child_at(pages[id], c1),
                #[trigger] child_at(pages[id], c2),
                (h - 1) as nat,
            )
    }
}

/// The bounds of a child lie within those of its parent, and the bounds
/// of children further right lie further right.
pub proof fn lemma_ranges(keys: Seq<i64>, lo: int, hi: int)
    requires
        ascending(keys),
        forall|i: int| 0 <= i < keys.len() ==> lo < #[trigger] keys[i] < hi,
        lo < hi,
    ensures
        forall|c: int|
            0 <= c <= keys.len() ==> lo <= #[trigger] range_lo(keys, lo, c) < range_hi(keys, hi, c)
                <= hi,
        forall|c1: int, c2: int|
            0 <= c1 < c2 <= keys.len() ==> #[trigger] range_hi(keys, hi, c1) <= #[trigger] range_lo(
                keys,
                lo,
                c2,
            ),
{
    assert forall|c1: int, c2: int| 0 <= c1 < c2 <= keys.len() implies #[trigger] range_hi(
        keys,
        hi,
        c1,
    ) <= #[trigger] range_lo(keys, lo, c2) by {
        if c1 < c2 - 1 {
            assert(keys[c1] < keys[c2 - 1]);
        }
    }
}

/// Every page of a well-formed subtree is a page of the file.
pub proof fn lemma_owns_bound(pages: Seq<Seq<u8>>, id: int, h: nat, lo: int, hi: int, q: int)
    requires
        subtree_wf(pages, id, h, lo, hi),
        owns(pages, id, h, q),
    ensures
        0 <= q < pages.len(),
    decreases h,
{
    if q != id {
        let b = pages[id];
        let c = choose|c: int|
            0 <= c < internal_children(b).len() && owns(
                pages,
                #[trigger] child_at(b, c),
                (h - 1) as nat,
                q,
            );
        lemma_owns_bound(
            pages,
            child_at(b, c),
            (h - 1) as nat,
            range_lo(internal_keys(b), lo, c),
            range_hi(internal_keys(b), hi, c),
            q,
        );
    }
}

/// Every key of a well-formed subtree lies within the subtree's bounds.
pub proof fn lemma_holds_bound(
    pages: Seq<Seq<u8>>,
    id: int,
    h: nat,
    lo: int,
    hi: int,
    k: i64,
    r: RowRef,
)
    requires
        subtree_wf(pages, id, h, lo, hi),
        holds(pages, id, h, k, r),
    ensures
        lo <= k < hi,
    decreases h,
{
    let b = pages[id];
    if h == 0 {
        let i = choose|i: int| 0 <= i < leaf_entries(b).len() && #[trigger] leaf_entries(b)[i] == (k, r);
        assert(leaf_entries(b)[i].0 == k);
    } else {
        let c = choose|c: int|
            0 <= c < internal_children(b).len() && holds(
                pages,
                #[trigger] child_at(b, c),
                (h - 1) as nat,
                k,
                r,
            );
        let keys = internal_keys(b);
        lemma_holds_bound(
            pages,
            child_at(b, c),
            (h - 1) as nat,
            range_lo(keys, lo, c),
            range_hi(keys, hi, c),
            k,
            r,
        );
        assert(lo < keys[0] < hi);
        lemma_ranges(keys, lo, hi);
        assert(lo <= range_lo(keys, lo, c));
    }
}

/// A key between the bounds of child `c` is found under the page if and
/// only if it is found under that child.
pub proof fn lemma_routed(
    pages: Seq<Seq<u8>>,
    id: int,
    h: nat,
    lo: int,
    hi: int,
    c: int,
    k: i64,
    r: RowRef,
)
    requires
        h > 0,
        subtree_wf(pages, id, h, lo, hi),
        0 <= c < internal_children(pages[id]).len(),
        range_lo(internal_keys(pages[id]), lo, c) <= k < range_hi(internal_keys(pages[id]), hi, c),
    ensures
        holds(pages, id, h, k, r) <==> holds(pages, child_at(pages[id], c), (h - 1) as nat, k, r),
{
    let b = pages[id];
    let keys = internal_keys(b);
    if holds(pages, id, h, k, r) {
        let c2 = choose|c2: int|
            0 <= c2 < internal_children(b).len() && holds(
                pages,
                #[trigger] child_at(b, c2),
                (h - 1) as nat,
                k,
                r,
            );
        lemma_holds_bound(
            pages,
            child_at(b, c2),
            (h - 1) as nat,
            range_lo(keys, lo, c2),
            range_hi(keys, hi, c2),
            k,
            r,
        );
        assert(lo < keys[0] < hi);
        lemma_ranges(keys, lo, hi);
        if c2 < c {
            assert(range_hi(keys, hi, c2) <= range_lo(keys, lo, c));
        }
        if c < c2 {
            assert(range_hi(keys, hi, c) <= range_lo(keys, lo, c2));
        }
        assert(c2 == c);
    }
}

/// A well-formed subtree holds at most one entry for a key.
pub proof fn lemma_holds_unique(
    pages: Seq<Seq<u8>>,
    id: int,
    h: nat,
    lo: int,
    hi: int,
    k: i64,
    r1: RowRef,
    r2: RowRef,
)
    requires
        subtree_wf(pages, id, h, lo, hi),
        holds(pages, id, h, k, r1),
        holds(pages, id, h, k, r2),
    ensures
        r1 == r2,
    decreases h,
{
    let b = pages[id];
    if h == 0 {
        let es = leaf_entries(b);
        let i1 = choose|i: int| 0 <= i < es.len() && #[trigger] es[i] == (k, r1);
        let i2 = choose|i: int| 0 <= i < es.len() && #[trigger] es[i] == (k, r2);
        assert(es[i1].0 == k && es[i2].0 == k);
        assert(i1 == i2);
    } else {
        let keys = internal_keys(b);
        let c = choose|c: int|
            0 <= c < internal_children(b).len() && holds(
                pages,
                #[trigger] child_at(b, c),
                (h - 1) as nat,
                k,
                r1,
            );
        lemma_holds_bound(
            pages,
            child_at(b, c),
            (h - 1) as nat,
            range_lo(keys, lo, c),
            range_hi(keys, hi, c),
            k,
            r1,
        );
        lemma_routed(pages, id, h, lo, hi, c, k, r2);
        lemma_holds_unique(
            pages,
            child_at(b, c),
            (h - 1) as nat,
            range_lo(keys, lo, c),
            range_hi(keys, hi, c),
            k,
            r1,
            r2,
        );
    }
}

/// A subtree means the same in two files that agree on the subtree's
/// pages.
pub proof fn lemma_frame(
    pages0: Seq<Seq<u8>>,
    pages2: Seq<Seq<u8>>,
    id: int,
    h: nat,
    lo: int,
    hi: int,
)
    requires
        subtree_wf(pages0, id, h, lo, hi),
        pages0.len() <= pages2.len(),
        forall|q: int| owns(pages0, id, h, q) ==> pages2[q] == pages0[q],
    ensures
        subtree_wf(pages2, id, h, lo, hi),
        forall|q: int| owns(pages2, id, h, q) <==> owns(pages0, id, h, q),
        forall|k: i64, r: RowRef| holds(pages2, id, h, k, r) <==> holds(pages0, id, h, k, r),
    decreases h,
{
    assert(owns(pages0, id, h, id));
    assert(pages2[id] == pages0[id]);
    if h > 0 {
        let b = pages0[id];
        let keys = internal_keys(b);
        let n = internal_children(b).len();
        let g = (h - 1) as nat;
        assert forall|c: int| 0 <= c < n implies {
            &&& subtree_wf(
                pages2,
                #[trigger] child_at(b, c),
                g,
                range_lo(keys, lo, c),
                range_hi(keys, hi, c),
            )
            &&& forall|q: int| owns(pages2, child_at(b, c), g, q) <==> owns(pages0, child_at(b, c), g, q)
            &&& forall|k: i64, r: RowRef|
                holds(pages2, child_at(b, c), g, k, r) <==> holds(pages0, child_at(b, c), g, k, r)
        } by {
            assert forall|q: int| owns(pages0, child_at(b, c), g, q) implies pages2[q] == pages0[q] by {
                assert(owns(pages0, id, h, q));
            }
            lemma_frame(pages0, pages2, child_at(b, c), g, range_lo(keys, lo, c), range_hi(keys, hi, c));
        }
        assert forall|q: int| owns(pages2, id, h, q) <==> owns(pages0, id, h, q) by {
            if owns(pages2, id, h, q) && q != id {
                let c = choose|c: int| 0 <= c < n && owns(pages2, #[trigger] child_at(b, c), g, q);
                assert(owns(pages0, child_at(b, c), g, q));
            }
            if owns(pages0, id, h, q) && q != id {
                let c = choose|c: int| 0 <= c < n && owns(pages0, #[trigger] child_at(b, c), g, q);
                assert(owns(pages2, child_at(b, c), g, q));
            }
        }
        assert forall|k: i64, r: RowRef| holds(pages2, id, h, k, r) <==> holds(pages0, id, h, k, r) by {
            if holds(pages2, id, h, k, r) {
                let c = choose|c: int| 0 <= c < n && holds(pages2, #[trigger] child_at(b, c), g, k, r);
                assert(holds(pages0, child_at(b, c), g, k, r));
            }
            if holds(pages0, id, h, k, r) {
                let c = choose|c: int| 0 <= c < n && holds(pages0, #[trigger] child_at(b, c), g, k, r);
                assert(holds(pages2, child_at(b, c), g, k, r));
            }
        }
        assert forall|c1: int, c2: int| 0 <= c1 < c2 < n implies apart(
            pages2,
            #[trigger] child_at(b, c1),
            #[trigger] child_at(b, c2),
            g,
        ) by {
            assert(apart(pages0, child_at(b, c1), child_at(b, c2), g));
        }
    }
}

/// A subtree has one height only.
pub proof fn lemma_height_unique(
    pages: Seq<Seq<u8>>,
    id: int,
    h1: nat,
    lo1: int,
    hi1: int,
    h2: nat,
    lo2: int,
    hi2: int,
)
    requires
        subtree_wf(pages, id, h1, lo1, hi1),
        subtree_wf(pages, id, h2, lo2, hi2),
    ensures
        h1 == h2,
    decreases h1,
{
    if h1 > 0 && h2 > 0 {
        let b = pages[id];
        let keys = internal_keys(b);
        lemma_height_unique(
            pages,
            child_at(b, 0),
            (h1 - 1) as nat,
            range_lo(keys, lo1, 0),
            range_hi(keys, hi1, 0),
            (h2 - 1) as nat,
            range_lo(keys, lo2, 0),
            range_hi(keys, hi2, 0),
        );
    }
}

/// The pages are a tree of height `h` with its root at page 0.
pub open spec fn is_tree(pages: Seq<Seq<u8>>, h: nat) -> bool {
    subtree_wf(pages, 0, h, key_floor(), key_ceiling())
}

/// The height of the tree that the pages are, if they are one.
pub open spec fn tree_height(pages: Seq<Seq<u8>>) -> nat {
    choose|h: nat| is_tree(pages, h)
}

/// The map that the pages hold: every entry of every leaf under page 0.
pub open spec fn tree_map(pages: Seq<Seq<u8>>) -> Map<i64, RowRef> {
    Map::new(
        |k: i64| exists|r: RowRef| holds(pages, 0, tree_height(pages), k, r),
        |k: i64| choose|r: RowRef| holds(pages, 0, tree_height(pages), k, r),
    )
}

/// The map of a tree holds exactly what the leaves under the root hold.
pub proof fn lemma_tree_map(pages: Seq<Seq<u8>>, h: nat)
    requires
        is_tree(pages, h),
    ensures
        tree_height(pages) == h,
        forall|k: i64, r: RowRef|
            holds(pages, 0, h, k, r) <==> tree_map(pages).contains_key(k) && tree_map(pages)[k] == r,
{
    let h2 = tree_height(pages);
    lemma_height_unique(pages, 0, h, key_floor(), key_ceiling(), h2, key_floor(), key_ceiling());
    assert forall|k: i64, r: RowRef|
        holds(pages, 0, h, k, r) <==> tree_map(pages).contains_key(k) && tree_map(pages)[k] == r by {
        if holds(pages, 0, h, k, r) {
            let r2 = choose|r2: RowRef| holds(pages, 0, h, k, r2);
            lemma_holds_unique(pages, 0, h, key_floor(), key_ceiling(), k, r, r2);
        }
    }
}

/// The pages of a subtree, as a set.
pub open spec fn owned(pages: Seq<Seq<u8>>, id: int, h: nat) -> Set<int> {
    Set::new(|q: int| owns(pages, id, h, q))
}

/// A subtree of height `h` is made of at least `h + 1` pages, one for
/// each level, and of no more pages than the file has.
pub proof fn lemma_owned_count(pages: Seq<Seq<u8>>, id: int, h: nat, lo: int, hi: int)
    requires
        subtree_wf(pages, id, h, lo, hi),
    ensures
        owned(pages, id, h).finite(),
        h + 1 <= owned(pages, id, h).len() <= pages.len(),
    decreases h,
{
    let all = set_int_range(0, pages.len() as int);
    let mine = owned(pages, id, h);
    assert forall|q: int| mine.contains(q) implies all.contains(q) by {
        lemma_owns_bound(pages, id, h, lo, hi, q);
    }
    lemma_int_range(0, pages.len() as int);
    lemma_len_subset(mine, all);
    if h == 0 {
        assert(mine =~= Set::<int>::empty().insert(id));
    } else {
        let b = pages[id];
        let c0 = child_at(b, 0);
        let g = (h - 1) as nat;
        let keys = internal_keys(b);
        lemma_owned_count(pages, c0, g, range_lo(keys, lo, 0), range_hi(keys, hi, 0));
        let below = owned(pages, c0, g);
        let part = below.insert(id);
        assert(!below.contains(id));
        assert forall|q: int| part.contains(q) implies mine.contains(q) by {
            if q != id {
                assert(owns(pages, child_at(b, 0), g, q));
            }
        }
        lemma_len_subset(part, mine);
    }
}

/// A tree is not higher than its file has pages.
pub proof fn lemma_height_below_pages(pages: Seq<Seq<u8>>, h: nat)
    requires
        is_tree(pages, h),
    ensures
        h + 1 <= pages.len(),
{
    lemma_owned_count(pages, 0, h, key_floor(), key_ceiling());
}

} // verus!
