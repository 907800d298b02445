//! How many keys a tree of a given height can hold, and so how many keys
//! force a split.

use super::btree::RowRef;
use super::grow::{added, parts};
use super::heap::PageId;
use super::kids::{kids_hold, kids_wf, lemma_kids_of_node};
use super::node::{
    internal_children, internal_keys, internal_max_keys, leaf_entries, leaf_len_of,
    leaf_max_entries,
};
use super::tree::{
    holds, is_tree, key_ceiling, key_floor, lemma_height_below_pages, lemma_tree_map, range_hi,
    range_lo, subtree_wf, tree_map,
};
use vstd::prelude::*;
use vstd::seq_lib::seq_to_set_is_finite;
use vstd::set_lib::lemma_len_union;

verus! {

/// The keys that the leaves of a subtree hold.
pub open spec fn keys_under(pages: Seq<Seq<u8>>, id: int, h: nat) -> Set<i64> {
    Set::new(|k: i64| exists|r: RowRef| holds(pages, id, h, k, r))
}

/// The keys that the leaves under the first `n` children hold.
pub open spec fn keys_under_first(pages: Seq<Seq<u8>>, kids: Seq<PageId>, g: nat, n: int) -> Set<
    i64,
> {
    Set::new(|k: i64| exists|r: RowRef| kids_hold(pages, kids.subrange(0, n), g, k, r))
}

/// The most keys that a tree of height `h` holds: a leaf holds as many
/// as it has room for entries, and an internal page has one child more
/// than it has room for keys.
pub open spec fn capacity(h: nat) -> nat
    decreases h,
{
    if h == 0 {
        leaf_max_entries() as nat
    } else {
        (internal_max_keys() + 1) as nat * capacity((h - 1) as nat)
    }
}

/// A subtree of height `h` holds no more keys than a tree of that height
/// can.
pub proof fn lemma_keys_under(pages: Seq<Seq<u8>>, id: int, h: nat, lo: int, hi: int)
    requires
        subtree_wf(pages, id, h, lo, hi),
    ensures
        keys_under(pages, id, h).finite(),
        keys_under(pages, id, h).len() <= capacity(h),
    decreases h, 0nat,
{
    if h == 0 {
        let es = leaf_entries(pages[id]);
        let ks = Seq::new(es.len(), |i: int| es[i].0);
        seq_to_set_is_finite(ks);
        ks.lemma_cardinality_of_set();
        assert forall|k: i64| keys_under(pages, id, h).contains(k) <==> ks.to_set().contains(k) by {
            if keys_under(pages, id, h).contains(k) {
                let r = choose|r: RowRef| holds(pages, id, h, k, r);
                let i = choose|i: int| 0 <= i < es.len() && #[trigger] es[i] == (k, r);
                assert(ks[i] == k);
            }
            if ks.to_set().contains(k) {
                let i = choose|i: int| 0 <= i < ks.len() && ks[i] == k;
                assert(es[i] == (k, es[i].1));
                assert(holds(pages, id, h, k, es[i].1));
            }
        }
        assert(keys_under(pages, id, h) =~= ks.to_set());
    } else {
        let kids = internal_children(pages[id]);
        let g = (h - 1) as nat;
        lemma_kids_of_node(pages, id, h, lo, hi);
        lemma_keys_under_first(pages, internal_keys(pages[id]), kids, g, lo, hi, kids.len() as int);
        assert(kids.subrange(0, kids.len() as int) =~= kids);
        assert(keys_under(pages, id, h) =~= keys_under_first(pages, kids, g, kids.len() as int));
        assert(kids.len() * capacity(g) <= (internal_max_keys() + 1) * capacity(g))
            by (nonlinear_arith)
            requires
                kids.len() <= internal_max_keys() + 1,
        ;
    }
}

/// The first `n` children hold no more keys than `n` trees of their
/// height can.
pub proof fn lemma_keys_under_first(
    pages: Seq<Seq<u8>>,
    keys: Seq<i64>,
    kids: Seq<PageId>,
    g: nat,
    lo: int,
    hi: int,
    n: int,
)
    requires
        kids_wf(pages, keys, kids, g, lo, hi),
        0 <= n <= kids.len(),
    ensures
        keys_under_first(pages, kids, g, n).finite(),
        keys_under_first(pages, kids, g, n).len() <= n * capacity(g),
    decreases g, 1nat, n,
{
    if n == 0 {
        assert(keys_under_first(pages, kids, g, n) =~= Set::<i64>::empty());
    } else {
        let last = kids[n - 1] as int;
        let front = kids.subrange(0, n - 1);
        let upto = kids.subrange(0, n);
        lemma_keys_under_first(pages, keys, kids, g, lo, hi, n - 1);
        lemma_keys_under(pages, last, g, range_lo(keys, lo, n - 1), range_hi(keys, hi, n - 1));
        let before = keys_under_first(pages, kids, g, n - 1);
        let more = keys_under(pages, last, g);
        let all = keys_under_first(pages, kids, g, n);
        lemma_len_union(before, more);
        assert forall|k: i64| all.contains(k) <==> before.union(more).contains(k) by {
            if all.contains(k) {
                let r = choose|r: RowRef| kids_hold(pages, upto, g, k, r);
                let c = choose|c: int|
                    0 <= c < upto.len() && holds(pages, (#[trigger] upto[c]) as int, g, k, r);
                if c < n - 1 {
                    assert(front[c] == upto[c]);
                    assert(holds(pages, front[c] as int, g, k, r));
                    assert(kids_hold(pages, front, g, k, r));
                } else {
                    assert(holds(pages, last, g, k, r));
                }
            }
            if before.contains(k) {
                let r = choose|r: RowRef| kids_hold(pages, front, g, k, r);
                let c = choose|c: int|
                    0 <= c < front.len() && holds(pages, (#[trigger] front[c]) as int, g, k, r);
                assert(upto[c] == front[c]);
                assert(holds(pages, upto[c] as int, g, k, r));
                assert(kids_hold(pages, upto, g, k, r));
            }
            if more.contains(k) {
                let r = choose|r: RowRef| holds(pages, last, g, k, r);
                assert(upto[n - 1] == kids[n - 1]);
                assert(holds(pages, upto[n - 1] as int, g, k, r));
                assert(kids_hold(pages, upto, g, k, r));
            }
        }
        assert(all =~= before.union(more));
        assert((n - 1) * capacity(g) + capacity(g) == n * capacity(g)) by (nonlinear_arith);
    }
}

/// A tree that is one leaf holds as many keys as the leaf has entries. So
/// as long as it holds fewer keys than a leaf has room for, an insertion
/// parts no page and adds none.
pub proof fn lemma_leaf_count(pages: Seq<Seq<u8>>, key: i64)
    requires
        is_tree(pages, 0),
    ensures
        tree_map(pages).dom().finite(),
        tree_map(pages).dom().len() == leaf_len_of(pages[0]),
        tree_map(pages).dom().len() < leaf_max_entries() ==> !parts(pages, 0, 0, key) && added(
            pages,
            0,
            0,
            key,
        ) == 0,
{
    lemma_tree_map(pages, 0);
    let es = leaf_entries(pages[0]);
    let ks = Seq::new(es.len(), |i: int| es[i].0);
    assert(ks.no_duplicates()) by {
        assert forall|i: int, j: int| 0 <= i < ks.len() && 0 <= j < ks.len() && i != j implies ks[i]
            != ks[j] by {
            if i < j {
                assert(es[i].0 < es[j].0);
            } else {
                assert(es[j].0 < es[i].0);
            }
        }
    }
    seq_to_set_is_finite(ks);
    ks.unique_seq_to_set();
    assert forall|k: i64| tree_map(pages).dom().contains(k) <==> ks.to_set().contains(k) by {
        if tree_map(pages).dom().contains(k) {
            let r = tree_map(pages)[k];
            assert(holds(pages, 0, 0, k, r));
            let i = choose|i: int| 0 <= i < es.len() && #[trigger] es[i] == (k, r);
            assert(ks[i] == k);
        }
        if ks.to_set().contains(k) {
            let i = choose|i: int| 0 <= i < ks.len() && ks[i] == k;
            assert(es[i] == (k, es[i].1));
            assert(holds(pages, 0, 0, k, es[i].1));
        }
    }
    assert(tree_map(pages).dom() =~= ks.to_set());
}

/// A tree of height `h` holds no more keys than `capacity(h)`.
pub proof fn lemma_tree_capacity(pages: Seq<Seq<u8>>, h: nat)
    requires
        is_tree(pages, h),
    ensures
        tree_map(pages).dom().finite(),
        tree_map(pages).dom().len() <= capacity(h),
{
    lemma_tree_map(pages, h);
    lemma_keys_under(pages, 0, h, key_floor(), key_ceiling());
    assert(tree_map(pages).dom() =~= keys_under(pages, 0, h));
}

/// More keys than a leaf has room for force a split: the tree is then
/// higher than a leaf, its root is an internal page, and its file has
/// more than one page. More keys than all the leaves under one internal
/// page have room for force a split of an internal root: the tree then
/// has at least two levels of internal pages.
pub proof fn lemma_many_keys_force_splits(pages: Seq<Seq<u8>>, h: nat)
    requires
        is_tree(pages, h),
    ensures
        tree_map(pages).dom().len() > leaf_max_entries() ==> h >= 1 && pages.len() >= 2,
        tree_map(pages).dom().len() > (internal_max_keys() + 1) * leaf_max_entries() ==> h >= 2
            && pages.len() >= 3,
{
    lemma_tree_capacity(pages, h);
    lemma_height_below_pages(pages, h);
    assert(leaf_max_entries() == 582);
    assert(internal_max_keys() == 679);
    assert(capacity(0) == 582);
    assert(capacity(1) == 680 * 582) by {
        reveal_with_fuel(capacity, 2);
    }
    if h == 0 {
        assert(tree_map(pages).dom().len() <= 582);
    } else if h == 1 {
        assert(tree_map(pages).dom().len() <= 680 * 582);
    }
}

} // verus!
