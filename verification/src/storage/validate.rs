//! Telling whether an index file holds a tree.
//!
//! `BTree::open` takes any file image of whole pages. `BTree::validate`
//! walks the pages from page 0 and says whether they are a tree with
//! chained leaves, which is what the other operations ask for.

use super::btree::BTree;
use super::chain::{chained, first_leaf, is_index, lemma_next_start, next_start};
use super::heap::PageId;
use super::node::{
    internal_children, internal_keys, internal_len_of, internal_max_keys, leaf_entries, leaf_len_of,
    leaf_max_entries,
};
use super::page::{page_id_of, Page, PageFlags};
use super::tree::{
    apart, ascending, child_at, entries_ascending, is_tree_page, key_ceiling, key_floor, leaf_wf,
    lemma_height_unique, lemma_owned_count, lemma_owns_bound, owns, range_hi, range_lo, subtree_wf,
};
use vstd::prelude::*;

verus! {

/// The upper bound that an optional key stands for: no key is no bound.
pub open spec fn bound_of(hi: Option<i64>) -> int {
    match hi {
        Some(k) => k as int,
        None => key_ceiling(),
    }
}

/// The number of pages that have not been seen.
pub open spec fn unseen(seen: Seq<bool>) -> nat
    decreases seen.len(),
{
    if seen.len() == 0 {
        0
    } else {
        unseen(seen.drop_last()) + if seen.last() {
            0nat
        } else {
            1nat
        }
    }
}

/// Seeing a page that was not seen leaves one unseen page less.
pub proof fn lemma_unseen_mark(seen: Seq<bool>, i: int)
    requires
        0 <= i < seen.len(),
        !seen[i],
    ensures
        unseen(seen.update(i, true)) + 1 == unseen(seen),
    decreases seen.len(),
{
    let marked = seen.update(i, true);
    if i == seen.len() - 1 {
        assert(marked.drop_last() =~= seen.drop_last());
    } else {
        assert(marked.drop_last() =~= seen.drop_last().update(i, true));
        lemma_unseen_mark(seen.drop_last(), i);
    }
}

/// Seeing more pages leaves no more pages unseen.
pub proof fn lemma_unseen_grows(before: Seq<bool>, after: Seq<bool>)
    requires
        before.len() == after.len(),
        forall|i: int| 0 <= i < before.len() && before[i] ==> after[i],
    ensures
        unseen(after) <= unseen(before),
    decreases before.len(),
{
    if before.len() > 0 {
        lemma_unseen_grows(before.drop_last(), after.drop_last());
    }
}

/// The subtree is well formed and chained, and none of its pages has
/// been seen.
pub open spec fn fits(
    pages: Seq<Seq<u8>>,
    id: int,
    h: nat,
    lo: int,
    hi: int,
    tail: int,
    seen: Seq<bool>,
) -> bool {
    &&& subtree_wf(pages, id, h, lo, hi)
    &&& chained(pages, id, h, tail)
    &&& forall|q: int| #[trigger] owns(pages, id, h, q) ==> !seen[q]
}

impl BTree {
    /// Whether the entries of a leaf ascend strictly by key and lie in
    /// `[lo, hi)`, and are no more than a leaf has room for.
    fn leaf_in_order(page: &Page, lo: i64, hi: Option<i64>) -> (ok: bool)
        ensures
            ok == (leaf_len_of(page@) <= leaf_max_entries() && entries_ascending(
                leaf_entries(page@),
            ) && forall|i: int|
                0 <= i < leaf_entries(page@).len() ==> lo <= (#[trigger] leaf_entries(page@)[i]).0
                    < bound_of(hi)),
    {
        let n = Self::leaf_num_entries(page) as usize;
        if n > leaf_max_entries() {
            return false;
        }
        let ghost es = leaf_entries(page@);
        let mut i: usize = 0;
        let mut prev: i64 = lo;
        while i < n
            invariant
                n == leaf_len_of(page@),
                n <= leaf_max_entries(),
                es == leaf_entries(page@),
                i <= n,
                i > 0 ==> prev == es[i - 1].0,
                i == 0 ==> prev == lo,
                forall|a: int, b: int| 0 <= a < b < i ==> es[a].0 < es[b].0,
                forall|a: int| 0 <= a < i ==> lo <= (#[trigger] es[a]).0 < bound_of(hi),
            decreases n - i,
        {
            let k = Self::leaf_get_key(page, i);
            assert(es[i as int].0 == k);
            let above = if i == 0 {
                lo <= k
            } else {
                prev < k
            };
            let below = match hi {
                Some(top) => k < top,
                None => true,
            };
            if !above || !below {
                proof {
                    if i > 0 && !above {
                        assert(!(es[i - 1].0 < es[i as int].0));
                    }
                }
                return false;
            }
            proof {
                assert forall|a: int, b: int| 0 <= a < b < i + 1 implies es[a].0 < es[b].0 by {
                    if b == i && a < i - 1 {
                        assert(es[a].0 < es[i - 1].0);
                    }
                }
            }
            prev = k;
            i = i + 1;
        }
        true
    }

    /// Whether an internal page has at least one key and no more than it
    /// has room for, and its keys ascend strictly and lie strictly
    /// between `lo` and `hi`.
    fn keys_in_order(page: &Page, lo: i64, hi: Option<i64>) -> (ok: bool)
        ensures
            ok == (1 <= internal_len_of(page@) <= internal_max_keys() && ascending(
                internal_keys(page@),
            ) && forall|i: int|
                0 <= i < internal_keys(page@).len() ==> lo < #[trigger] internal_keys(page@)[i]
                    < bound_of(hi)),
    {
        let n = Self::internal_num_keys(page) as usize;
        if n < 1 || n > internal_max_keys() {
            return false;
        }
        let ghost keys = internal_keys(page@);
        let mut i: usize = 0;
        let mut prev: i64 = lo;
        while i < n
            invariant
                n == internal_len_of(page@),
                1 <= n <= internal_max_keys(),
                keys == internal_keys(page@),
                i <= n,
                i > 0 ==> prev == keys[i - 1],
                i == 0 ==> prev == lo,
                forall|a: int, b: int| 0 <= a < b < i ==> keys[a] < keys[b],
                forall|a: int| 0 <= a < i ==> lo < #[trigger] keys[a] < bound_of(hi),
            decreases n - i,
        {
            let k = Self::internal_get_key(page, i);
            assert(keys[i as int] == k);
            let below = match hi {
                Some(top) => k < top,
                None => true,
            };
            if !(prev < k) || !below {
                proof {
                    if i > 0 && !(prev < k) {
                        assert(!(keys[i - 1] < keys[i as int]));
                    }
                }
                return false;
            }
            proof {
                assert forall|a: int, b: int| 0 <= a < b < i + 1 implies keys[a] < keys[b] by {
                    if b == i && a < i - 1 {
                        assert(keys[a] < keys[i - 1]);
                    }
                }
                if i > 0 {
                    assert(lo < keys[i - 1]);
                }
            }
            prev = k;
            i = i + 1;
        }
        true
    }
}

/// One of the children from place `from` on has the page in its subtree.
pub open spec fn later_kids_own(pages: Seq<Seq<u8>>, kids: Seq<PageId>, g: nat, from: int, q: int) -> bool {
    exists|j: int| from <= j < kids.len() && owns(pages, (#[trigger] kids[j]) as int, g, q)
}

/// What is known of the children from place `from` on once they have
/// been walked, the last one first: each is a well-formed subtree of
/// height `g` whose leaves are chained into the next child's, no two
/// share a page, and the pages seen since the walk began are theirs.
pub open spec fn walked(
    pages: Seq<Seq<u8>>,
    id: int,
    keys: Seq<i64>,
    kids: Seq<PageId>,
    g: nat,
    lo: int,
    hi: int,
    tail: int,
    from: int,
    seen0: Seq<bool>,
    seen: Seq<bool>,
) -> bool {
    &&& forall|j: int|
        from <= j < kids.len() ==> subtree_wf(
            pages,
            (#[trigger] kids[j]) as int,
            g,
            range_lo(keys, lo, j),
            range_hi(keys, hi, j),
        ) && chained(pages, kids[j] as int, g, next_start(pages, kids, g, tail, j))
    &&& forall|j1: int, j2: int|
        from <= j1 < j2 < kids.len() ==> apart(
            pages,
            (#[trigger] kids[j1]) as int,
            (#[trigger] kids[j2]) as int,
            g,
        )
    &&& forall|q: int|
        0 <= q < seen.len() ==> #[trigger] seen[q] == (seen0[q] || q == id || later_kids_own(
            pages,
            kids,
            g,
            from,
            q,
        ))
    &&& forall|j: int, q: int|
        from <= j < kids.len() && #[trigger] owns(pages, kids[j] as int, g, q) ==> !seen0[q] && q
            != id
}

impl BTree {
    /// Whether the index file holds a tree, or no page at all: whether
    /// the other operations can be used on it.
    pub fn validate(&self) -> (ok: bool)
        requires
            self.heap_wf(),
        ensures
            ok == self.valid(),
    {
        let n = self.num_pages();
        if n == 0 {
            return true;
        }
        let mut seen: Vec<bool> = Vec::new();
        let mut i: u32 = 0;
        while i < n
            invariant
                i <= n,
                seen@.len() == i,
                forall|q: int| 0 <= q < i ==> !seen@[q],
            decreases n - i,
        {
            seen.push(false);
            i = i + 1;
        }
        let ghost seen0 = seen@;
        let ghost pages = self.pages();
        match self.validate_from(0, i64::MIN, None, 0, &mut seen) {
            Some((h, _)) => {
                assert(is_index(pages, h as nat));
                true
            },
            None => {
                proof {
                    assert forall|h: nat| !is_index(pages, h) by {
                        if is_index(pages, h) {
                            assert forall|q: int| #[trigger] owns(pages, 0, h, q) implies !seen0[q] by {
                                lemma_owns_bound(pages, 0, h, key_floor(), key_ceiling(), q);
                            }
                            assert(fits(pages, 0, h, i64::MIN as int, bound_of(None), 0, seen0));
                        }
                    }
                }
                false
            },
        }
    }

    /// Walks the subtree under a page. Returns its height and its first
    /// leaf where it is a well-formed subtree for the keys from `lo` to
    /// below `hi`, with leaves chained up to `tail`, none of whose pages
    /// was seen before; the pages are then seen.
    fn validate_from(
        &self,
        page_id: PageId,
        lo: i64,
        hi: Option<i64>,
        tail: PageId,
        seen: &mut Vec<bool>,
    ) -> (res: Option<(u32, PageId)>)
        requires
            self.heap_wf(),
            old(seen)@.len() == self.pages().len(),
        ensures
            final(seen)@.len() == old(seen)@.len(),
            forall|q: int| 0 <= q < old(seen)@.len() && old(seen)@[q] ==> final(seen)@[q],
            match res {
                Some((h, first)) => {
                    &&& fits(
                        self.pages(),
                        page_id as int,
                        h as nat,
                        lo as int,
                        bound_of(hi),
                        tail as int,
                        old(seen)@,
                    )
                    &&& first == first_leaf(self.pages(), page_id as int, h as nat)
                    &&& forall|q: int|
                        0 <= q < old(seen)@.len() ==> final(seen)@[q] == (old(seen)@[q] || owns(
                            self.pages(),
                            page_id as int,
                            h as nat,
                            q,
                        ))
                },
                None => forall|h: nat|
                    !fits(
                        self.pages(),
                        page_id as int,
                        h,
                        lo as int,
                        bound_of(hi),
                        tail as int,
                        old(seen)@,
                    ),
            },
        decreases unseen(old(seen)@),
    {
        let ghost pages = self.pages();
        let ghost id = page_id as int;
        let ghost seen0 = seen@;
        let ghost top = bound_of(hi);
        let total = self.num_pages();
        if page_id >= total {
            return None;
        }
        if seen[page_id as usize] {
            proof {
                assert forall|h: nat| !fits(pages, id, h, lo as int, top, tail as int, seen0) by {
                    assert(owns(pages, id, h, id));
                }
            }
            return None;
        }
        let page = match self.read_node(page_id) {
            Ok(p) => p,
            Err(_) => {
                return None;
            },
        };
        seen[page_id as usize] = true;
        let ghost seen1 = seen@;
        proof {
            page.lemma_len();
            lemma_unseen_mark(seen0, id);
            assert(seen1 =~= seen0.update(id, true));
        }
        let ghost b = pages[id];
        if page.page_id() != page_id {
            return None;
        }
        let flags = Self::flags(&page);
        if flags == PageFlags::Leaf.code() {
            if !Self::leaf_in_order(&page, lo, hi) || Self::leaf_next(&page) != tail {
                proof {
                    assert forall|h: nat| !fits(
                        pages,
                        id,
                        h,
                        lo as int,
                        top,
                        tail as int,
                        seen0,
                    ) by {}
                }
                return None;
            }
            proof {
                assert(leaf_wf(b, lo as int, top));
                assert(subtree_wf(pages, id, 0, lo as int, top));
            }
            return Some((0, page_id));
        }
        if flags != PageFlags::Internal.code() || !Self::keys_in_order(&page, lo, hi) {
            proof {
                assert forall|h: nat| !fits(pages, id, h, lo as int, top, tail as int, seen0) by {}
            }
            return None;
        }
        let n = Self::internal_num_keys(&page) as usize;
        let ghost keys = internal_keys(b);
        let ghost kids = internal_children(b);
        let mut c: usize = n + 1;
        let mut next_first: PageId = tail;
        let mut height: u32 = 0;
        let mut failed = false;
        let ghost mut g: nat = 0;
        while c > 0 && !failed
            invariant
                self.heap_wf(),
                pages == self.pages(),
                total == pages.len(),
                0 <= id < pages.len(),
                id == page_id,
                page_id_of(b) == id,
                page@ == b,
                b == pages[id],
                top == bound_of(hi),
                is_tree_page(b, PageFlags::Internal),
                n == internal_len_of(b),
                1 <= n <= internal_max_keys(),
                ascending(keys),
                forall|i: int| 0 <= i < keys.len() ==> lo < #[trigger] keys[i] < top,
                keys == internal_keys(b),
                kids == internal_children(b),
                c <= n + 1,
                seen@.len() == pages.len(),
                seen0 == old(seen)@,
                seen0.len() == pages.len(),
                !seen0[id],
                forall|q: int| 0 <= q < seen0.len() && seen0[q] ==> seen@[q],
                unseen(seen@) < unseen(seen0),
                failed ==> forall|h: nat| !fits(pages, id, h, lo as int, top, tail as int, seen0),
                !failed ==> walked(
                    pages,
                    id,
                    keys,
                    kids,
                    g,
                    lo as int,
                    top,
                    tail as int,
                    c as int,
                    seen0,
                    seen@,
                ),
                !failed && c <= n ==> height == g && next_first == first_leaf(
                    pages,
                    kids[c as int] as int,
                    g,
                ),
                !failed && c == n + 1 ==> next_first == tail,
            decreases c + (if failed { 0int } else { 1int }),
        {
            let j = c - 1;
            let child = Self::internal_get_child(&page, j);
            let child_lo = if j == 0 {
                lo
            } else {
                Self::internal_get_key(&page, j - 1)
            };
            let child_hi = if j == n {
                hi
            } else {
                Some(Self::internal_get_key(&page, j))
            };
            let ghost seen_before = seen@;
            let first_walk = c == n + 1;
            proof {
                assert(kids[j as int] == child);
                assert(child as int == child_at(b, j as int));
                assert(child_lo as int == range_lo(keys, lo as int, j as int));
                assert(bound_of(child_hi) == range_hi(keys, top, j as int));
                lemma_next_start(pages, kids, g, tail as int, j as int);
            }
            let walk = self.validate_from(child, child_lo, child_hi, next_first, seen);
            proof {
                lemma_unseen_grows(seen_before, seen@);
            }
            match walk {
                Some((hc, fc)) => {
                    if !first_walk && hc != height {
                        failed = true;
                        proof {
                            assert forall|h: nat| !fits(
                                pages,
                                id,
                                h,
                                lo as int,
                                top,
                                tail as int,
                                seen0,
                            ) by {
                                if fits(pages, id, h, lo as int, top, tail as int, seen0) {
                                    let after = child_at(b, j + 1);
                                    assert(kids[j + 1] as int == after);
                                    lemma_height_unique(
                                        pages,
                                        after,
                                        g,
                                        range_lo(keys, lo as int, j + 1),
                                        range_hi(keys, top, j + 1),
                                        (h - 1) as nat,
                                        range_lo(keys, lo as int, j + 1),
                                        range_hi(keys, top, j + 1),
                                    );
                                    lemma_height_unique(
                                        pages,
                                        child as int,
                                        hc as nat,
                                        child_lo as int,
                                        bound_of(child_hi),
                                        (h - 1) as nat,
                                        child_lo as int,
                                        bound_of(child_hi),
                                    );
                                }
                            }
                        }
                    } else {
                        proof {
                            let g2 = hc as nat;
                            if !first_walk {
                                assert(g2 == g);
                            } else {
                                lemma_next_start(pages, kids, g2, tail as int, j as int);
                            }
                            lemma_walked_on(
                                pages,
                                id,
                                keys,
                                kids,
                                g2,
                                lo as int,
                                top,
                                tail as int,
                                j as int,
                                seen0,
                                seen_before,
                                seen@,
                                first_walk,
                            );
                            g = g2;
                        }
                        height = hc;
                        next_first = fc;
                        c = j;
                    }
                },
                None => {
                    failed = true;
                    proof {
                        assert forall|h: nat| !fits(
                            pages,
                            id,
                            h,
                            lo as int,
                            top,
                            tail as int,
                            seen0,
                        ) by {
                            if fits(pages, id, h, lo as int, top, tail as int, seen0) {
                                lemma_child_fits(
                                    pages,
                                    id,
                                    h,
                                    g,
                                    lo as int,
                                    top,
                                    tail as int,
                                    j as int,
                                    seen0,
                                    seen_before,
                                    first_walk,
                                );
                                lemma_next_start(pages, kids, (h - 1) as nat, tail as int, j as int);
                            }
                        }
                    }
                },
            }
        }
        if failed {
            return None;
        }
        proof {
            lemma_walked_all(pages, id, g, lo as int, top, tail as int, seen0, seen@);
            lemma_owned_count(pages, id, g + 1, lo as int, top);
        }
        Some((height + 1, next_first))
    }
}

/// One more child walked: what was known of the children behind child
/// `j` is now known of the children from child `j` on.
pub proof fn lemma_walked_on(
    pages: Seq<Seq<u8>>,
    id: int,
    keys: Seq<i64>,
    kids: Seq<PageId>,
    g: nat,
    lo: int,
    hi: int,
    tail: int,
    j: int,
    seen0: Seq<bool>,
    seen_before: Seq<bool>,
    seen_after: Seq<bool>,
    first_walk: bool,
)
    requires
        0 <= j < kids.len(),
        0 <= id < seen0.len(),
        seen0.len() == seen_before.len() == seen_after.len(),
        seen0.len() == pages.len(),
        first_walk <==> j == kids.len() - 1,
        seen_before[id],
        first_walk ==> forall|q: int|
            0 <= q < seen0.len() ==> #[trigger] seen_before[q] == (seen0[q] || q == id),
        !first_walk ==> walked(pages, id, keys, kids, g, lo, hi, tail, j + 1, seen0, seen_before),
        fits(
            pages,
            kids[j] as int,
            g,
            range_lo(keys, lo, j),
            range_hi(keys, hi, j),
            next_start(pages, kids, g, tail, j),
            seen_before,
        ),
        forall|q: int|
            0 <= q < seen_before.len() ==> seen_after[q] == (seen_before[q] || owns(
                pages,
                kids[j] as int,
                g,
                q,
            )),
    ensures
        walked(pages, id, keys, kids, g, lo, hi, tail, j, seen0, seen_after),
{
    let kj = kids[j] as int;
    assert forall|q: int| #[trigger] owns(pages, kj, g, q) implies 0 <= q < pages.len() by {
        lemma_owns_bound(pages, kj, g, range_lo(keys, lo, j), range_hi(keys, hi, j), q);
    }
    assert forall|q: int| 0 <= q < seen0.len() implies #[trigger] seen_before[q] == (seen0[q] || q
        == id || later_kids_own(pages, kids, g, j + 1, q)) by {
        if first_walk {
            if later_kids_own(pages, kids, g, j + 1, q) {
                let j2 = choose|j2: int|
                    j + 1 <= j2 < kids.len() && owns(pages, (#[trigger] kids[j2]) as int, g, q);
            }
        }
    }
    assert forall|j1: int, j2: int| j <= j1 < j2 < kids.len() implies apart(
        pages,
        (#[trigger] kids[j1]) as int,
        (#[trigger] kids[j2]) as int,
        g,
    ) by {
        if j1 == j {
            assert forall|q: int|
                !(owns(pages, kids[j1] as int, g, q) && owns(pages, kids[j2] as int, g, q)) by {
                if owns(pages, kids[j1] as int, g, q) && owns(pages, kids[j2] as int, g, q) {
                    assert(later_kids_own(pages, kids, g, j + 1, q));
                    assert(seen_before[q]);
                }
            }
        }
    }
    assert forall|q: int| 0 <= q < seen_after.len() implies #[trigger] seen_after[q] == (seen0[q]
        || q == id || later_kids_own(pages, kids, g, j, q)) by {
        if later_kids_own(pages, kids, g, j, q) {
            let j2 = choose|j2: int| j <= j2 < kids.len() && owns(pages, (#[trigger] kids[j2]) as int, g, q);
            if j2 > j {
                assert(later_kids_own(pages, kids, g, j + 1, q));
            }
        }
        if later_kids_own(pages, kids, g, j + 1, q) {
            let j2 = choose|j2: int|
                j + 1 <= j2 < kids.len() && owns(pages, (#[trigger] kids[j2]) as int, g, q);
            assert(later_kids_own(pages, kids, g, j, q));
        }
        if owns(pages, kj, g, q) {
            assert(later_kids_own(pages, kids, g, j, q));
        }
    }
    assert forall|j2: int, q: int|
        j <= j2 < kids.len() && #[trigger] owns(pages, kids[j2] as int, g, q) implies !seen0[q] && q
        != id by {
        if j2 == j {
            assert(!seen_before[q]);
        }
    }
}

/// Where the page is the top of a well-formed, chained subtree none of
/// whose pages was seen before the walk, its child `j` is one too, none
/// of whose pages has been seen since.
pub proof fn lemma_child_fits(
    pages: Seq<Seq<u8>>,
    id: int,
    h: nat,
    g: nat,
    lo: int,
    hi: int,
    tail: int,
    j: int,
    seen0: Seq<bool>,
    seen_before: Seq<bool>,
    first_walk: bool,
)
    requires
        fits(pages, id, h, lo, hi, tail, seen0),
        is_tree_page(pages[id], PageFlags::Internal),
        0 <= j < internal_children(pages[id]).len(),
        seen0.len() == seen_before.len() == pages.len(),
        first_walk <==> j == internal_children(pages[id]).len() - 1,
        first_walk ==> forall|q: int|
            0 <= q < seen0.len() ==> #[trigger] seen_before[q] == (seen0[q] || q == id),
        !first_walk ==> walked(
            pages,
            id,
            internal_keys(pages[id]),
            internal_children(pages[id]),
            g,
            lo,
            hi,
            tail,
            j + 1,
            seen0,
            seen_before,
        ),
    ensures
        h > 0,
        !first_walk ==> g == h - 1,
        fits(
            pages,
            internal_children(pages[id])[j] as int,
            (h - 1) as nat,
            range_lo(internal_keys(pages[id]), lo, j),
            range_hi(internal_keys(pages[id]), hi, j),
            next_start(pages, internal_children(pages[id]), (h - 1) as nat, tail, j),
            seen_before,
        ),
{
    let b = pages[id];
    let keys = internal_keys(b);
    let kids = internal_children(b);
    let f = (h - 1) as nat;
    assert(h > 0);
    assert(kids[j] as int == child_at(b, j));
    if !first_walk {
        assert(kids[j + 1] as int == child_at(b, j + 1));
        lemma_height_unique(
            pages,
            kids[j + 1] as int,
            g,
            range_lo(keys, lo, j + 1),
            range_hi(keys, hi, j + 1),
            f,
            range_lo(keys, lo, j + 1),
            range_hi(keys, hi, j + 1),
        );
    }
    assert forall|q: int| #[trigger] owns(pages, kids[j] as int, f, q) implies !seen_before[q] by {
        lemma_owns_bound(pages, kids[j] as int, f, range_lo(keys, lo, j), range_hi(keys, hi, j), q);
        assert(owns(pages, id, h, q));
        assert(!seen0[q]);
        assert(q != id);
        if !first_walk && later_kids_own(pages, kids, g, j + 1, q) {
            let j2 = choose|j2: int|
                j + 1 <= j2 < kids.len() && owns(pages, (#[trigger] kids[j2]) as int, g, q);
            assert(kids[j2] as int == child_at(b, j2));
            assert(apart(pages, child_at(b, j), child_at(b, j2), f));
        }
    }
}

/// All children walked: the page is the top of a well-formed, chained
/// subtree, and the pages seen since the walk began are its pages.
pub proof fn lemma_walked_all(
    pages: Seq<Seq<u8>>,
    id: int,
    g: nat,
    lo: int,
    hi: int,
    tail: int,
    seen0: Seq<bool>,
    seen: Seq<bool>,
)
    requires
        0 <= id < pages.len(),
        seen0.len() == seen.len() == pages.len(),
        !seen0[id],
        page_id_of(pages[id]) == id,
        is_tree_page(pages[id], PageFlags::Internal),
        1 <= internal_len_of(pages[id]) <= internal_max_keys(),
        ascending(internal_keys(pages[id])),
        forall|i: int|
            0 <= i < internal_keys(pages[id]).len() ==> lo < #[trigger] internal_keys(pages[id])[i]
                < hi,
        walked(
            pages,
            id,
            internal_keys(pages[id]),
            internal_children(pages[id]),
            g,
            lo,
            hi,
            tail,
            0,
            seen0,
            seen,
        ),
    ensures
        fits(pages, id, g + 1, lo, hi, tail, seen0),
        first_leaf(pages, id, g + 1) == first_leaf(pages, internal_children(pages[id])[0] as int, g),
        forall|q: int| 0 <= q < seen.len() ==> seen[q] == (seen0[q] || owns(pages, id, g + 1, q)),
{
    let b = pages[id];
    let keys = internal_keys(b);
    let kids = internal_children(b);
    let h = g + 1;
    assert forall|c: int| 0 <= c < kids.len() implies subtree_wf(
        pages,
        #[trigger] child_at(b, c),
        g,
        range_lo(keys, lo, c),
        range_hi(keys, hi, c),
    ) && !owns(pages, child_at(b, c), g, id) && chained(
        pages,
        child_at(b, c),
        g,
        next_start(pages, kids, g, tail, c),
    ) by {
        assert(kids[c] as int == child_at(b, c));
    }
    assert forall|c1: int, c2: int| 0 <= c1 < c2 < kids.len() implies apart(
        pages,
        #[trigger] child_at(b, c1),
        #[trigger] child_at(b, c2),
        g,
    ) by {
        assert(kids[c1] as int == child_at(b, c1));
        assert(kids[c2] as int == child_at(b, c2));
    }
    assert(subtree_wf(pages, id, h, lo, hi));
    assert(chained(pages, id, h, tail));
    assert forall|q: int| owns(pages, id, h, q) <==> q == id || later_kids_own(pages, kids, g, 0, q) by {
        if owns(pages, id, h, q) && q != id {
            let c = choose|c: int| 0 <= c < kids.len() && owns(pages, #[trigger] child_at(b, c), g, q);
            assert(owns(pages, kids[c] as int, g, q));
        }
        if later_kids_own(pages, kids, g, 0, q) {
            let c = choose|c: int| 0 <= c < kids.len() && owns(pages, (#[trigger] kids[c]) as int, g, q);
            assert(kids[c] as int == child_at(b, c));
        }
    }
    assert forall|q: int| #[trigger] owns(pages, id, h, q) implies !seen0[q] by {
        if q != id {
            let c = choose|c: int| 0 <= c < kids.len() && owns(pages, (#[trigger] kids[c]) as int, g, q);
        }
    }
    assert(kids[0] as int == child_at(b, 0));
}

} // verus!
