//! The two kinds of B+tree page and how their bodies are laid out.
//!
//! A leaf's body is `next_leaf (4) | num_entries (2)` followed by entries of
//! `key (8) | page_id (4) | slot (2)`. An internal page's body is
//! `num_keys (2) | child_0 (4)` followed by pairs of `key (8) | child (4)`:
//! key `i` stands between child `i` and child `i + 1`.

use super::btree::{BTree, RowRef};
use super::heap::{stored_as, PageId};
use super::layout::{
    get_i64, get_u16, get_u32, i64_at, i64_le, lemma_le_len, lemma_splice_keeps, lemma_splice_reads,
    put_i64, put_u16, put_u32, u16_at, u16_le, u32_at, u32_le,
};
use super::page::{flags_of, magic_of, page_id_of, Page, PAGE_SIZE};
use vstd::prelude::*;

verus! {

/// Where the body of a B+tree page starts: right behind the page header.
pub const BTREE_BODY_START: usize = 32;

/// A leaf entry: key, page id and slot.
pub const LEAF_ENTRY_SIZE: usize = 14;

/// A separator key of an internal page with the child to its right.
pub const INTERNAL_KEY_SIZE: usize = 12;

/// The offset of the first leaf entry: behind `next_leaf` and the count.
pub const LEAF_ENTRIES_START: usize = 38;

/// The offset of the first child pointer: behind the count.
pub const INTERNAL_CHILDREN_START: usize = 34;

/// The number of entries that fit in a leaf.
pub open spec fn spec_leaf_max_entries() -> usize {
    ((PAGE_SIZE - BTREE_BODY_START - 4 - 2) / (LEAF_ENTRY_SIZE as int)) as usize
}

/// The number of keys that fit in an internal page.
pub open spec fn spec_internal_max_keys() -> usize {
    ((PAGE_SIZE - BTREE_BODY_START - 2 - 4) / (INTERNAL_KEY_SIZE as int)) as usize
}

#[verifier::when_used_as_spec(spec_leaf_max_entries)]
pub fn leaf_max_entries() -> (n: usize)
    ensures
        n == spec_leaf_max_entries(),
        n == 582,
{
    (PAGE_SIZE - BTREE_BODY_START - 4 - 2) / LEAF_ENTRY_SIZE
}

#[verifier::when_used_as_spec(spec_internal_max_keys)]
pub fn internal_max_keys() -> (n: usize)
    ensures
        n == spec_internal_max_keys(),
        n == 679,
{
    (PAGE_SIZE - BTREE_BODY_START - 2 - 4) / INTERNAL_KEY_SIZE
}

/// Where a leaf with one entry too many is cut: half of the entries,
/// rounded down, stay.
pub open spec fn leaf_split_point() -> int {
    (leaf_max_entries() + 1) / 2
}

/// Where an internal page with one key too many is cut: the key at this
/// place moves up, those before it stay.
pub open spec fn internal_split_point() -> int {
    (internal_max_keys() + 1) / 2
}

pub open spec fn leaf_next_of(b: Seq<u8>) -> PageId {
    u32_at(b, BTREE_BODY_START as int)
}

pub open spec fn leaf_len_of(b: Seq<u8>) -> u16 {
    u16_at(b, BTREE_BODY_START + 4)
}

/// The offset of leaf entry `i`.
pub open spec fn leaf_entry_pos(i: int) -> int {
    LEAF_ENTRIES_START + i * LEAF_ENTRY_SIZE
}

/// What stands at the place of leaf entry `i`, whether or not the leaf
/// has that many entries.
pub open spec fn leaf_slot(b: Seq<u8>, i: int) -> (i64, RowRef) {
    (
        i64_at(b, leaf_entry_pos(i)),
        RowRef {
            page_id: u32_at(b, leaf_entry_pos(i) + 8),
            slot: u16_at(b, leaf_entry_pos(i) + 12),
        },
    )
}

/// The entries of a leaf, in the order in which the page holds them.
pub open spec fn leaf_entries(b: Seq<u8>) -> Seq<(i64, RowRef)> {
    Seq::new(leaf_len_of(b) as nat, |i: int| leaf_slot(b, i))
}

pub open spec fn internal_len_of(b: Seq<u8>) -> u16 {
    u16_at(b, BTREE_BODY_START as int)
}

/// The offset of child pointer `i`; key `i` follows it.
pub open spec fn internal_child_pos(i: int) -> int {
    INTERNAL_CHILDREN_START + i * INTERNAL_KEY_SIZE
}

/// What stands at the place of child pointer `i`.
pub open spec fn internal_child_slot(b: Seq<u8>, i: int) -> PageId {
    u32_at(b, internal_child_pos(i))
}

/// What stands at the place of key `i`.
pub open spec fn internal_key_slot(b: Seq<u8>, i: int) -> i64 {
    i64_at(b, internal_child_pos(i) + 4)
}

/// The separator keys of an internal page.
pub open spec fn internal_keys(b: Seq<u8>) -> Seq<i64> {
    Seq::new(internal_len_of(b) as nat, |i: int| internal_key_slot(b, i))
}

/// The child pointers of an internal page: one more than it has keys.
pub open spec fn internal_children(b: Seq<u8>) -> Seq<PageId> {
    Seq::new((internal_len_of(b) + 1) as nat, |i: int| internal_child_slot(b, i))
}

/// Cutting a sequence after an insertion is inserting into one of the
/// parts that the cut gives.
pub proof fn lemma_insert_then_cut<T>(s: Seq<T>, i: int, x: T, m: int)
    requires
        0 <= i <= s.len(),
        0 <= m <= s.len() + 1,
    ensures
        i < m ==> s.insert(i, x).subrange(0, m) == s.subrange(0, m - 1).insert(i, x),
        i < m ==> s.insert(i, x).subrange(m, (s.len() + 1) as int) == s.subrange(m - 1, s.len() as int),
        i >= m ==> s.insert(i, x).subrange(0, m) == s.subrange(0, m),
        i >= m ==> s.insert(i, x).subrange(m, (s.len() + 1) as int) == s.subrange(
            m,
            s.len() as int,
        ).insert(i - m, x),
{
    if i < m {
        assert(s.insert(i, x).subrange(0, m) =~= s.subrange(0, m - 1).insert(i, x));
        assert(s.insert(i, x).subrange(m, (s.len() + 1) as int) =~= s.subrange(m - 1, s.len() as int));
    } else {
        assert(s.insert(i, x).subrange(0, m) =~= s.subrange(0, m));
        assert(s.insert(i, x).subrange(m, (s.len() + 1) as int) =~= s.subrange(m, s.len() as int).insert(
            i - m,
            x,
        ));
    }
}

/// The page header's identifying fields agree.
pub open spec fn same_header(a: Seq<u8>, b: Seq<u8>) -> bool {
    &&& a.len() == b.len()
    &&& magic_of(a) == magic_of(b)
    &&& page_id_of(a) == page_id_of(b)
    &&& flags_of(a) == flags_of(b)
}

/// Two leaves agree in every entry place but `idx`.
pub open spec fn same_leaf_slots_but(a: Seq<u8>, b: Seq<u8>, idx: int) -> bool {
    forall|j: int| 0 <= j < leaf_max_entries() && j != idx ==> #[trigger] leaf_slot(b, j) == leaf_slot(a, j)
}

/// Two internal pages agree in every key place but `idx`.
pub open spec fn same_key_slots_but(a: Seq<u8>, b: Seq<u8>, idx: int) -> bool {
    forall|j: int|
        0 <= j < internal_max_keys() && j != idx ==> #[trigger] internal_key_slot(b, j)
            == internal_key_slot(a, j)
}

/// Two internal pages agree in every child place but `idx`.
pub open spec fn same_child_slots_but(a: Seq<u8>, b: Seq<u8>, idx: int) -> bool {
    forall|j: int|
        0 <= j <= internal_max_keys() && j != idx ==> #[trigger] internal_child_slot(b, j)
            == internal_child_slot(a, j)
}

/// Storing a page under an id changes the header's page id field and no
/// field that the index reads.
pub proof fn lemma_stored_as(b: Seq<u8>, id: PageId)
    requires
        b.len() == PAGE_SIZE,
    ensures
        stored_as(b, id).len() == PAGE_SIZE,
        page_id_of(stored_as(b, id)) == id,
        magic_of(stored_as(b, id)) == magic_of(b),
        flags_of(stored_as(b, id)) == flags_of(b),
        leaf_next_of(stored_as(b, id)) == leaf_next_of(b),
        leaf_len_of(stored_as(b, id)) == leaf_len_of(b),
        internal_len_of(stored_as(b, id)) == internal_len_of(b),
        same_leaf_slots_but(b, stored_as(b, id), -1),
        same_key_slots_but(b, stored_as(b, id), -1),
        same_child_slots_but(b, stored_as(b, id), -1),
        leaf_len_of(b) <= leaf_max_entries() ==> leaf_entries(stored_as(b, id)) == leaf_entries(b),
        internal_len_of(b) <= internal_max_keys() ==> internal_keys(stored_as(b, id))
            == internal_keys(b) && internal_children(stored_as(b, id)) == internal_children(b),
{
    lemma_le_len();
    lemma_splice_keeps(b, 4, u32_le(id));
    lemma_splice_reads(b, 4);
    let s = stored_as(b, id);
    if leaf_len_of(b) <= leaf_max_entries() {
        assert(leaf_entries(s) =~= leaf_entries(b));
    }
    if internal_len_of(b) <= internal_max_keys() {
        assert(internal_keys(s) =~= internal_keys(b));
        assert(internal_children(s) =~= internal_children(b));
    }
}

impl BTree {
    pub(super) fn flags(page: &Page) -> (f: u16)
        ensures
            f == flags_of(page@),
    {
        get_u16(page.as_bytes(), 8)
    }

    pub(super) fn leaf_set_next(page: &mut Page, next: PageId)
        ensures
            same_header(old(page)@, final(page)@),
            leaf_next_of(final(page)@) == next,
            leaf_len_of(final(page)@) == leaf_len_of(old(page)@),
            same_leaf_slots_but(old(page)@, final(page)@, -1),
    {
        proof {
            page.lemma_len();
            lemma_le_len();
            lemma_splice_keeps(page@, BTREE_BODY_START as int, u32_le(next));
            lemma_splice_reads(page@, BTREE_BODY_START as int);
        }
        put_u32(page.as_bytes_mut(), BTREE_BODY_START, next);
    }

    pub(super) fn leaf_next(page: &Page) -> (next: PageId)
        ensures
            next == leaf_next_of(page@),
    {
        get_u32(page.as_bytes(), BTREE_BODY_START)
    }

    pub(super) fn leaf_set_num_entries(page: &mut Page, n: u16)
        ensures
            same_header(old(page)@, final(page)@),
            leaf_next_of(final(page)@) == leaf_next_of(old(page)@),
            leaf_len_of(final(page)@) == n,
            same_leaf_slots_but(old(page)@, final(page)@, -1),
    {
        proof {
            page.lemma_len();
            lemma_le_len();
            lemma_splice_keeps(page@, BTREE_BODY_START + 4, u16_le(n));
            lemma_splice_reads(page@, BTREE_BODY_START + 4);
        }
        put_u16(page.as_bytes_mut(), BTREE_BODY_START + 4, n);
    }

    pub(super) fn leaf_num_entries(page: &Page) -> (n: u16)
        ensures
            n == leaf_len_of(page@),
    {
        get_u16(page.as_bytes(), BTREE_BODY_START + 4)
    }

    pub(super) fn leaf_entry_offset(idx: usize) -> (off: usize)
        requires
            idx < leaf_max_entries(),
        ensures
            off == leaf_entry_pos(idx as int),
            off + LEAF_ENTRY_SIZE <= PAGE_SIZE,
    {
        BTREE_BODY_START + 6 + idx * LEAF_ENTRY_SIZE
    }

    pub(super) fn leaf_get_key(page: &Page, idx: usize) -> (key: i64)
        requires
            idx < leaf_max_entries(),
        ensures
            key == leaf_slot(page@, idx as int).0,
    {
        let off = Self::leaf_entry_offset(idx);
        get_i64(page.as_bytes(), off)
    }

    pub(super) fn leaf_get_ref(page: &Page, idx: usize) -> (r: RowRef)
        requires
            idx < leaf_max_entries(),
        ensures
            r == leaf_slot(page@, idx as int).1,
    {
        let off = Self::leaf_entry_offset(idx) + 8;
        let page_id = get_u32(page.as_bytes(), off);
        let slot = get_u16(page.as_bytes(), off + 4);
        RowRef { page_id, slot }
    }

    pub(super) fn leaf_set_entry(page: &mut Page, idx: usize, key: i64, r: RowRef)
        requires
            idx < leaf_max_entries(),
        ensures
            same_header(old(page)@, final(page)@),
            leaf_next_of(final(page)@) == leaf_next_of(old(page)@),
            leaf_len_of(final(page)@) == leaf_len_of(old(page)@),
            leaf_slot(final(page)@, idx as int) == (key, r),
            same_leaf_slots_but(old(page)@, final(page)@, idx as int),
    {
        let off = Self::leaf_entry_offset(idx);
        let ghost b0 = page@;
        put_i64(page.as_bytes_mut(), off, key);
        let ghost b1 = page@;
        put_u32(page.as_bytes_mut(), off + 8, r.page_id);
        let ghost b2 = page@;
        put_u16(page.as_bytes_mut(), off + 12, r.slot);
        proof {
            let b3 = page@;
            page.lemma_len();
            lemma_le_len();
            lemma_splice_keeps(b0, off as int, i64_le(key));
            lemma_splice_reads(b0, off as int);
            lemma_splice_keeps(b1, off + 8, u32_le(r.page_id));
            lemma_splice_reads(b1, off + 8);
            lemma_splice_keeps(b2, off + 12, u16_le(r.slot));
            lemma_splice_reads(b2, off + 12);
            assert forall|j: int| 0 <= j < leaf_max_entries() && j != idx implies #[trigger] leaf_slot(
                b3,
                j,
            ) == leaf_slot(b0, j) by {
                assert(leaf_slot(b1, j) == leaf_slot(b0, j));
                assert(leaf_slot(b2, j) == leaf_slot(b1, j));
            }
        }
    }

    pub(super) fn internal_set_num_keys(page: &mut Page, n: u16)
        ensures
            same_header(old(page)@, final(page)@),
            internal_len_of(final(page)@) == n,
            same_key_slots_but(old(page)@, final(page)@, -1),
            same_child_slots_but(old(page)@, final(page)@, -1),
    {
        proof {
            page.lemma_len();
            lemma_le_len();
            lemma_splice_keeps(page@, BTREE_BODY_START as int, u16_le(n));
            lemma_splice_reads(page@, BTREE_BODY_START as int);
        }
        put_u16(page.as_bytes_mut(), BTREE_BODY_START, n);
    }

    pub(super) fn internal_num_keys(page: &Page) -> (n: u16)
        ensures
            n == internal_len_of(page@),
    {
        get_u16(page.as_bytes(), BTREE_BODY_START)
    }

    pub(super) fn internal_child_offset(idx: usize) -> (off: usize)
        requires
            idx <= internal_max_keys(),
        ensures
            off == internal_child_pos(idx as int),
            off + 4 <= PAGE_SIZE,
            idx < internal_max_keys() ==> off + INTERNAL_KEY_SIZE + 4 <= PAGE_SIZE,
    {
        BTREE_BODY_START + 2 + idx * INTERNAL_KEY_SIZE
    }

    pub(super) fn internal_get_child(page: &Page, idx: usize) -> (child: PageId)
        requires
            idx <= internal_max_keys(),
        ensures
            child == internal_child_slot(page@, idx as int),
    {
        let off = Self::internal_child_offset(idx);
        get_u32(page.as_bytes(), off)
    }

    pub(super) fn internal_get_key(page: &Page, idx: usize) -> (key: i64)
        requires
            idx < internal_max_keys(),
        ensures
            key == internal_key_slot(page@, idx as int),
    {
        let off = Self::internal_child_offset(idx) + 4;
        get_i64(page.as_bytes(), off)
    }

    /// Writes key `idx` and the child to its right, child `idx + 1`.
    pub(super) fn internal_set_key_child(page: &mut Page, idx: usize, key: i64, child: PageId)
        requires
            idx < internal_max_keys(),
        ensures
            same_header(old(page)@, final(page)@),
            internal_len_of(final(page)@) == internal_len_of(old(page)@),
            internal_key_slot(final(page)@, idx as int) == key,
            internal_child_slot(final(page)@, idx + 1) == child,
            same_key_slots_but(old(page)@, final(page)@, idx as int),
            same_child_slots_but(old(page)@, final(page)@, idx + 1),
    {
        let off = Self::internal_child_offset(idx) + 4;
        let ghost b0 = page@;
        put_i64(page.as_bytes_mut(), off, key);
        let ghost b1 = page@;
        put_u32(page.as_bytes_mut(), off + 8, child);
        proof {
            let b2 = page@;
            page.lemma_len();
            lemma_le_len();
            lemma_splice_keeps(b0, off as int, i64_le(key));
            lemma_splice_reads(b0, off as int);
            lemma_splice_keeps(b1, off + 8, u32_le(child));
            lemma_splice_reads(b1, off + 8);
            assert forall|j: int|
                0 <= j < internal_max_keys() && j != idx implies #[trigger] internal_key_slot(b2, j)
                == internal_key_slot(b0, j) by {
                assert(internal_key_slot(b1, j) == internal_key_slot(b0, j));
            }
            assert forall|j: int|
                0 <= j <= internal_max_keys() && j != idx + 1 implies #[trigger] internal_child_slot(
                b2,
                j,
            ) == internal_child_slot(b0, j) by {
                assert(internal_child_slot(b1, j) == internal_child_slot(b0, j));
            }
        }
    }

    /// Writes child `idx`.
    pub(super) fn internal_set_child(page: &mut Page, idx: usize, child: PageId)
        requires
            idx <= internal_max_keys(),
        ensures
            same_header(old(page)@, final(page)@),
            internal_len_of(final(page)@) == internal_len_of(old(page)@),
            internal_child_slot(final(page)@, idx as int) == child,
            same_key_slots_but(old(page)@, final(page)@, -1),
            same_child_slots_but(old(page)@, final(page)@, idx as int),
    {
        let off = Self::internal_child_offset(idx);
        proof {
            page.lemma_len();
            lemma_le_len();
            lemma_splice_keeps(page@, off as int, u32_le(child));
            lemma_splice_reads(page@, off as int);
        }
        put_u32(page.as_bytes_mut(), off, child);
    }

    /// Puts an entry at place `idx` of a leaf that has room for one more,
    /// moving the entries from there on one place up.
    pub(super) fn leaf_insert_at(page: &mut Page, idx: usize, key: i64, r: RowRef)
        requires
            leaf_len_of(old(page)@) < leaf_max_entries(),
            idx <= leaf_len_of(old(page)@),
        ensures
            same_header(old(page)@, final(page)@),
            leaf_next_of(final(page)@) == leaf_next_of(old(page)@),
            leaf_entries(final(page)@) == leaf_entries(old(page)@).insert(idx as int, (key, r)),
    {
        let n = Self::leaf_num_entries(page) as usize;
        let mut i: usize = n;
        while i > idx
            invariant
                n == leaf_len_of(old(page)@),
                n < leaf_max_entries(),
                idx <= i <= n,
                same_header(old(page)@, page@),
                leaf_next_of(page@) == leaf_next_of(old(page)@),
                leaf_len_of(page@) == n,
                forall|j: int| 0 <= j < i ==> #[trigger] leaf_slot(page@, j) == leaf_slot(old(page)@, j),
                forall|j: int|
                    i < j <= n ==> #[trigger] leaf_slot(page@, j) == leaf_slot(old(page)@, j - 1),
            decreases i,
        {
            let k = Self::leaf_get_key(page, i - 1);
            let v = Self::leaf_get_ref(page, i - 1);
            Self::leaf_set_entry(page, i, k, v);
            i = i - 1;
        }
        Self::leaf_set_entry(page, idx, key, r);
        Self::leaf_set_num_entries(page, (n + 1) as u16);
        assert(leaf_entries(page@) =~= leaf_entries(old(page)@).insert(idx as int, (key, r)));
    }

    /// Makes `dst` hold the entries of `src` from place `from` on.
    pub(super) fn leaf_copy_tail(src: &Page, from: usize, dst: &mut Page)
        requires
            leaf_len_of(src@) <= leaf_max_entries(),
            from <= leaf_len_of(src@),
        ensures
            same_header(old(dst)@, final(dst)@),
            leaf_next_of(final(dst)@) == leaf_next_of(old(dst)@),
            leaf_entries(final(dst)@) == leaf_entries(src@).subrange(
                from as int,
                leaf_len_of(src@) as int,
            ),
    {
        let n = Self::leaf_num_entries(src) as usize;
        let count = n - from;
        let mut i: usize = 0;
        while i < count
            invariant
                n == leaf_len_of(src@),
                n <= leaf_max_entries(),
                count == n - from,
                i <= count,
                same_header(old(dst)@, dst@),
                leaf_next_of(dst@) == leaf_next_of(old(dst)@),
                forall|j: int| 0 <= j < i ==> #[trigger] leaf_slot(dst@, j) == leaf_slot(src@, from + j),
            decreases count - i,
        {
            let k = Self::leaf_get_key(src, from + i);
            let v = Self::leaf_get_ref(src, from + i);
            Self::leaf_set_entry(dst, i, k, v);
            i = i + 1;
        }
        Self::leaf_set_num_entries(dst, count as u16);
        assert(leaf_entries(dst@) =~= leaf_entries(src@).subrange(from as int, n as int));
    }

    /// Puts `key` at key place `after_child_idx` and `right_page_id` as the
    /// child to its right, in a page that has room for one more key; the
    /// keys from there on, each with its right child, move one place up.
    pub(super) fn insert_internal_child(
        page: &mut Page,
        after_child_idx: usize,
        key: i64,
        right_page_id: PageId,
    )
        requires
            internal_len_of(old(page)@) < internal_max_keys(),
            after_child_idx <= internal_len_of(old(page)@),
        ensures
            same_header(old(page)@, final(page)@),
            internal_keys(final(page)@) == internal_keys(old(page)@).insert(
                after_child_idx as int,
                key,
            ),
            internal_children(final(page)@) == internal_children(old(page)@).insert(
                after_child_idx + 1,
                right_page_id,
            ),
    {
        let n = Self::internal_num_keys(page) as usize;
        let mut i: usize = n;
        while i > after_child_idx
            invariant
                n == internal_len_of(old(page)@),
                n < internal_max_keys(),
                after_child_idx <= i <= n,
                same_header(old(page)@, page@),
                internal_len_of(page@) == n,
                forall|j: int|
                    0 <= j < i ==> #[trigger] internal_key_slot(page@, j) == internal_key_slot(
                        old(page)@,
                        j,
                    ),
                forall|j: int|
                    i < j <= n ==> #[trigger] internal_key_slot(page@, j) == internal_key_slot(
                        old(page)@,
                        j - 1,
                    ),
                forall|j: int|
                    0 <= j <= i ==> #[trigger] internal_child_slot(page@, j) == internal_child_slot(
                        old(page)@,
                        j,
                    ),
                forall|j: int|
                    i + 1 < j <= n + 1 ==> #[trigger] internal_child_slot(page@, j)
                        == internal_child_slot(old(page)@, j - 1),
            decreases i,
        {
            let k = Self::internal_get_key(page, i - 1);
            let c = Self::internal_get_child(page, i);
            Self::internal_set_key_child(page, i, k, c);
            i = i - 1;
        }
        Self::internal_set_key_child(page, after_child_idx, key, right_page_id);
        Self::internal_set_num_keys(page, (n + 1) as u16);
        assert(internal_keys(page@) =~= internal_keys(old(page)@).insert(
            after_child_idx as int,
            key,
        ));
        assert(internal_children(page@) =~= internal_children(old(page)@).insert(
            after_child_idx + 1,
            right_page_id,
        ));
    }

    /// Makes `dst` hold the keys of `src` from key place `from` on, with
    /// the children on both sides of each: children `from` to the last.
    pub(super) fn internal_copy_tail(src: &Page, from: usize, dst: &mut Page)
        requires
            internal_len_of(src@) <= internal_max_keys(),
            from <= internal_len_of(src@),
        ensures
            same_header(old(dst)@, final(dst)@),
            internal_keys(final(dst)@) == internal_keys(src@).subrange(
                from as int,
                internal_len_of(src@) as int,
            ),
            internal_children(final(dst)@) == internal_children(src@).subrange(
                from as int,
                internal_len_of(src@) + 1,
            ),
    {
        let n = Self::internal_num_keys(src) as usize;
        let count = n - from;
        let first = Self::internal_get_child(src, from);
        Self::internal_set_child(dst, 0, first);
        let mut i: usize = 0;
        while i < count
            invariant
                n == internal_len_of(src@),
                n <= internal_max_keys(),
                count == n - from,
                i <= count,
                same_header(old(dst)@, dst@),
                forall|j: int|
                    0 <= j < i ==> #[trigger] internal_key_slot(dst@, j) == internal_key_slot(
                        src@,
                        from + j,
                    ),
                forall|j: int|
                    0 <= j <= i ==> #[trigger] internal_child_slot(dst@, j) == internal_child_slot(
                        src@,
                        from + j,
                    ),
            decreases count - i,
        {
            let k = Self::internal_get_key(src, from + i);
            let c = Self::internal_get_child(src, from + i + 1);
            Self::internal_set_key_child(dst, i, k, c);
            i = i + 1;
        }
        Self::internal_set_num_keys(dst, count as u16);
        assert(internal_keys(dst@) =~= internal_keys(src@).subrange(from as int, n as int));
        assert(internal_children(dst@) =~= internal_children(src@).subrange(
            from as int,
            n + 1,
        ));
    }

    /// Adds an entry at place `idx` of a full leaf by parting the leaf in
    /// two: the entries with the new one among them are cut at the
    /// middle; `page` keeps the lower part and `right` gets the upper one.
    /// Returns the first key of the upper part.
    pub(super) fn leaf_split_insert(
        page: &mut Page,
        right: &mut Page,
        idx: usize,
        key: i64,
        r: RowRef,
    ) -> (split_key: i64)
        requires
            leaf_len_of(old(page)@) == leaf_max_entries(),
            idx <= leaf_len_of(old(page)@),
        ensures
            same_header(old(page)@, final(page)@),
            same_header(old(right)@, final(right)@),
            leaf_next_of(final(page)@) == leaf_next_of(old(page)@),
            leaf_next_of(final(right)@) == leaf_next_of(old(right)@),
            leaf_entries(final(page)@) == leaf_entries(old(page)@).insert(
                idx as int,
                (key, r),
            ).subrange(0, leaf_split_point()),
            leaf_entries(final(right)@) == leaf_entries(old(page)@).insert(
                idx as int,
                (key, r),
            ).subrange(leaf_split_point(), leaf_max_entries() + 1),
            split_key == leaf_entries(old(page)@).insert(idx as int, (key, r))[leaf_split_point()].0,
    {
        let n = Self::leaf_num_entries(page) as usize;
        let mid = (n + 1) / 2;
        let ghost before = leaf_entries(page@);
        let ghost merged = before.insert(idx as int, (key, r));
        if idx < mid {
            Self::leaf_copy_tail(page, mid - 1, right);
            Self::leaf_set_num_entries(page, (mid - 1) as u16);
            assert(leaf_entries(page@) =~= before.subrange(0, mid - 1));
            Self::leaf_insert_at(page, idx, key, r);
            assert(leaf_entries(page@) =~= merged.subrange(0, mid as int));
            assert(leaf_entries(right@) =~= merged.subrange(mid as int, n + 1));
        } else {
            Self::leaf_copy_tail(page, mid, right);
            Self::leaf_set_num_entries(page, mid as u16);
            assert(leaf_entries(page@) =~= before.subrange(0, mid as int));
            assert(leaf_len_of(right@) == leaf_entries(right@).len());
            Self::leaf_insert_at(right, idx - mid, key, r);
            assert(leaf_entries(page@) =~= merged.subrange(0, mid as int));
            assert(leaf_entries(right@) =~= merged.subrange(mid as int, n + 1));
        }
        let split_key = Self::leaf_get_key(right, 0);
        assert(leaf_entries(right@)[0] == leaf_slot(right@, 0));
        split_key
    }

    /// Adds a key at key place `c`, with `sp` as the child to its right,
    /// to a full internal page by parting the page in two: of the keys
    /// with the new one among them, the middle one is returned; `page`
    /// keeps the keys before it and `right` gets those behind it, each
    /// with the children on both sides of its keys.
    pub(super) fn internal_split_insert(
        page: &mut Page,
        right: &mut Page,
        c: usize,
        sk: i64,
        sp: PageId,
    ) -> (promote: i64)
        requires
            internal_len_of(old(page)@) == internal_max_keys(),
            c <= internal_len_of(old(page)@),
        ensures
            same_header(old(page)@, final(page)@),
            same_header(old(right)@, final(right)@),
            promote == internal_keys(old(page)@).insert(c as int, sk)[internal_split_point()],
            internal_keys(final(page)@) == internal_keys(old(page)@).insert(c as int, sk).subrange(
                0,
                internal_split_point(),
            ),
            internal_children(final(page)@) == internal_children(old(page)@).insert(
                c + 1,
                sp,
            ).subrange(0, internal_split_point() + 1),
            internal_keys(final(right)@) == internal_keys(old(page)@).insert(c as int, sk).subrange(
                internal_split_point() + 1,
                internal_max_keys() + 1,
            ),
            internal_children(final(right)@) == internal_children(old(page)@).insert(
                c + 1,
                sp,
            ).subrange(internal_split_point() + 1, internal_max_keys() + 2),
    {
        let n = Self::internal_num_keys(page) as usize;
        let mid = (n + 1) / 2;
        proof {
            lemma_insert_then_cut(internal_keys(page@), c as int, sk, mid as int);
            lemma_insert_then_cut(internal_keys(page@), c as int, sk, mid + 1);
            lemma_insert_then_cut(internal_children(page@), c + 1, sp, mid + 1);
        }
        if c < mid {
            Self::internal_split_low(page, right, c, sk, sp, mid)
        } else if c == mid {
            Self::internal_split_middle(page, right, sk, sp, mid);
            sk
        } else {
            Self::internal_split_high(page, right, c, sk, sp, mid)
        }
    }

    /// The new key belongs before the cut at `mid`.
    fn internal_split_low(
        page: &mut Page,
        right: &mut Page,
        c: usize,
        sk: i64,
        sp: PageId,
        mid: usize,
    ) -> (promote: i64)
        requires
            internal_len_of(old(page)@) <= internal_max_keys(),
            c < mid <= internal_len_of(old(page)@),
        ensures
            same_header(old(page)@, final(page)@),
            same_header(old(right)@, final(right)@),
            promote == internal_keys(old(page)@)[mid - 1],
            internal_keys(final(page)@) == internal_keys(old(page)@).subrange(0, mid - 1).insert(
                c as int,
                sk,
            ),
            internal_children(final(page)@) == internal_children(old(page)@).subrange(
                0,
                mid as int,
            ).insert(c + 1, sp),
            internal_keys(final(right)@) == internal_keys(old(page)@).subrange(
                mid as int,
                internal_len_of(old(page)@) as int,
            ),
            internal_children(final(right)@) == internal_children(old(page)@).subrange(
                mid as int,
                internal_len_of(old(page)@) + 1,
            ),
    {
        let ghost keys = internal_keys(page@);
        let ghost kids = internal_children(page@);
        let promote = Self::internal_get_key(page, mid - 1);
        assert(promote == keys[mid - 1]);
        Self::internal_copy_tail(page, mid, right);
        Self::internal_set_num_keys(page, (mid - 1) as u16);
        assert(internal_keys(page@) =~= keys.subrange(0, mid - 1));
        assert(internal_children(page@) =~= kids.subrange(0, mid as int));
        Self::insert_internal_child(page, c, sk, sp);
        promote
    }

    /// The new key is the one at the cut at `mid`.
    fn internal_split_middle(page: &mut Page, right: &mut Page, sk: i64, sp: PageId, mid: usize)
        requires
            internal_len_of(old(page)@) <= internal_max_keys(),
            mid <= internal_len_of(old(page)@),
        ensures
            same_header(old(page)@, final(page)@),
            same_header(old(right)@, final(right)@),
            internal_keys(final(page)@) == internal_keys(old(page)@).subrange(0, mid as int),
            internal_children(final(page)@) == internal_children(old(page)@).subrange(0, mid + 1),
            internal_keys(final(right)@) == internal_keys(old(page)@).subrange(
                mid as int,
                internal_len_of(old(page)@) as int,
            ),
            internal_children(final(right)@) == internal_children(old(page)@).subrange(
                mid + 1,
                internal_len_of(old(page)@) + 1,
            ).insert(0, sp),
    {
        let ghost keys = internal_keys(page@);
        let ghost kids = internal_children(page@);
        let ghost n = internal_len_of(page@) as int;
        Self::internal_copy_tail(page, mid, right);
        let ghost tail_keys = internal_keys(right@);
        let ghost tail_kids = internal_children(right@);
        Self::internal_set_child(right, 0, sp);
        assert(internal_keys(right@) =~= tail_keys);
        assert(internal_children(right@) =~= tail_kids.update(0, sp));
        assert(tail_kids.update(0, sp) =~= kids.subrange(mid + 1, n + 1).insert(0, sp));
        Self::internal_set_num_keys(page, mid as u16);
        assert(internal_keys(page@) =~= keys.subrange(0, mid as int));
        assert(internal_children(page@) =~= kids.subrange(0, mid + 1));
    }

    /// The new key belongs behind the cut at `mid`.
    fn internal_split_high(
        page: &mut Page,
        right: &mut Page,
        c: usize,
        sk: i64,
        sp: PageId,
        mid: usize,
    ) -> (promote: i64)
        requires
            internal_len_of(old(page)@) <= internal_max_keys(),
            mid < c <= internal_len_of(old(page)@),
        ensures
            same_header(old(page)@, final(page)@),
            same_header(old(right)@, final(right)@),
            promote == internal_keys(old(page)@)[mid as int],
            internal_keys(final(page)@) == internal_keys(old(page)@).subrange(0, mid as int),
            internal_children(final(page)@) == internal_children(old(page)@).subrange(0, mid + 1),
            internal_keys(final(right)@) == internal_keys(old(page)@).subrange(
                mid + 1,
                internal_len_of(old(page)@) as int,
            ).insert(c - mid - 1, sk),
            internal_children(final(right)@) == internal_children(old(page)@).subrange(
                mid + 1,
                internal_len_of(old(page)@) + 1,
            ).insert(c - mid, sp),
    {
        let ghost keys = internal_keys(page@);
        let ghost kids = internal_children(page@);
        let promote = Self::internal_get_key(page, mid);
        assert(promote == keys[mid as int]);
        Self::internal_copy_tail(page, mid + 1, right);
        Self::internal_set_num_keys(page, mid as u16);
        assert(internal_keys(page@) =~= keys.subrange(0, mid as int));
        assert(internal_children(page@) =~= kids.subrange(0, mid + 1));
        assert(internal_len_of(right@) == internal_keys(right@).len());
        Self::insert_internal_child(right, c - mid - 1, sk, sp);
        promote
    }
}

} // verus!
