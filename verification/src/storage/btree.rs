//! B+tree index for the primary key: an ordered map from `i64` keys to row
//! references, kept as leaf and internal pages of a heap file of its own.
//! The root is always page 0.

use super::chain::{
    chained, first_leaf, is_index, lemma_node_chain_absorbed, lemma_node_chain_grown,
    lemma_node_chain_split, lemma_root_chain, next_start, rechained,
};
use super::error::StorageError;
use super::grow::{
    added, grown_by, grown_where_full, is_place_of, leaf_written, lemma_child_for, lemma_leaf_grown,
    lemma_leaf_lacks, lemma_leaf_split_grown, lemma_map_inserted, lemma_node_absorbed,
    lemma_node_child_grown, lemma_node_split, lemma_place_of, lemma_root_split, parts,
    root_leaf_grown, root_parted,
};
use super::heap::{pages_of, stored_as, HeapFile, PageId};
use super::kids::lemma_kids_of_node;
use super::node::{
    internal_children, internal_keys, internal_len_of, internal_max_keys, internal_split_point,
    leaf_entries, leaf_len_of, leaf_max_entries, leaf_next_of, leaf_split_point, lemma_stored_as,
    same_header,
};
use super::page::{magic_of, page_id_of, Page, PageFlags, PAGE_MAGIC, PAGE_SIZE};
use super::scan::{is_range_of, lemma_scanned_is_range, scanned};
use super::tree::{
    apart, child_at, entries_ascending, holds, is_tree, is_tree_page, key_ceiling, key_floor,
    leaf_wf, lemma_height_below_pages, lemma_holds_bound, lemma_ranges, lemma_routed,
    lemma_tree_map, owns, range_hi, range_lo, subtree_wf, tree_height, tree_map,
};
use vstd::prelude::*;

verus! {

/// The address of a row in a table's heap file: page id and slot index.
#[derive(Debug, Clone, Copy, PartialEq, Eq)]
pub struct RowRef {
    pub page_id: PageId,
    pub slot: u16,
}

impl RowRef {
    /// The address of the row in slot `slot` of page `page_id`.
    pub fn new(page_id: PageId, slot: u16) -> (r: Self)
        ensures
            r == (RowRef { page_id, slot }),
    {
        Self { page_id, slot }
    }
}

/// The index. Keys are primary keys; values say where the row lives.
pub struct BTree {
    pub(super) index_heap: HeapFile,
}

impl View for BTree {
    type V = Map<i64, RowRef>;

    /// The map that the index holds.
    open spec fn view(&self) -> Map<i64, RowRef> {
        tree_map(self.pages())
    }
}

impl BTree {
    /// The bytes of the index file.
    pub closed spec fn image(&self) -> Seq<u8> {
        self.index_heap.image()
    }

    /// The pages of the index file.
    pub open spec fn pages(&self) -> Seq<Seq<u8>> {
        pages_of(self.image())
    }

    /// The index file is made of whole pages.
    pub closed spec fn heap_wf(&self) -> bool {
        self.index_heap.wf()
    }

    /// The index file holds a tree with its root at page 0, and the
    /// tree's leaves are chained.
    pub open spec fn wf(&self) -> bool {
        &&& self.heap_wf()
        &&& exists|h: nat| is_index(self.pages(), h)
    }

    /// The index file holds a tree, or no page at all.
    pub open spec fn valid(&self) -> bool {
        &&& self.heap_wf()
        &&& self.pages().len() == 0 || exists|h: nat| is_index(self.pages(), h)
    }

    /// The height of a tree is the one height at which its pages are a
    /// tree.
    pub proof fn lemma_height(&self)
        requires
            self.wf(),
        ensures
            is_index(self.pages(), self.height()),
    {
        let h = choose|h: nat| is_index(self.pages(), h);
        lemma_tree_map(self.pages(), h);
    }

    /// The number of levels between the root and the leaves.
    pub open spec fn height(&self) -> nat {
        tree_height(self.pages())
    }

    /// A new index: the root is an empty leaf.
    pub fn create() -> (t: Self)
        ensures
            t.wf(),
            t.pages().len() == 1,
            t.height() == 0,
            t@ == Map::<i64, RowRef>::empty(),
            page_id_of(t.pages()[0]) == 0,
            leaf_len_of(t.pages()[0]) == 0,
            leaf_next_of(t.pages()[0]) == 0,
    {
        let mut index_heap = HeapFile::create();
        let root = Self::alloc_empty_leaf(&mut index_heap);
        assert(root == 0);
        let t = Self { index_heap };
        proof {
            let pages = t.pages();
            assert(is_tree(pages, 0));
            assert(is_index(pages, 0));
            lemma_tree_map(pages, 0);
            assert forall|k: i64| !t@.contains_key(k) by {
                if t@.contains_key(k) {
                    assert(holds(pages, 0, 0, k, t@[k]));
                }
            }
            assert(t@ =~= Map::<i64, RowRef>::empty());
        }
        t
    }

    /// The index that the given file image holds. An image that is not a
    /// whole number of pages is refused; what the pages hold is not looked
    /// at.
    pub fn open(data: Vec<u8>) -> (res: Result<Self, StorageError>)
        requires
            data@.len() / PAGE_SIZE as nat <= u32::MAX,
        ensures
            res is Ok <==> data@.len() % PAGE_SIZE as nat == 0,
            res matches Ok(t) ==> t.heap_wf() && t.image() == data@,
            res matches Err(e) ==> e == StorageError::BadFileSize,
    {
        let index_heap = HeapFile::open(data)?;
        Ok(Self { index_heap })
    }

    /// The bytes of the index file, as `open` takes them.
    pub fn as_bytes(&self) -> (b: &[u8])
        ensures
            b@ == self.image(),
    {
        self.index_heap.as_bytes()
    }

    fn alloc_empty_leaf(heap: &mut HeapFile) -> (id: PageId)
        requires
            old(heap).wf(),
            old(heap).has_room(1),
        ensures
            final(heap).wf(),
            id == old(heap)@.len(),
            final(heap)@.len() == old(heap)@.len() + 1,
            forall|q: int| 0 <= q < old(heap)@.len() ==> final(heap)@[q] == old(heap)@[q],
            is_tree_page(final(heap)@[id as int], PageFlags::Leaf),
            page_id_of(final(heap)@[id as int]) == id,
            leaf_len_of(final(heap)@[id as int]) == 0,
            leaf_next_of(final(heap)@[id as int]) == 0,
    {
        let mut page = Page::new(0, PageFlags::Leaf);
        Self::leaf_set_next(&mut page, 0);
        Self::leaf_set_num_entries(&mut page, 0);
        proof {
            page.lemma_len();
            lemma_stored_as(page@, heap@.len() as PageId);
        }
        heap.append_page(&page)
    }

    /// The row reference stored under `key`, if there is one. An index
    /// file without pages has no root to look at.
    pub fn get(&self, key: i64) -> (res: Result<Option<RowRef>, StorageError>)
        requires
            self.valid(),
        ensures
            self.pages().len() == 0 ==> res == Err::<Option<RowRef>, StorageError>(
                StorageError::PageOutOfRange,
            ),
            self.pages().len() > 0 ==> res == Ok::<Option<RowRef>, StorageError>(
                if self@.contains_key(key) {
                    Some(self@[key])
                } else {
                    None
                },
            ),
    {
        if self.index_heap.num_pages() == 0 {
            return Err(StorageError::PageOutOfRange);
        }
        let ghost h = tree_height(self.pages());
        proof {
            self.lemma_height();
            lemma_tree_map(self.pages(), h);
        }
        self.get_from(0, key, Ghost(h), Ghost(key_floor()), Ghost(key_ceiling()))
    }

    /// The child under which `key` belongs: the first whose upper bound
    /// is above the key.
    fn child_index_for(page: &Page, key: i64) -> (c: usize)
        requires
            internal_len_of(page@) <= internal_max_keys(),
        ensures
            c <= internal_len_of(page@),
            forall|j: int| 0 <= j < c ==> internal_keys(page@)[j] <= key,
            c < internal_len_of(page@) ==> key < internal_keys(page@)[c as int],
    {
        let n = Self::internal_num_keys(page) as usize;
        let mut child_idx: usize = 0;
        while child_idx < n
            invariant_except_break
                child_idx <= n,
            invariant
                n == internal_len_of(page@),
                n <= internal_max_keys(),
                forall|j: int| 0 <= j < child_idx ==> internal_keys(page@)[j] <= key,
            ensures
                child_idx <= n,
                child_idx < n ==> key < internal_keys(page@)[child_idx as int],
            decreases n - child_idx,
        {
            if key < Self::internal_get_key(page, child_idx) {
                break ;
            }
            child_idx = child_idx + 1;
        }
        child_idx
    }

    fn get_from(
        &self,
        page_id: PageId,
        key: i64,
        Ghost(h): Ghost<nat>,
        Ghost(lo): Ghost<int>,
        Ghost(hi): Ghost<int>,
    ) -> (res: Result<Option<RowRef>, StorageError>)
        requires
            self.heap_wf(),
            subtree_wf(self.pages(), page_id as int, h, lo, hi),
            lo <= key < hi,
        ensures
            match res {
                Ok(Some(r)) => holds(self.pages(), page_id as int, h, key, r),
                Ok(None) => forall|r: RowRef| !holds(self.pages(), page_id as int, h, key, r),
                Err(_) => false,
            },
        decreases h,
    {
        let page = self.index_heap.read_page(page_id)?;
        let flags = Self::flags(&page);
        let ghost b = self.pages()[page_id as int];
        if flags == PageFlags::Leaf.code() {
            let n = Self::leaf_num_entries(&page) as usize;
            let mut i: usize = 0;
            while i < n
                invariant
                    h == 0,
                    page@ == b,
                    b == self.pages()[page_id as int],
                    0 <= page_id < self.pages().len(),
                    leaf_wf(b, lo, hi),
                    n == leaf_len_of(b),
                    i <= n,
                    forall|j: int| 0 <= j < i ==> leaf_entries(b)[j].0 < key,
                decreases n - i,
            {
                let k = Self::leaf_get_key(&page, i);
                assert(leaf_entries(b)[i as int].0 == k);
                if k == key {
                    let r = Self::leaf_get_ref(&page, i);
                    assert(leaf_entries(b)[i as int] == (key, r));
                    return Ok(Some(r));
                }
                if k > key {
                    proof {
                        assert forall|r: RowRef| !holds(self.pages(), page_id as int, h, key, r) by {
                            if holds(self.pages(), page_id as int, h, key, r) {
                                let j = choose|j: int|
                                    0 <= j < leaf_entries(b).len() && #[trigger] leaf_entries(b)[j] == (
                                        key,
                                        r,
                                    );
                                assert(leaf_entries(b)[j].0 == key);
                                if j > i {
                                    assert(leaf_entries(b)[i as int].0 < leaf_entries(b)[j].0);
                                }
                            }
                        }
                    }
                    return Ok(None);
                }
                i = i + 1;
            }
            proof {
                assert forall|r: RowRef| !holds(self.pages(), page_id as int, h, key, r) by {
                    if holds(self.pages(), page_id as int, h, key, r) {
                        let j = choose|j: int|
                            0 <= j < leaf_entries(b).len() && #[trigger] leaf_entries(b)[j] == (
                                key,
                                r,
                            );
                        assert(leaf_entries(b)[j].0 == key);
                    }
                }
            }
            Ok(None)
        } else {
            let child_idx = Self::child_index_for(&page, key);
            let child = Self::internal_get_child(&page, child_idx);
            let ghost keys = internal_keys(b);
            let ghost c = child_idx as int;
            proof {
                assert(child as int == child_at(b, c));
                if c > 0 {
                    assert(keys[c - 1] <= key);
                }
                assert forall|r: RowRef|
                    holds(self.pages(), page_id as int, h, key, r) <==> holds(
                        self.pages(),
                        child as int,
                        (h - 1) as nat,
                        key,
                        r,
                    ) by {
                    lemma_routed(self.pages(), page_id as int, h, lo, hi, c, key, r);
                }
            }
            self.get_from(
                child,
                key,
                Ghost((h - 1) as nat),
                Ghost(range_lo(keys, lo, c)),
                Ghost(range_hi(keys, hi, c)),
            )
        }
    }

    /// An index is what its file image holds: two indexes over the same
    /// image are both trees or both not, and hold the same map. So an
    /// index that is opened from the bytes of another answers as the
    /// other did.
    pub proof fn lemma_same_image(&self, other: &BTree)
        requires
            self.image() == other.image(),
            self.heap_wf(),
            other.heap_wf(),
        ensures
            self.pages() == other.pages(),
            self.wf() == other.wf(),
            self.valid() == other.valid(),
            self.height() == other.height(),
            self@ == other@,
    {
        assert(self.pages() == other.pages());
        if exists|h: nat| is_index(self.pages(), h) {
            let h = choose|h: nat| is_index(self.pages(), h);
            assert(is_index(other.pages(), h));
        }
        if exists|h: nat| is_index(other.pages(), h) {
            let h = choose|h: nat| is_index(other.pages(), h);
            assert(is_index(self.pages(), h));
        }
    }

    /// A tree has fewer levels than its file has pages, so an index file
    /// that can double its length has room for any insertion.
    pub proof fn lemma_room(&self)
        requires
            self.wf(),
            self.has_room((self.pages().len() + 1) as int),
        ensures
            self.has_room((self.height() + 2) as int),
    {
        self.lemma_height();
        lemma_height_below_pages(self.pages(), self.height());
    }

    /// An insertion of `key` parts the root: every page on the key's way
    /// from the root to its leaf is full.
    pub open spec fn root_parts(&self, key: i64) -> bool {
        parts(self.pages(), 0, self.height(), key)
    }

    /// There is room for `n` more pages in the index file.
    pub open spec fn has_room(&self, n: int) -> bool {
        &&& self.pages().len() + n <= u32::MAX
        &&& (self.pages().len() + n) * PAGE_SIZE <= usize::MAX
    }

    /// Stores `value` under `key`.
    ///
    /// A key that the index holds already is refused, and so is an
    /// insertion into an index file without pages; both leave the file as
    /// it is. Otherwise the index holds one entry more. Where the leaf
    /// that takes the entry is full it is parted in two, and so is each
    /// page above it that is full, each split adding one page at the end
    /// of the file. Where the root is parted the tree grows by one level:
    /// the old root is copied to the end of the file and page 0 becomes
    /// an internal page with one key, over the copy and the page that the
    /// split of the old root added. Pages that are no part of the tree
    /// stay as they are.
    pub fn insert(&mut self, key: i64, value: RowRef) -> (res: Result<(), StorageError>)
        requires
            old(self).valid(),
            old(self).wf() ==> old(self).has_room((old(self).height() + 2) as int),
        ensures
            final(self).valid(),
            match res {
                Ok(_) => {
                    &&& old(self).wf()
                    &&& final(self).wf()
                    &&& !old(self)@.contains_key(key)
                    &&& final(self)@ == old(self)@.insert(key, value)
                    &&& final(self).height() == old(self).height() + if old(self).root_parts(key) {
                        1nat
                    } else {
                        0nat
                    }
                    &&& final(self).pages().len() == old(self).pages().len() + added(
                        old(self).pages(),
                        0,
                        old(self).height(),
                        key,
                    ) + if old(self).root_parts(key) {
                        1nat
                    } else {
                        0nat
                    }
                    &&& final(self).pages().len() <= old(self).pages().len() + old(self).height()
                        + 2
                    &&& old(self).root_parts(key) ==> root_parted(final(self).pages())
                    &&& old(self).height() == 0 ==> root_leaf_grown(
                        old(self).pages(),
                        final(self).pages(),
                        key,
                        value,
                    )
                    &&& forall|q: int|
                        0 <= q < old(self).pages().len() && !owns(
                            old(self).pages(),
                            0,
                            old(self).height(),
                            q,
                        ) ==> #[trigger] final(self).pages()[q] == old(self).pages()[q]
                },
                Err(e) => {
                    &&& final(self).image() == old(self).image()
                    &&& if old(self).pages().len() == 0 {
                        e == StorageError::EmptyTree
                    } else {
                        e == StorageError::DuplicateKey && old(self)@.contains_key(key)
                    }
                },
            },
    {
        if self.index_heap.num_pages() == 0 {
            return Err(StorageError::EmptyTree);
        }
        let ghost pages0 = self.pages();
        let ghost h = tree_height(pages0);
        proof {
            self.lemma_height();
            lemma_tree_map(pages0, h);
        }
        let split = self.insert_into(
            0,
            key,
            value,
            Ghost(h),
            Ghost(key_floor()),
            Ghost(key_ceiling()),
            Ghost(0int),
        )?;
        let ghost pages2 = self.pages();
        match split {
            Some((sk, sp)) => {
                self.split_root(sk, sp, Ghost(h))?;
                proof {
                    let pages3 = self.pages();
                    assert forall|k: i64, r: RowRef|
                        holds(pages3, 0, h + 1, k, r) <==> holds(pages0, 0, h, k, r) || (k == key && r
                            == value) by {
                        assert(holds(pages3, 0, h + 1, k, r) <==> holds(pages2, 0, h, k, r) || holds(
                            pages2,
                            sp as int,
                            h,
                            k,
                            r,
                        ));
                    }
                    lemma_map_inserted(pages0, pages3, h, h + 1, key, value);
                    lemma_tree_map(pages3, h + 1);
                    assert(is_index(pages3, h + 1));
                    assert(internal_len_of(pages3[0]) == internal_keys(pages3[0]).len());
                    assert(root_parted(pages3));
                    assert forall|q: int|
                        0 <= q < pages0.len() && !owns(pages0, 0, h, q) implies #[trigger] pages3[q]
                        == pages0[q] by {
                        assert(pages2[q] == pages0[q]);
                    }
                    if h == 0 {
                        let n = pages0.len() as int;
                        assert(leaf_len_of(pages0[0]) == leaf_entries(pages0[0]).len());
                        assert(leaf_len_of(pages2[0]) == leaf_entries(pages2[0]).len());
                        lemma_stored_as(pages2[0], (n + 1) as PageId);
                        assert(pages3[n] == pages2[n]);
                        assert forall|q: int| 0 < q < n implies #[trigger] pages3[q] == pages0[q] by {
                            assert(pages2[q] == pages0[q]);
                        }
                        assert(root_leaf_grown(pages0, pages3, key, value));
                    }
                }
            },
            None => {
                proof {
                    assert forall|k: i64, r: RowRef|
                        holds(pages2, 0, h, k, r) <==> holds(pages0, 0, h, k, r) || (k == key && r
                            == value) by {}
                    lemma_map_inserted(pages0, pages2, h, h, key, value);
                    lemma_tree_map(pages2, h);
                    assert(is_index(pages2, h));
                    if h == 0 {
                        assert(leaf_len_of(pages0[0]) == leaf_entries(pages0[0]).len());
                        assert(root_leaf_grown(pages0, pages2, key, value));
                    }
                }
            },
        }
        Ok(())
    }

    /// The place at which `key` belongs among the entries of a leaf, or
    /// `None` where the leaf holds the key already.
    fn leaf_place_for(page: &Page, key: i64) -> (res: Option<usize>)
        requires
            leaf_len_of(page@) <= leaf_max_entries(),
            entries_ascending(leaf_entries(page@)),
        ensures
            match res {
                Some(idx) => is_place_of(leaf_entries(page@), idx as int, key),
                None => exists|i: int|
                    0 <= i < leaf_entries(page@).len() && (#[trigger] leaf_entries(page@)[i]).0
                        == key,
            },
    {
        let n = Self::leaf_num_entries(page) as usize;
        let mut i: usize = 0;
        while i < n
            invariant
                n == leaf_len_of(page@),
                n <= leaf_max_entries(),
                entries_ascending(leaf_entries(page@)),
                i <= n,
                forall|j: int| 0 <= j < i ==> (#[trigger] leaf_entries(page@)[j]).0 < key,
            decreases n - i,
        {
            let k = Self::leaf_get_key(page, i);
            assert(leaf_entries(page@)[i as int].0 == k);
            if k == key {
                return None;
            }
            if k > key {
                proof {
                    assert forall|j: int| i <= j < leaf_entries(page@).len() implies key < (
                    #[trigger] leaf_entries(page@)[j]).0 by {
                        if j > i {
                            assert(leaf_entries(page@)[i as int].0 < leaf_entries(page@)[j].0);
                        }
                    }
                }
                return Some(i);
            }
            i = i + 1;
        }
        Some(n)
    }

    fn insert_into(
        &mut self,
        page_id: PageId,
        key: i64,
        value: RowRef,
        Ghost(h): Ghost<nat>,
        Ghost(lo): Ghost<int>,
        Ghost(hi): Ghost<int>,
        Ghost(tail): Ghost<int>,
    ) -> (res: Result<Option<(i64, PageId)>, StorageError>)
        requires
            old(self).heap_wf(),
            subtree_wf(old(self).pages(), page_id as int, h, lo, hi),
            chained(old(self).pages(), page_id as int, h, tail),
            lo <= key < hi,
            old(self).has_room((h + 1) as int),
        ensures
            final(self).heap_wf(),
            match res {
                Ok(split) => {
                    &&& forall|r: RowRef| !holds(old(self).pages(), page_id as int, h, key, r)
                    &&& grown_by(
                        old(self).pages(),
                        final(self).pages(),
                        page_id as int,
                        h,
                        lo,
                        hi,
                        key,
                        value,
                        split,
                    )
                    &&& rechained(
                        old(self).pages(),
                        final(self).pages(),
                        page_id as int,
                        h,
                        tail,
                        split,
                    )
                    &&& grown_where_full(
                        old(self).pages(),
                        final(self).pages(),
                        page_id as int,
                        h,
                        key,
                        split,
                    )
                    &&& h == 0 ==> leaf_written(
                        old(self).pages(),
                        final(self).pages(),
                        page_id as int,
                        key,
                        value,
                        split,
                    )
                },
                Err(e) => {
                    &&& e == StorageError::DuplicateKey
                    &&& final(self).image() == old(self).image()
                    &&& exists|r: RowRef| holds(old(self).pages(), page_id as int, h, key, r)
                },
            },
        decreases h,
    {
        let ghost pages0 = self.pages();
        let ghost id = page_id as int;
        let mut page = self.index_heap.read_page(page_id)?;
        let flags = Self::flags(&page);
        if flags == PageFlags::Leaf.code() {
            let n = Self::leaf_num_entries(&page) as usize;
            let idx = match Self::leaf_place_for(&page, key) {
                Some(idx) => idx,
                None => {
                    proof {
                        let i = choose|i: int|
                            0 <= i < leaf_entries(pages0[id]).len() && (#[trigger] leaf_entries(
                                pages0[id],
                            )[i]).0 == key;
                        assert(holds(pages0, id, h, key, leaf_entries(pages0[id])[i].1));
                    }
                    return Err(StorageError::DuplicateKey);
                },
            };
            proof {
                lemma_leaf_lacks(pages0, id, idx as int, key);
                lemma_place_of(leaf_entries(pages0[id]), key, idx as int);
            }
            if n < leaf_max_entries() {
                Self::leaf_insert_at(&mut page, idx, key, value);
                self.index_heap.write_page(page_id, &page);
                proof {
                    lemma_leaf_grown(pages0, self.pages(), id, lo, hi, idx as int, key, value);
                }
                Ok(None)
            } else {
                let (split_key, new_id) = self.split_leaf(page_id, &mut page, idx, key, value);
                proof {
                    lemma_leaf_split_grown(
                        pages0,
                        self.pages(),
                        id,
                        lo,
                        hi,
                        idx as int,
                        key,
                        value,
                        split_key,
                        new_id,
                    );
                }
                Ok(Some((split_key, new_id)))
            }
        } else {
            let n = Self::internal_num_keys(&page) as usize;
            let child_idx = Self::child_index_for(&page, key);
            let child_id = Self::internal_get_child(&page, child_idx);
            let ghost keys = internal_keys(pages0[id]);
            let ghost c = child_idx as int;
            let ghost g = (h - 1) as nat;
            let ghost child_tail = next_start(pages0, internal_children(pages0[id]), g, tail, c);
            proof {
                assert(child_id as int == child_at(pages0[id], c));
                if c > 0 {
                    assert(keys[c - 1] <= key);
                }
                lemma_child_for(keys, key, c);
                assert forall|r: RowRef|
                    holds(pages0, id, h, key, r) <==> holds(pages0, child_id as int, g, key, r) by {
                    lemma_routed(pages0, id, h, lo, hi, c, key, r);
                }
            }
            let split = self.insert_into(
                child_id,
                key,
                value,
                Ghost(g),
                Ghost(range_lo(keys, lo, c)),
                Ghost(range_hi(keys, hi, c)),
                Ghost(child_tail),
            )?;
            let ghost pages1 = self.pages();
            match split {
                Some((split_key, split_page_id)) => {
                    proof {
                        lemma_kids_of_node(pages0, id, h, lo, hi);
                        assert(pages1[id] == pages0[id]);
                    }
                    if n < internal_max_keys() {
                        Self::insert_internal_child(&mut page, child_idx, split_key, split_page_id);
                        self.index_heap.write_page(page_id, &page);
                        proof {
                            lemma_node_absorbed(
                                pages0,
                                pages1,
                                self.pages(),
                                id,
                                h,
                                lo,
                                hi,
                                c,
                                key,
                                value,
                                split_key,
                                split_page_id,
                            );
                            lemma_node_chain_absorbed(
                                pages0,
                                pages1,
                                self.pages(),
                                id,
                                h,
                                lo,
                                hi,
                                tail,
                                c,
                                key,
                                value,
                                split_key,
                                split_page_id,
                            );
                        }
                        Ok(None)
                    } else {
                        let (promote_key, right_id) = self.split_internal(
                            page_id,
                            &mut page,
                            child_idx,
                            split_key,
                            split_page_id,
                        );
                        proof {
                            lemma_node_split(
                                pages0,
                                pages1,
                                self.pages(),
                                id,
                                h,
                                lo,
                                hi,
                                c,
                                key,
                                value,
                                split_key,
                                split_page_id,
                                promote_key,
                                right_id,
                            );
                            lemma_node_chain_split(
                                pages0,
                                pages1,
                                self.pages(),
                                id,
                                h,
                                lo,
                                hi,
                                tail,
                                c,
                                key,
                                value,
                                split_key,
                                split_page_id,
                                promote_key,
                                right_id,
                            );
                        }
                        Ok(Some((promote_key, right_id)))
                    }
                },
                None => {
                    proof {
                        lemma_node_child_grown(pages0, pages1, id, h, lo, hi, c, key, value);
                        lemma_node_chain_grown(pages0, pages1, id, h, lo, hi, tail, c, key, value);
                    }
                    Ok(None)
                },
            }
        }
    }

    /// Parts a full leaf in two so that the new entry finds room: the
    /// upper half of the entries, the new one among them, moves to a new
    /// leaf at the end of the file, which takes the old leaf's place in
    /// the chain of leaves behind the old leaf. Returns the first key of
    /// the new leaf and the new leaf's page id.
    fn split_leaf(
        &mut self,
        page_id: PageId,
        page: &mut Page,
        idx: usize,
        key: i64,
        value: RowRef,
    ) -> (res: (i64, PageId))
        requires
            old(self).heap_wf(),
            old(self).has_room(1),
            page_id < old(self).pages().len(),
            leaf_len_of(old(page)@) == leaf_max_entries(),
            idx <= leaf_len_of(old(page)@),
            is_tree_page(old(page)@, PageFlags::Leaf),
        ensures
            final(self).heap_wf(),
            final(self).pages().len() == old(self).pages().len() + 1,
            res.1 == old(self).pages().len(),
            forall|q: int|
                0 <= q < old(self).pages().len() && q != page_id ==> final(self).pages()[q] == old(
                    self,
                ).pages()[q],
            final(self).pages()[page_id as int] == final(page)@,
            same_header(old(page)@, final(page)@),
            page_id_of(final(self).pages()[res.1 as int]) == res.1,
            is_tree_page(final(page)@, PageFlags::Leaf),
            is_tree_page(final(self).pages()[res.1 as int], PageFlags::Leaf),
            leaf_entries(final(page)@) == leaf_entries(old(page)@).insert(
                idx as int,
                (key, value),
            ).subrange(0, leaf_split_point()),
            leaf_entries(final(self).pages()[res.1 as int]) == leaf_entries(old(page)@).insert(
                idx as int,
                (key, value),
            ).subrange(leaf_split_point(), leaf_max_entries() + 1),
            res.0 == leaf_entries(old(page)@).insert(idx as int, (key, value))[leaf_split_point()].0,
            leaf_next_of(final(page)@) == res.1,
            leaf_next_of(final(self).pages()[res.1 as int]) == leaf_next_of(old(page)@),
    {
        let mut new_page = Page::new(0, PageFlags::Leaf);
        Self::leaf_set_next(&mut new_page, Self::leaf_next(page));
        let split_key = Self::leaf_split_insert(page, &mut new_page, idx, key, value);
        let ghost left = leaf_entries(page@);
        assert(leaf_len_of(page@) == left.len());
        Self::leaf_set_next(page, self.index_heap.num_pages());
        proof {
            assert(leaf_entries(page@) =~= left);
            new_page.lemma_len();
            assert(leaf_len_of(new_page@) == leaf_entries(new_page@).len());
            lemma_stored_as(new_page@, self.index_heap@.len() as PageId);
        }
        let new_id = self.index_heap.append_page(&new_page);
        self.index_heap.write_page(page_id, page);
        (split_key, new_id)
    }

    /// Parts a full internal page in two so that the new key and child
    /// find room: of the keys, the new one among them, the middle one
    /// moves up, and those behind it move with their children to a new
    /// page at the end of the file. Returns the key that moves up and
    /// the new page's id.
    fn split_internal(
        &mut self,
        page_id: PageId,
        page: &mut Page,
        c: usize,
        sk: i64,
        sp: PageId,
    ) -> (res: (i64, PageId))
        requires
            old(self).heap_wf(),
            old(self).has_room(1),
            page_id < old(self).pages().len(),
            internal_len_of(old(page)@) == internal_max_keys(),
            c <= internal_len_of(old(page)@),
            is_tree_page(old(page)@, PageFlags::Internal),
        ensures
            final(self).heap_wf(),
            final(self).pages().len() == old(self).pages().len() + 1,
            res.1 == old(self).pages().len(),
            forall|q: int|
                0 <= q < old(self).pages().len() && q != page_id ==> final(self).pages()[q] == old(
                    self,
                ).pages()[q],
            final(self).pages()[page_id as int] == final(page)@,
            same_header(old(page)@, final(page)@),
            page_id_of(final(self).pages()[res.1 as int]) == res.1,
            is_tree_page(final(page)@, PageFlags::Internal),
            is_tree_page(final(self).pages()[res.1 as int], PageFlags::Internal),
            res.0 == internal_keys(old(page)@).insert(c as int, sk)[internal_split_point()],
            internal_keys(final(page)@) == internal_keys(old(page)@).insert(c as int, sk).subrange(
                0,
                internal_split_point(),
            ),
            internal_children(final(page)@) == internal_children(old(page)@).insert(
                c + 1,
                sp,
            ).subrange(0, internal_split_point() + 1),
            internal_keys(final(self).pages()[res.1 as int]) == internal_keys(old(page)@).insert(
                c as int,
                sk,
            ).subrange(internal_split_point() + 1, internal_max_keys() + 1),
            internal_children(final(self).pages()[res.1 as int]) == internal_children(
                old(page)@,
            ).insert(c + 1, sp).subrange(internal_split_point() + 1, internal_max_keys() + 2),
    {
        let mut new_page = Page::new(0, PageFlags::Internal);
        let promote_key = Self::internal_split_insert(page, &mut new_page, c, sk, sp);
        proof {
            new_page.lemma_len();
            assert(internal_len_of(new_page@) == internal_keys(new_page@).len());
            lemma_stored_as(new_page@, self.index_heap@.len() as PageId);
        }
        let right_id = self.index_heap.append_page(&new_page);
        self.index_heap.write_page(page_id, page);
        (promote_key, right_id)
    }

    /// Puts a new root over a root that was parted: the old root page is
    /// copied to the end of the file, and page 0 becomes an internal page
    /// with one key, the copy to its left and the split's new page to its
    /// right.
    fn split_root(&mut self, promote_key: i64, right_page_id: PageId, Ghost(h): Ghost<nat>) -> (res:
        Result<(), StorageError>)
        requires
            old(self).heap_wf(),
            old(self).has_room(1),
            subtree_wf(old(self).pages(), 0, h, key_floor(), promote_key as int),
            subtree_wf(old(self).pages(), right_page_id as int, h, promote_key as int, key_ceiling()),
            apart(old(self).pages(), 0, right_page_id as int, h),
            key_floor() < promote_key,
            chained(
                old(self).pages(),
                0,
                h,
                first_leaf(old(self).pages(), right_page_id as int, h),
            ),
            chained(old(self).pages(), right_page_id as int, h, 0),
        ensures
            res is Ok,
            final(self).heap_wf(),
            final(self).pages().len() == old(self).pages().len() + 1,
            is_tree(final(self).pages(), h + 1),
            chained(final(self).pages(), 0, h + 1, 0),
            forall|k: i64, r: RowRef| #[trigger]
                holds(final(self).pages(), 0, h + 1, k, r) <==> holds(old(self).pages(), 0, h, k, r)
                    || holds(old(self).pages(), right_page_id as int, h, k, r),
            forall|q: int|
                0 < q < old(self).pages().len() ==> #[trigger] final(self).pages()[q] == old(
                    self,
                ).pages()[q],
            final(self).pages()[old(self).pages().len() as int] == stored_as(
                old(self).pages()[0],
                old(self).pages().len() as PageId,
            ),
            is_tree_page(final(self).pages()[0], PageFlags::Internal),
            page_id_of(final(self).pages()[0]) == 0,
            internal_keys(final(self).pages()[0]) == seq![promote_key],
            internal_children(final(self).pages()[0]) == seq![
                old(self).pages().len() as PageId,
                right_page_id,
            ],
    {
        let ghost pages2 = self.pages();
        let left_page = self.index_heap.read_page(0)?;
        proof {
            left_page.lemma_len();
            lemma_stored_as(left_page@, self.index_heap@.len() as PageId);
        }
        let left_id = self.index_heap.append_page(&left_page);
        let mut new_root = Page::new(0, PageFlags::Internal);
        Self::internal_set_num_keys(&mut new_root, 1);
        Self::internal_set_child(&mut new_root, 0, left_id);
        Self::internal_set_key_child(&mut new_root, 0, promote_key, right_page_id);
        self.index_heap.write_page(0, &new_root);
        proof {
            let pages3 = self.pages();
            new_root.lemma_len();
            assert(internal_keys(new_root@) =~= seq![promote_key]);
            assert(internal_children(new_root@) =~= seq![left_id, right_page_id]);
            lemma_root_split(pages2, pages3, h, promote_key, right_page_id, left_id);
            lemma_root_chain(pages2, pages3, h, promote_key, right_page_id, left_id);
        }
        Ok(())
    }

    /// The entries with a key in `[start, end)`, in ascending order of the
    /// keys. An index file without pages has no root to look at.
    pub fn range_scan(&self, start: i64, end: i64) -> (res: Result<Vec<(i64, RowRef)>, StorageError>)
        requires
            self.valid(),
        ensures
            match res {
                Ok(v) => self.pages().len() > 0 && is_range_of(v@, self@, start, end),
                Err(e) => self.pages().len() == 0 && e == StorageError::PageOutOfRange,
            },
    {
        if self.index_heap.num_pages() == 0 {
            return Err(StorageError::PageOutOfRange);
        }
        let ghost h = tree_height(self.pages());
        proof {
            self.lemma_height();
        }
        let mut out: Vec<(i64, RowRef)> = Vec::new();
        self.range_scan_from(
            0,
            start,
            end,
            &mut out,
            Ghost(h),
            Ghost(key_floor()),
            Ghost(key_ceiling()),
        )?;
        proof {
            lemma_scanned_is_range(self.pages(), h, start, end, out@);
        }
        Ok(out)
    }

    fn range_scan_from(
        &self,
        page_id: PageId,
        start: i64,
        end: i64,
        out: &mut Vec<(i64, RowRef)>,
        Ghost(h): Ghost<nat>,
        Ghost(lo): Ghost<int>,
        Ghost(hi): Ghost<int>,
    ) -> (res: Result<(), StorageError>)
        requires
            self.heap_wf(),
            subtree_wf(self.pages(), page_id as int, h, lo, hi),
            lo < hi,
            entries_ascending(old(out)@),
            forall|j: int| 0 <= j < old(out)@.len() ==> (#[trigger] old(out)@[j]).0 < lo,
        ensures
            res is Ok,
            old(out)@.len() <= final(out)@.len(),
            forall|j: int| 0 <= j < old(out)@.len() ==> final(out)@[j] == old(out)@[j],
            entries_ascending(final(out)@),
            forall|j: int| 0 <= j < final(out)@.len() ==> (#[trigger] final(out)@[j]).0 < hi,
            scanned(
                self.pages(),
                page_id as int,
                h,
                start,
                end,
                final(out)@,
                old(out)@.len() as int,
            ),
        decreases h,
    {
        let ghost pages = self.pages();
        let ghost id = page_id as int;
        let ghost from = out@.len() as int;
        let page = self.index_heap.read_page(page_id)?;
        let flags = Self::flags(&page);
        let ghost b = pages[id];
        if flags == PageFlags::Leaf.code() {
            let n = Self::leaf_num_entries(&page);
            let ghost es = leaf_entries(b);
            let mut i: usize = 0;
            let mut past_end = false;
            while i < n as usize && !past_end
                invariant
                    h == 0,
                    page@ == b,
                    b == pages[id],
                    pages == self.pages(),
                    0 <= id < pages.len(),
                    es == leaf_entries(b),
                    leaf_wf(b, lo, hi),
                    lo < hi,
                    n == leaf_len_of(b),
                    i <= n,
                    from == old(out)@.len(),
                    from <= out@.len(),
                    forall|j: int| 0 <= j < from ==> out@[j] == old(out)@[j],
                    entries_ascending(out@),
                    forall|j: int| 0 <= j < out@.len() ==> (#[trigger] out@[j]).0 < hi,
                    i < n ==> forall|j: int| 0 <= j < out@.len() ==> (#[trigger] out@[j]).0 < es[i as int].0,
                    past_end ==> i < n && es[i as int].0 >= end,
                    forall|j: int|
                        from <= j < out@.len() ==> holds(pages, id, h, (#[trigger] out@[j]).0, out@[j].1)
                            && start <= out@[j].0 < end,
                    forall|t: int|
                        0 <= t < i && start <= (#[trigger] es[t]).0 < end ==> exists|j: int|
                            from <= j < out@.len() && #[trigger] out@[j] == es[t],
                decreases n - i + (if past_end { 0int } else { 1int }),
            {
                let k = Self::leaf_get_key(&page, i);
                assert(es[i as int].0 == k);
                if k >= end {
                    past_end = true;
                } else {
                    if k >= start {
                        let r = Self::leaf_get_ref(&page, i);
                        let ghost before = out@;
                        out.push((k, r));
                        proof {
                            assert(es[i as int] == (k, r));
                            assert forall|t: int|
                                0 <= t < i + 1 && start <= (#[trigger] es[t]).0 < end implies exists|
                                j: int,
                            | from <= j < out@.len() && #[trigger] out@[j] == es[t] by {
                                if t < i {
                                    let j = choose|j: int|
                                        from <= j < before.len() && #[trigger] before[j] == es[t];
                                    assert(out@[j] == es[t]);
                                } else {
                                    assert(out@[before.len() as int] == es[t]);
                                }
                            }
                        }
                    }
                    proof {
                        if i + 1 < n {
                            assert(es[i as int].0 < es[i + 1].0);
                        }
                    }
                    i = i + 1;
                }
            }
            proof {
                assert forall|k2: i64, r: RowRef| #[trigger]
                    holds(pages, id, h, k2, r) && start <= k2 < end implies exists|j: int|
                    from <= j < out@.len() && #[trigger] out@[j] == (k2, r) by {
                    let t = choose|t: int| 0 <= t < es.len() && #[trigger] es[t] == (k2, r);
                    if t > i {
                        assert(es[i as int].0 < es[t].0);
                    }
                    assert(t < i);
                    let j = choose|j: int| from <= j < out@.len() && #[trigger] out@[j] == es[t];
                    assert(out@[j] == (k2, r));
                }
            }
            Ok(())
        } else {
            let n = Self::internal_num_keys(&page);
            let ghost keys = internal_keys(b);
            let ghost g = (h - 1) as nat;
            proof {
                assert(lo < keys[0] < hi);
                lemma_ranges(keys, lo, hi);
                assert forall|k: i64, r: RowRef| #[trigger] holds(pages, id, h, k, r) implies lo
                    <= k < hi by {
                    lemma_holds_bound(pages, id, h, lo, hi, k, r);
                }
            }
            let mut i: usize = 0;
            let mut past_end = false;
            while i < n as usize && !past_end
                invariant
                    h > 0,
                    g == h - 1,
                    page@ == b,
                    b == pages[id],
                    pages == self.pages(),
                    self.heap_wf(),
                    subtree_wf(pages, id, h, lo, hi),
                    keys == internal_keys(b),
                    n == internal_len_of(b),
                    i <= n,
                    lo < hi,
                    from == old(out)@.len(),
                    from <= out@.len(),
                    forall|j: int| 0 <= j < from ==> out@[j] == old(out)@[j],
                    entries_ascending(out@),
                    forall|j: int| 0 <= j < out@.len() ==> (#[trigger] out@[j]).0 < hi,
                    !past_end ==> forall|j: int|
                        0 <= j < out@.len() ==> (#[trigger] out@[j]).0 < range_lo(keys, lo, i as int),
                    forall|j: int|
                        from <= j < out@.len() ==> holds(pages, id, h, (#[trigger] out@[j]).0, out@[j].1)
                            && start <= out@[j].0 < end,
                    !past_end ==> forall|k: i64, r: RowRef| #[trigger]
                        holds(pages, id, h, k, r) && start <= k < end && k < range_lo(
                            keys,
                            lo,
                            i as int,
                        ) ==> exists|j: int| from <= j < out@.len() && #[trigger] out@[j] == (k, r),
                    past_end ==> forall|k: i64, r: RowRef| #[trigger]
                        holds(pages, id, h, k, r) && start <= k < end ==> exists|j: int|
                            from <= j < out@.len() && #[trigger] out@[j] == (k, r),
                decreases n - i + (if past_end { 0int } else { 1int }),
            {
                let k = Self::internal_get_key(&page, i);
                proof {
                    lemma_ranges(keys, lo, hi);
                    assert(keys[i as int] == k);
                }
                let ghost before = out@;
                if start < k {
                    let child = Self::internal_get_child(&page, i);
                    assert(child as int == child_at(b, i as int));
                    self.range_scan_from(
                        child,
                        start,
                        end,
                        out,
                        Ghost(g),
                        Ghost(range_lo(keys, lo, i as int)),
                        Ghost(range_hi(keys, hi, i as int)),
                    )?;
                }
                proof {
                    let c = i as int;
                    let child = child_at(b, c);
                    assert forall|j: int| from <= j < out@.len() implies holds(
                        pages,
                        id,
                        h,
                        (#[trigger] out@[j]).0,
                        out@[j].1,
                    ) && start <= out@[j].0 < end by {
                        if j < before.len() {
                            assert(out@[j] == before[j]);
                        } else {
                            assert(holds(pages, child, g, out@[j].0, out@[j].1));
                        }
                    }
                    assert forall|k2: i64, r: RowRef| #[trigger]
                        holds(pages, id, h, k2, r) && start <= k2 < end && k2 < range_lo(
                            keys,
                            lo,
                            c + 1,
                        ) implies exists|j: int| from <= j < out@.len() && #[trigger] out@[j] == (k2, r) by {
                        if k2 < range_lo(keys, lo, c) {
                            let j = choose|j: int|
                                from <= j < before.len() && #[trigger] before[j] == (k2, r);
                            assert(out@[j] == (k2, r));
                        } else {
                            lemma_routed(pages, id, h, lo, hi, c, k2, r);
                            assert(holds(pages, child, g, k2, r));
                        }
                    }
                    assert forall|j: int| 0 <= j < out@.len() implies (#[trigger] out@[j]).0 < range_lo(
                        keys,
                        lo,
                        c + 1,
                    ) by {
                        if j < before.len() {
                            assert(out@[j] == before[j]);
                        }
                    }
                }
                if end <= k {
                    past_end = true;
                } else {
                    i = i + 1;
                }
            }
            if past_end {
                return Ok(());
            }
            let child = Self::internal_get_child(&page, n as usize);
            let ghost before = out@;
            proof {
                lemma_ranges(keys, lo, hi);
                assert(child as int == child_at(b, n as int));
            }
            self.range_scan_from(
                child,
                start,
                end,
                out,
                Ghost(g),
                Ghost(range_lo(keys, lo, n as int)),
                Ghost(range_hi(keys, hi, n as int)),
            )?;
            proof {
                let c = n as int;
                assert forall|j: int| from <= j < out@.len() implies holds(
                    pages,
                    id,
                    h,
                    (#[trigger] out@[j]).0,
                    out@[j].1,
                ) && start <= out@[j].0 < end by {
                    if j < before.len() {
                        assert(out@[j] == before[j]);
                    } else {
                        assert(holds(pages, child as int, g, out@[j].0, out@[j].1));
                    }
                }
                assert forall|k2: i64, r: RowRef| #[trigger]
                    holds(pages, id, h, k2, r) && start <= k2 < end implies exists|j: int|
                    from <= j < out@.len() && #[trigger] out@[j] == (k2, r) by {
                    if k2 < range_lo(keys, lo, c) {
                        let j = choose|j: int|
                            from <= j < before.len() && #[trigger] before[j] == (k2, r);
                        assert(out@[j] == (k2, r));
                    } else {
                        lemma_holds_bound(pages, id, h, lo, hi, k2, r);
                        lemma_routed(pages, id, h, lo, hi, c, k2, r);
                        assert(holds(pages, child as int, g, k2, r));
                    }
                }
            }
            Ok(())
        }
    }

    /// The page of the index file with the given id. It must exist and
    /// start with the page magic.
    pub(super) fn read_node(&self, page_id: PageId) -> (res: Result<Page, StorageError>)
        requires
            self.heap_wf(),
        ensures
            match res {
                Ok(p) => page_id < self.pages().len() && p@ == self.pages()[page_id as int]
                    && magic_of(p@) == PAGE_MAGIC,
                Err(_) => page_id >= self.pages().len() || magic_of(self.pages()[page_id as int])
                    != PAGE_MAGIC,
            },
    {
        self.index_heap.read_page(page_id)
    }

    /// The number of pages of the index file.
    pub fn num_pages(&self) -> (n: PageId)
        requires
            self.heap_wf(),
        ensures
            n == self.pages().len(),
    {
        self.index_heap.num_pages()
    }
}

} // verus!
