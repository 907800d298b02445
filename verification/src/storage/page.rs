//! The 8 KB page: a 32-byte header, a slot directory that grows upward from
//! the header, and a row area that grows downward from the end of the page.

use super::error::StorageError;
use super::layout::{
    copy_into, get_u16, get_u32, lemma_le_len, lemma_splice, lemma_splice_keeps, lemma_splice_reads,
    put_u16, put_u32, splice, u16_at, u16_le, u32_at, u32_le,
};
use super::row::ROW_HEADER_LEN;
use vstd::prelude::*;
use vstd::slice::slice_subrange;

verus! {

pub const PAGE_SIZE: usize = 8192;

/// The first four bytes of every page, as a little-endian integer.
pub const PAGE_MAGIC: u32 = 0x5253_4442;

pub const HEADER_LEN: usize = 32;

pub const OFFSET_MAGIC: usize = 0;

pub const OFFSET_PAGE_ID: usize = 4;

pub const OFFSET_FLAGS: usize = 8;

pub const OFFSET_N_SLOTS: usize = 10;

pub const OFFSET_FREE_END: usize = 12;

/// A directory entry: the row's offset and its length, two bytes each.
pub const SLOT_SIZE: usize = 4;

pub const SLOT_DIR_START: usize = HEADER_LEN;

/// The offset of the tombstone byte inside a row, behind the transaction id.
pub const TOMBSTONE_OFFSET: usize = 8;

/// What a page is used for; stored in the header's flags field.
#[derive(Debug, Clone, Copy, PartialEq, Eq)]
pub enum PageFlags {
    Heap,
    Leaf,
    Internal,
}

impl PageFlags {
    /// The value of the flags field for this kind of page.
    pub open spec fn spec_code(self) -> u16 {
        match self {
            PageFlags::Heap => 0,
            PageFlags::Leaf => 1,
            PageFlags::Internal => 2,
        }
    }

    #[verifier::when_used_as_spec(spec_code)]
    pub fn code(self) -> (c: u16)
        ensures
            c == self.spec_code(),
    {
        match self {
            PageFlags::Heap => 0,
            PageFlags::Leaf => 1,
            PageFlags::Internal => 2,
        }
    }
}

pub open spec fn magic_of(b: Seq<u8>) -> u32 {
    u32_at(b, OFFSET_MAGIC as int)
}

pub open spec fn page_id_of(b: Seq<u8>) -> u32 {
    u32_at(b, OFFSET_PAGE_ID as int)
}

pub open spec fn flags_of(b: Seq<u8>) -> u16 {
    u16_at(b, OFFSET_FLAGS as int)
}

pub open spec fn n_slots_of(b: Seq<u8>) -> u16 {
    u16_at(b, OFFSET_N_SLOTS as int)
}

pub open spec fn free_end_of(b: Seq<u8>) -> u16 {
    u16_at(b, OFFSET_FREE_END as int)
}

/// The offset at which the `i`-th directory entry starts.
pub open spec fn slot_pos(i: int) -> int {
    SLOT_DIR_START + i * SLOT_SIZE
}

pub open spec fn slot_offset_of(b: Seq<u8>, i: int) -> u16 {
    u16_at(b, slot_pos(i))
}

pub open spec fn slot_len_of(b: Seq<u8>, i: int) -> u16 {
    u16_at(b, slot_pos(i) + 2)
}

/// The end of the slot directory.
pub open spec fn slot_dir_end_of(b: Seq<u8>) -> int {
    slot_pos(n_slots_of(b) as int)
}

/// The bytes left between the directory and the row area, less the
/// directory entry that the next row would need; zero where the two have
/// met.
pub open spec fn free_space_of(b: Seq<u8>) -> int {
    if free_end_of(b) - slot_dir_end_of(b) <= SLOT_SIZE {
        0
    } else {
        free_end_of(b) - slot_dir_end_of(b) - SLOT_SIZE
    }
}

/// The row that slot `i` points at, or `None` where there is no such
/// slot, or its directory entry lies outside the page, or the entry leads
/// out of the page.
pub open spec fn slot_of(b: Seq<u8>, i: int) -> Option<Seq<u8>> {
    if 0 <= i < n_slots_of(b) && slot_pos(i + 1) <= PAGE_SIZE && slot_offset_of(b, i)
        + slot_len_of(b, i) <= PAGE_SIZE {
        Some(b.subrange(slot_offset_of(b, i) as int, slot_offset_of(b, i) + slot_len_of(b, i)))
    } else {
        None
    }
}

/// The rows of a page, by slot index.
pub open spec fn rows_of(b: Seq<u8>) -> Seq<Seq<u8>> {
    Seq::new(
        n_slots_of(b) as nat,
        |i: int| b.subrange(slot_offset_of(b, i) as int, slot_offset_of(b, i) + slot_len_of(b, i)),
    )
}

/// The layout of a slotted page is sound: the directory ends at or below
/// the row area, every row lies inside the row area, and no two rows
/// overlap.
pub open spec fn heap_wf(b: Seq<u8>) -> bool {
    &&& b.len() == PAGE_SIZE
    &&& slot_dir_end_of(b) <= free_end_of(b) <= PAGE_SIZE
    &&& forall|i: int|
        0 <= i < n_slots_of(b) ==> free_end_of(b) <= #[trigger] slot_offset_of(b, i)
            && slot_offset_of(b, i) + slot_len_of(b, i) <= PAGE_SIZE
    &&& forall|i: int, j: int|
        0 <= i < j < n_slots_of(b) ==> #[trigger] slot_offset_of(b, i) + slot_len_of(b, i)
            <= #[trigger] slot_offset_of(b, j) || slot_offset_of(b, j) + slot_len_of(b, j)
            <= slot_offset_of(b, i)
}

/// What `Page::insert` makes of a page.
///
/// Where the free space is less than the row and one directory entry,
/// nothing changes and no slot is given. Otherwise the row goes into the
/// next slot: it is copied to just below the row area, the row area's
/// low end moves down by the row's length, a directory entry with the
/// row's offset and length is appended, and every other byte stays.
pub open spec fn insert_step(before: Seq<u8>, row: Seq<u8>, after: Seq<u8>, res: Option<usize>) -> bool {
    if free_space_of(before) < row.len() + SLOT_SIZE {
        res is None && after == before
    } else {
        let i = n_slots_of(before) as int;
        &&& res == Some(i as usize)
        &&& heap_wf(after)
        &&& n_slots_of(after) == i + 1
        &&& free_end_of(after) == free_end_of(before) - row.len()
        &&& slot_offset_of(after, i) == free_end_of(after)
        &&& slot_len_of(after, i) == row.len()
        &&& rows_of(after) == rows_of(before).push(row)
        &&& slot_of(after, i) == Some(row)
        &&& free_space_of(after) == free_space_of(before) - row.len() - SLOT_SIZE
        &&& magic_of(after) == magic_of(before)
        &&& page_id_of(after) == page_id_of(before)
        &&& flags_of(after) == flags_of(before)
        &&& forall|p: int|
            0 <= p < PAGE_SIZE && !(OFFSET_N_SLOTS <= p < OFFSET_FREE_END + 2) && !(slot_pos(i) <= p
                < slot_pos(i + 1)) && !(free_end_of(after) <= p < free_end_of(before))
                ==> #[trigger] after[p] == before[p]
    }
}

/// In a sound page every slot below the slot count reads as its row.
pub proof fn lemma_slot_is_row(b: Seq<u8>, i: int)
    requires
        heap_wf(b),
        0 <= i < n_slots_of(b),
    ensures
        slot_of(b, i) == Some(rows_of(b)[i]),
{
    assert(free_end_of(b) <= slot_offset_of(b, i));
}

/// Rows that were inserted one after another all read back, each from
/// the slot that its insertion gave: no insertion disturbs a row that
/// was there before.
pub proof fn lemma_rows_read_back(pages: Seq<Seq<u8>>, rows: Seq<Seq<u8>>, slots: Seq<usize>)
    requires
        heap_wf(pages[0]),
        pages.len() == rows.len() + 1,
        slots.len() == rows.len(),
        forall|i: int|
            0 <= i < rows.len() ==> insert_step(
                #[trigger] pages[i],
                rows[i],
                pages[i + 1],
                Some(slots[i]),
            ),
    ensures
        heap_wf(pages[rows.len() as int]),
        rows_of(pages[rows.len() as int]) == rows_of(pages[0]) + rows,
        forall|i: int|
            0 <= i < rows.len() ==> (#[trigger] slots[i]) == n_slots_of(pages[0]) + i && slot_of(
                pages[rows.len() as int],
                slots[i] as int,
            ) == Some(rows[i]),
    decreases rows.len(),
{
    let n = rows.len() as int;
    if n == 0 {
        assert(rows_of(pages[0]) + rows =~= rows_of(pages[0]));
    } else {
        let front = rows.drop_last();
        assert forall|i: int| 0 <= i < front.len() implies insert_step(
            #[trigger] pages.drop_last()[i],
            front[i],
            pages.drop_last()[i + 1],
            Some(slots.drop_last()[i]),
        ) by {
            assert(insert_step(pages[i], rows[i], pages[i + 1], Some(slots[i])));
        }
        lemma_rows_read_back(pages.drop_last(), front, slots.drop_last());
        assert(pages.drop_last()[n - 1] == pages[n - 1]);
        assert(insert_step(pages[n - 1], rows[n - 1], pages[n], Some(slots[n - 1])));
        let last = pages[n];
        assert(rows_of(last) =~= rows_of(pages[0]) + rows) by {
            assert(rows_of(pages[n - 1]) == rows_of(pages[0]) + front);
            assert(front.push(rows[n - 1]) =~= rows);
        }
        assert(n_slots_of(pages[0]) as int == rows_of(pages[0]).len());
        assert(n_slots_of(pages[n - 1]) as int == rows_of(pages[n - 1]).len());
        assert(n_slots_of(last) as int == rows_of(last).len());
        assert forall|i: int| 0 <= i < rows.len() implies (#[trigger] slots[i]) == n_slots_of(
            pages[0],
        ) + i && slot_of(last, slots[i] as int) == Some(rows[i]) by {
            if i < n - 1 {
                assert(slots.drop_last()[i] == slots[i]);
                assert(front[i] == rows[i]);
            }
            lemma_slot_is_row(last, n_slots_of(pages[0]) + i);
        }
    }
}

/// Of payloads of one size inserted one after another, the first ones
/// succeed, each taking its size and one directory entry from the free
/// space, until the free space is too small for one more; from then on
/// every insertion fails and the page stays as it is.
pub proof fn lemma_page_fills(
    pages: Seq<Seq<u8>>,
    rows: Seq<Seq<u8>>,
    results: Seq<Option<usize>>,
    size: nat,
)
    requires
        pages.len() == rows.len() + 1,
        results.len() == rows.len(),
        forall|i: int| 0 <= i < rows.len() ==> (#[trigger] rows[i]).len() == size,
        forall|i: int|
            0 <= i < rows.len() ==> insert_step(
                #[trigger] pages[i],
                rows[i],
                pages[i + 1],
                results[i],
            ),
    ensures
        forall|i: int|
            0 <= i < rows.len() ==> ((#[trigger] results[i]) is Some <==> free_space_of(pages[i])
                >= size + SLOT_SIZE),
        forall|i: int, j: int|
            0 <= i <= j < rows.len() && (#[trigger] results[i]) is None ==> (
            #[trigger] results[j]) is None && pages[j + 1] == pages[i],
        forall|i: int, j: int|
            0 <= i <= j < rows.len() && (#[trigger] results[j]) is Some ==> (
            #[trigger] results[i]) is Some,
    decreases rows.len(),
{
    let n = rows.len() as int;
    assert forall|i: int| 0 <= i < rows.len() implies ((#[trigger] results[i]) is Some
        <==> free_space_of(pages[i]) >= size + SLOT_SIZE) by {
        assert(insert_step(pages[i], rows[i], pages[i + 1], results[i]));
    }
    if n > 0 {
        assert forall|i: int| 0 <= i < n - 1 implies insert_step(
            #[trigger] pages.drop_last()[i],
            rows.drop_last()[i],
            pages.drop_last()[i + 1],
            results.drop_last()[i],
        ) by {
            assert(insert_step(pages[i], rows[i], pages[i + 1], results[i]));
        }
        assert forall|i: int| 0 <= i < n - 1 implies (#[trigger] rows.drop_last()[i]).len()
            == size by {
            assert(rows[i].len() == size);
        }
        lemma_page_fills(pages.drop_last(), rows.drop_last(), results.drop_last(), size);
        assert forall|i: int, j: int|
            0 <= i <= j < rows.len() && (#[trigger] results[i]) is None implies (
        #[trigger] results[j]) is None && pages[j + 1] == pages[i] by {
            assert(insert_step(pages[j], rows[j], pages[j + 1], results[j]));
            if i < j {
                assert(results.drop_last()[i] == results[i]);
                assert(results.drop_last()[j - 1] == results[j - 1]);
                assert(pages.drop_last()[j] == pages[j]);
                if j < n - 1 {
                    assert(results.drop_last()[j] == results[j]);
                    assert(pages.drop_last()[j + 1] == pages[j + 1]);
                } else {
                    assert(pages[j] == pages[i]);
                }
            }
        }
    }
}

/// The slots below `n` that `slot_of` gives a row for, each with its row,
/// in slot order.
pub open spec fn listed_slots(b: Seq<u8>, n: int) -> Seq<(usize, Seq<u8>)>
    decreases n,
{
    if n <= 0 {
        Seq::empty()
    } else {
        match slot_of(b, n - 1) {
            Some(row) => listed_slots(b, n - 1).push(((n - 1) as usize, row)),
            None => listed_slots(b, n - 1),
        }
    }
}

/// What reading a page from the start of `src` gives: the first
/// `PAGE_SIZE` bytes, where there are that many and they start with the
/// page magic.
pub open spec fn page_read(src: Seq<u8>) -> Result<Seq<u8>, StorageError> {
    if src.len() < PAGE_SIZE {
        Err(StorageError::Io)
    } else if magic_of(src.subrange(0, PAGE_SIZE as int)) != PAGE_MAGIC {
        Err(StorageError::BadMagic)
    } else {
        Ok(src.subrange(0, PAGE_SIZE as int))
    }
}

/// What reading the page with the given id from a file image gives.
pub open spec fn page_read_at(image: Seq<u8>, page_id: u32) -> Result<Seq<u8>, StorageError> {
    if image.len() < (page_id + 1) * PAGE_SIZE {
        Err(StorageError::Io)
    } else {
        page_read(image.subrange(page_id * PAGE_SIZE, image.len() as int))
    }
}

/// A file image after `page` was written over it from offset `start` on:
/// as long as the longer of the two, the page where it was written, the
/// old bytes beside it, and zeroes where the image had nothing.
pub open spec fn written_at(image: Seq<u8>, start: int, page: Seq<u8>) -> Seq<u8> {
    Seq::new(
        if image.len() < start + page.len() {
            (start + page.len()) as nat
        } else {
            image.len()
        },
        |i: int|
            if start <= i < start + page.len() {
                page[i - start]
            } else if i < image.len() {
                image[i]
            } else {
                0u8
            },
    )
}

/// A page of `PAGE_SIZE` bytes.
pub struct Page {
    data: [u8; PAGE_SIZE],
}

impl View for Page {
    type V = Seq<u8>;

    closed spec fn view(&self) -> Seq<u8> {
        self.data@
    }
}

impl Clone for Page {
    fn clone(&self) -> (p: Self)
        ensures
            p@ == self@,
    {
        Page { data: self.data }
    }
}

impl Page {
    /// Every page has `PAGE_SIZE` bytes.
    pub proof fn lemma_len(&self)
        ensures
            self@.len() == PAGE_SIZE,
    {
    }

    /// A page with the given id and kind, no slot, an empty row area, and
    /// zeroes everywhere behind the header fields.
    pub fn new(page_id: u32, flags: PageFlags) -> (p: Self)
        ensures
            magic_of(p@) == PAGE_MAGIC,
            page_id_of(p@) == page_id,
            flags_of(p@) == flags.spec_code(),
            n_slots_of(p@) == 0,
            free_end_of(p@) == PAGE_SIZE,
            forall|i: int| 14 <= i < PAGE_SIZE ==> p@[i] == 0,
            heap_wf(p@),
            rows_of(p@) == Seq::<Seq<u8>>::empty(),
            free_space_of(p@) == PAGE_SIZE - HEADER_LEN - SLOT_SIZE,
    {
        let mut p = Self { data: [0u8; PAGE_SIZE] };
        let ghost b0 = p@;
        p.set_magic(PAGE_MAGIC);
        let ghost b1 = p@;
        p.set_page_id(page_id);
        let ghost b2 = p@;
        p.set_flags(flags.code());
        let ghost b3 = p@;
        p.set_n_slots(0);
        let ghost b4 = p@;
        p.set_free_end(PAGE_SIZE as u16);
        proof {
            lemma_le_len();
            lemma_splice_keeps(b0, 0, u32_le(PAGE_MAGIC));
            lemma_splice_reads(b0, 0);
            lemma_splice_keeps(b1, 4, u32_le(page_id));
            lemma_splice_reads(b1, 4);
            lemma_splice_keeps(b2, 8, u16_le(flags.spec_code()));
            lemma_splice_reads(b2, 8);
            lemma_splice_keeps(b3, 10, u16_le(0));
            lemma_splice_reads(b3, 10);
            lemma_splice_keeps(b4, 12, u16_le(PAGE_SIZE as u16));
            lemma_splice_reads(b4, 12);
            assert(rows_of(p@) =~= Seq::<Seq<u8>>::empty());
        }
        p
    }

    fn set_magic(&mut self, v: u32)
        ensures
            final(self)@ == splice(old(self)@, OFFSET_MAGIC as int, u32_le(v)),
    {
        put_u32(&mut self.data, OFFSET_MAGIC, v);
    }

    fn magic(&self) -> (v: u32)
        ensures
            v == magic_of(self@),
    {
        get_u32(&self.data, OFFSET_MAGIC)
    }

    pub fn page_id(&self) -> (v: u32)
        ensures
            v == page_id_of(self@),
    {
        get_u32(&self.data, OFFSET_PAGE_ID)
    }

    /// Sets the page id and nothing else.
    pub fn set_page_id(&mut self, v: u32)
        ensures
            final(self)@ == splice(old(self)@, OFFSET_PAGE_ID as int, u32_le(v)),
            page_id_of(final(self)@) == v,
    {
        proof {
            lemma_splice_reads(self@, OFFSET_PAGE_ID as int);
        }
        put_u32(&mut self.data, OFFSET_PAGE_ID, v);
    }

    fn set_flags(&mut self, v: u16)
        ensures
            final(self)@ == splice(old(self)@, OFFSET_FLAGS as int, u16_le(v)),
    {
        put_u16(&mut self.data, OFFSET_FLAGS, v);
    }

    fn raw_n_slots(&self) -> (v: u16)
        ensures
            v == n_slots_of(self@),
    {
        get_u16(&self.data, OFFSET_N_SLOTS)
    }

    fn set_n_slots(&mut self, v: u16)
        ensures
            final(self)@ == splice(old(self)@, OFFSET_N_SLOTS as int, u16_le(v)),
    {
        put_u16(&mut self.data, OFFSET_N_SLOTS, v);
    }

    fn free_end(&self) -> (v: u16)
        ensures
            v == free_end_of(self@),
    {
        get_u16(&self.data, OFFSET_FREE_END)
    }

    fn set_free_end(&mut self, v: u16)
        ensures
            final(self)@ == splice(old(self)@, OFFSET_FREE_END as int, u16_le(v)),
    {
        put_u16(&mut self.data, OFFSET_FREE_END, v);
    }

    fn slot_dir_end(&self) -> (end: usize)
        ensures
            end == slot_dir_end_of(self@),
    {
        SLOT_DIR_START + self.raw_n_slots() as usize * SLOT_SIZE
    }

    /// The room for one more row: what lies between the directory and the
    /// row area, less one directory entry.
    pub fn free_space(&self) -> (space: usize)
        ensures
            space == free_space_of(self@),
    {
        let end = self.slot_dir_end();
        let start = self.free_end() as usize;
        if start <= end || start - end <= SLOT_SIZE {
            0
        } else {
            start - end - SLOT_SIZE
        }
    }

    /// Whether the page's layout is that of a sound slotted page, which
    /// is what `insert` and `delete_slot` ask for. A page made by `new`,
    /// `insert` and `delete_slot` always is; one that was read from a
    /// file may not be.
    pub fn validate(&self) -> (ok: bool)
        ensures
            ok == heap_wf(self@),
    {
        let n = self.raw_n_slots() as usize;
        let free_end = self.free_end() as usize;
        if self.slot_dir_end() > free_end || free_end > PAGE_SIZE {
            return false;
        }
        let mut i: usize = 0;
        while i < n
            invariant
                n == n_slots_of(self@),
                free_end == free_end_of(self@),
                slot_dir_end_of(self@) <= free_end <= PAGE_SIZE,
                i <= n,
                forall|a: int|
                    0 <= a < i ==> free_end_of(self@) <= #[trigger] slot_offset_of(self@, a)
                        && slot_offset_of(self@, a) + slot_len_of(self@, a) <= PAGE_SIZE,
                forall|a: int, b: int|
                    0 <= a < b < i ==> #[trigger] slot_offset_of(self@, a) + slot_len_of(self@, a)
                        <= #[trigger] slot_offset_of(self@, b) || slot_offset_of(self@, b)
                        + slot_len_of(self@, b) <= slot_offset_of(self@, a),
            decreases n - i,
        {
            let pos = SLOT_DIR_START + i * SLOT_SIZE;
            let offset = get_u16(&self.data, pos) as usize;
            let len = get_u16(&self.data, pos + 2) as usize;
            assert(offset == slot_offset_of(self@, i as int));
            assert(len == slot_len_of(self@, i as int));
            if offset < free_end || offset + len > PAGE_SIZE {
                return false;
            }
            let mut j: usize = 0;
            while j < i
                invariant
                    n == n_slots_of(self@),
                    slot_dir_end_of(self@) <= PAGE_SIZE,
                    j <= i < n,
                    offset == slot_offset_of(self@, i as int),
                    len == slot_len_of(self@, i as int),
                    forall|a: int|
                        0 <= a < j ==> #[trigger] slot_offset_of(self@, a) + slot_len_of(self@, a)
                            <= slot_offset_of(self@, i as int) || slot_offset_of(self@, i as int)
                            + slot_len_of(self@, i as int) <= slot_offset_of(self@, a),
                decreases i - j,
            {
                let other_pos = SLOT_DIR_START + j * SLOT_SIZE;
                let other = get_u16(&self.data, other_pos) as usize;
                let other_len = get_u16(&self.data, other_pos + 2) as usize;
                assert(other == slot_offset_of(self@, j as int));
                assert(other_len == slot_len_of(self@, j as int));
                if !(other + other_len <= offset || offset + len <= other) {
                    return false;
                }
                j = j + 1;
            }
            i = i + 1;
        }
        true
    }

    /// Stores `row` in the next slot.
    ///
    /// Returns `None`, and changes nothing, where the free space is less
    /// than the row and one directory entry. Otherwise the row is copied
    /// to just below the row area, a directory entry for it is appended,
    /// and the index of that entry is returned.
    pub fn insert(&mut self, row: &[u8]) -> (res: Option<usize>)
        requires
            heap_wf(old(self)@),
        ensures
            insert_step(old(self)@, row@, final(self)@, res),
    {
        let space = self.free_space();
        if row.len() > space || space - row.len() < SLOT_SIZE {
            return None;
        }
        let n = self.raw_n_slots();
        let new_free = self.free_end() as usize - row.len();
        let slot_offset = new_free as u16;
        let slot_len = row.len() as u16;
        let entry_pos = SLOT_DIR_START + n as usize * SLOT_SIZE;
        let ghost b0 = self@;
        copy_into(&mut self.data, new_free, row);
        let ghost b1 = self@;
        self.set_free_end(new_free as u16);
        let ghost b2 = self@;
        put_u16(&mut self.data, entry_pos, slot_offset);
        let ghost b3 = self@;
        put_u16(&mut self.data, entry_pos + 2, slot_len);
        let ghost b4 = self@;
        self.set_n_slots(n + 1);
        proof {
            let b5 = self@;
            lemma_le_len();
            lemma_splice(b0, new_free as int, row@);
            lemma_splice_keeps(b0, new_free as int, row@);
            lemma_splice(b1, OFFSET_FREE_END as int, u16_le(slot_offset));
            lemma_splice_keeps(b1, OFFSET_FREE_END as int, u16_le(slot_offset));
            lemma_splice_reads(b1, OFFSET_FREE_END as int);
            lemma_splice(b2, entry_pos as int, u16_le(slot_offset));
            lemma_splice_keeps(b2, entry_pos as int, u16_le(slot_offset));
            lemma_splice_reads(b2, entry_pos as int);
            lemma_splice(b3, entry_pos + 2, u16_le(slot_len));
            lemma_splice_keeps(b3, entry_pos + 2, u16_le(slot_len));
            lemma_splice_reads(b3, entry_pos + 2);
            lemma_splice(b4, OFFSET_N_SLOTS as int, u16_le((n + 1) as u16));
            lemma_splice_keeps(b4, OFFSET_N_SLOTS as int, u16_le((n + 1) as u16));
            lemma_splice_reads(b4, OFFSET_N_SLOTS as int);
            assert(n_slots_of(b5) == n + 1);
            assert(free_end_of(b5) == new_free);
            assert(slot_offset_of(b5, n as int) == new_free);
            assert(slot_len_of(b5, n as int) == row@.len());
            assert forall|j: int| 0 <= j < n implies slot_offset_of(b5, j) == slot_offset_of(b0, j)
                && slot_len_of(b5, j) == slot_len_of(b0, j) && b5.subrange(
                slot_offset_of(b0, j) as int,
                slot_offset_of(b0, j) + slot_len_of(b0, j),
            ) == b0.subrange(
                slot_offset_of(b0, j) as int,
                slot_offset_of(b0, j) + slot_len_of(b0, j),
            ) by {
                let p = slot_offset_of(b0, j) as int;
                let q = slot_offset_of(b0, j) + slot_len_of(b0, j);
                assert(u16_at(b1, slot_pos(j)) == u16_at(b0, slot_pos(j)));
                assert(u16_at(b2, slot_pos(j)) == u16_at(b1, slot_pos(j)));
                assert(u16_at(b3, slot_pos(j)) == u16_at(b2, slot_pos(j)));
                assert(u16_at(b4, slot_pos(j)) == u16_at(b3, slot_pos(j)));
                assert(u16_at(b1, slot_pos(j) + 2) == u16_at(b0, slot_pos(j) + 2));
                assert(u16_at(b2, slot_pos(j) + 2) == u16_at(b1, slot_pos(j) + 2));
                assert(u16_at(b3, slot_pos(j) + 2) == u16_at(b2, slot_pos(j) + 2));
                assert(u16_at(b4, slot_pos(j) + 2) == u16_at(b3, slot_pos(j) + 2));
                assert(b1.subrange(p, q) == b0.subrange(p, q));
                assert(b2.subrange(p, q) == b1.subrange(p, q));
                assert(b3.subrange(p, q) == b2.subrange(p, q));
                assert(b4.subrange(p, q) == b3.subrange(p, q));
                assert(b5.subrange(p, q) == b4.subrange(p, q));
            }
            assert(b5.subrange(new_free as int, new_free + row@.len()) == row@) by {
                let p = new_free as int;
                let q = new_free + row@.len();
                assert(b1.subrange(p, q) == row@);
                assert(b2.subrange(p, q) == b1.subrange(p, q));
                assert(b3.subrange(p, q) == b2.subrange(p, q));
                assert(b4.subrange(p, q) == b3.subrange(p, q));
                assert(b5.subrange(p, q) == b4.subrange(p, q));
            }
            assert(rows_of(b5) =~= rows_of(b0).push(row@));
            assert(heap_wf(b5));
            assert forall|p: int|
                0 <= p < PAGE_SIZE && !(OFFSET_N_SLOTS <= p < OFFSET_FREE_END + 2) && !(slot_pos(
                    n as int,
                ) <= p < slot_pos(n + 1)) && !(new_free <= p < free_end_of(b0)) implies b5[p]
                == b0[p] by {
                assert(b1[p] == b0[p]);
                assert(b2[p] == b1[p]);
                assert(b3[p] == b2[p]);
                assert(b4[p] == b3[p]);
            }
        }
        Some(n as usize)
    }

    /// The row at `slot_id`, or `None` where the page has no such slot or
    /// the slot's entry lies outside the page or leads out of it: a page
    /// that is not sound gives no row, whatever it holds.
    pub fn get_slot(&self, slot_id: usize) -> (res: Option<&[u8]>)
        ensures
            match res {
                Some(s) => slot_of(self@, slot_id as int) == Some(s@),
                None => slot_of(self@, slot_id as int) is None,
            },
    {
        if slot_id >= self.raw_n_slots() as usize {
            return None;
        }
        let pos = SLOT_DIR_START + slot_id * SLOT_SIZE;
        if pos + SLOT_SIZE > PAGE_SIZE {
            return None;
        }
        let offset = get_u16(&self.data, pos) as usize;
        let len = get_u16(&self.data, pos + 2) as usize;
        if offset + len > PAGE_SIZE {
            return None;
        }
        Some(slice_subrange(&self.data, offset, offset + len))
    }

    /// Marks the row at `slot_id` as deleted by setting its tombstone
    /// byte; the row keeps its place and its length.
    pub fn delete_slot(&mut self, slot_id: usize) -> (res: Result<(), StorageError>)
        requires
            heap_wf(old(self)@),
        ensures
            res == Err::<(), StorageError>(StorageError::InvalidSlot) <==> slot_id >= n_slots_of(
                old(self)@,
            ),
            res == Err::<(), StorageError>(StorageError::RowTooShort) <==> slot_id < n_slots_of(
                old(self)@,
            ) && slot_len_of(old(self)@, slot_id as int) < ROW_HEADER_LEN,
            res is Ok <==> slot_id < n_slots_of(old(self)@) && slot_len_of(
                old(self)@,
                slot_id as int,
            ) >= ROW_HEADER_LEN,
            res is Err ==> final(self)@ == old(self)@,
            res is Ok ==> {
                &&& final(self)@ == old(self)@.update(
                    slot_offset_of(old(self)@, slot_id as int) + TOMBSTONE_OFFSET,
                    1u8,
                )
                &&& heap_wf(final(self)@)
                &&& n_slots_of(final(self)@) == n_slots_of(old(self)@)
                &&& free_end_of(final(self)@) == free_end_of(old(self)@)
                &&& rows_of(final(self)@) == rows_of(old(self)@).update(
                    slot_id as int,
                    rows_of(old(self)@)[slot_id as int].update(TOMBSTONE_OFFSET as int, 1u8),
                )
                &&& slot_of(final(self)@, slot_id as int) == Some(
                    rows_of(old(self)@)[slot_id as int].update(TOMBSTONE_OFFSET as int, 1u8),
                )
                &&& forall|j: int|
                    j != slot_id ==> #[trigger] slot_of(final(self)@, j) == slot_of(old(self)@, j)
            },
    {
        if slot_id >= self.raw_n_slots() as usize {
            return Err(StorageError::InvalidSlot);
        }
        let pos = SLOT_DIR_START + slot_id * SLOT_SIZE;
        let offset = get_u16(&self.data, pos) as usize;
        let len = get_u16(&self.data, pos + 2) as usize;
        if len < ROW_HEADER_LEN {
            return Err(StorageError::RowTooShort);
        }
        assert(offset == slot_offset_of(self@, slot_id as int));
        assert(len == slot_len_of(self@, slot_id as int));
        let tombstone_offset = offset + TOMBSTONE_OFFSET;
        let ghost b0 = self@;
        self.data[tombstone_offset] = 1;
        proof {
            let b1 = self@;
            assert(b1 =~= splice(b0, tombstone_offset as int, seq![1u8]));
            lemma_splice(b0, tombstone_offset as int, seq![1u8]);
            lemma_splice_keeps(b0, tombstone_offset as int, seq![1u8]);
            assert(n_slots_of(b1) == n_slots_of(b0));
            assert(free_end_of(b1) == free_end_of(b0));
            assert forall|j: int| 0 <= j < n_slots_of(b0) implies slot_offset_of(b1, j)
                == slot_offset_of(b0, j) && slot_len_of(b1, j) == slot_len_of(b0, j) by {
                assert(u16_at(b1, slot_pos(j)) == u16_at(b0, slot_pos(j)));
                assert(u16_at(b1, slot_pos(j) + 2) == u16_at(b0, slot_pos(j) + 2));
            }
            assert(heap_wf(b1));
            let expected = rows_of(b0).update(
                slot_id as int,
                rows_of(b0)[slot_id as int].update(TOMBSTONE_OFFSET as int, 1u8),
            );
            assert forall|j: int| 0 <= j < n_slots_of(b0) implies #[trigger] rows_of(b1)[j]
                == expected[j] by {
                let p = slot_offset_of(b0, j) as int;
                let q = slot_offset_of(b0, j) + slot_len_of(b0, j);
                if j == slot_id {
                    assert(b1.subrange(p, q) =~= b0.subrange(p, q).update(
                        TOMBSTONE_OFFSET as int,
                        1u8,
                    ));
                } else {
                    let i = slot_id as int;
                    assert(slot_offset_of(b0, i) + slot_len_of(b0, i) <= slot_offset_of(b0, j)
                        || slot_offset_of(b0, j) + slot_len_of(b0, j) <= slot_offset_of(b0, i));
                    assert(b1.subrange(p, q) == b0.subrange(p, q));
                }
            }
            assert(rows_of(b1) =~= expected);
            lemma_slot_is_row(b1, slot_id as int);
            assert forall|j: int| j != slot_id implies #[trigger] slot_of(b1, j) == slot_of(b0, j) by {
                if 0 <= j < n_slots_of(b0) {
                    lemma_slot_is_row(b0, j);
                    lemma_slot_is_row(b1, j);
                    assert(rows_of(b1)[j] == expected[j]);
                }
            }
        }
        Ok(())
    }

    /// The slots with their rows, in slot order, without those whose entry
    /// leads out of the page. A deleted row is listed like any other: its
    /// tombstone byte tells.
    pub fn iter_slots(&self) -> (v: Vec<(usize, &[u8])>)
        ensures
            v@.len() == listed_slots(self@, n_slots_of(self@) as int).len(),
            forall|k: int|
                0 <= k < v@.len() ==> (#[trigger] v@[k]).0 == listed_slots(
                    self@,
                    n_slots_of(self@) as int,
                )[k].0 && v@[k].1@ == listed_slots(self@, n_slots_of(self@) as int)[k].1,
    {
        let n = self.raw_n_slots() as usize;
        let mut v: Vec<(usize, &[u8])> = Vec::new();
        let mut i: usize = 0;
        while i < n
            invariant
                n == n_slots_of(self@),
                i <= n,
                v@.len() == listed_slots(self@, i as int).len(),
                forall|k: int|
                    0 <= k < v@.len() ==> (#[trigger] v@[k]).0 == listed_slots(self@, i as int)[k].0
                        && v@[k].1@ == listed_slots(self@, i as int)[k].1,
            decreases n - i,
        {
            match self.get_slot(i) {
                Some(r) => {
                    v.push((i, r));
                },
                None => {},
            }
            i = i + 1;
        }
        v
    }

    /// Reads a page from the start of `src`.
    pub fn read(src: &[u8]) -> (res: Result<Self, StorageError>)
        ensures
            match res {
                Ok(p) => page_read(src@) == Ok::<Seq<u8>, StorageError>(p@),
                Err(e) => page_read(src@) == Err::<Seq<u8>, StorageError>(e),
            },
    {
        if src.len() < PAGE_SIZE {
            return Err(StorageError::Io);
        }
        let mut data = [0u8; PAGE_SIZE];
        copy_into(&mut data, 0, slice_subrange(src, 0, PAGE_SIZE));
        let p = Self { data };
        assert(p@ =~= src@.subrange(0, PAGE_SIZE as int));
        if p.magic() != PAGE_MAGIC {
            return Err(StorageError::BadMagic);
        }
        Ok(p)
    }

    /// Reads the page that starts at offset `page_id * PAGE_SIZE` of `r`.
    pub fn read_at(r: &[u8], page_id: u32) -> (res: Result<Self, StorageError>)
        ensures
            match res {
                Ok(p) => page_read_at(r@, page_id) == Ok::<Seq<u8>, StorageError>(p@),
                Err(e) => page_read_at(r@, page_id) == Err::<Seq<u8>, StorageError>(e),
            },
    {
        assert(page_id * PAGE_SIZE <= u32::MAX * PAGE_SIZE) by (nonlinear_arith);
        let start: u64 = page_id as u64 * PAGE_SIZE as u64;
        let len: usize = r.len();
        if start + PAGE_SIZE as u64 > len as u64 {
            return Err(StorageError::Io);
        }
        Self::read(slice_subrange(r, start as usize, len))
    }

    /// Appends the page's bytes to `w`.
    pub fn write(&self, w: &mut Vec<u8>)
        ensures
            final(w)@ == old(w)@ + self@,
    {
        w.extend_from_slice(&self.data);
    }

    /// Writes the page's bytes over `w` from offset `page_id * PAGE_SIZE`
    /// on. Where `w` ends before the page does, it grows, with zeroes in
    /// any gap before the page.
    pub fn write_at(&self, w: &mut Vec<u8>, page_id: u32)
        requires
            (page_id + 1) * PAGE_SIZE <= usize::MAX,
        ensures
            final(w)@ == written_at(old(w)@, page_id * PAGE_SIZE, self@),
    {
        let start: usize = page_id as usize * PAGE_SIZE;
        while w.len() < start + PAGE_SIZE
            invariant
                start + PAGE_SIZE <= usize::MAX,
                old(w)@.len() <= w@.len(),
                w@.len() <= old(w)@.len() || w@.len() <= start + PAGE_SIZE,
                forall|j: int| 0 <= j < old(w)@.len() ==> w@[j] == old(w)@[j],
                forall|j: int| old(w)@.len() <= j < w@.len() ==> w@[j] == 0,
            decreases start + PAGE_SIZE - w@.len(),
        {
            w.push(0);
        }
        let ghost padded = w@;
        let mut i: usize = 0;
        while i < PAGE_SIZE
            invariant
                start + PAGE_SIZE <= usize::MAX,
                start + PAGE_SIZE <= w@.len(),
                w@.len() == padded.len(),
                i <= PAGE_SIZE,
                self@.len() == PAGE_SIZE,
                forall|j: int| 0 <= j < w@.len() && !(start <= j < start + i) ==> w@[j] == padded[j],
                forall|j: int| start <= j < start + i ==> w@[j] == self@[j - start],
            decreases PAGE_SIZE - i,
        {
            w[start + i] = self.data[i];
            i = i + 1;
        }
        proof {
            let expected = written_at(old(w)@, page_id * PAGE_SIZE, self@);
            assert(w@.len() == expected.len());
            assert forall|j: int| 0 <= j < w@.len() implies w@[j] == expected[j] by {
                if !(start <= j < start + PAGE_SIZE) {
                    assert(w@[j] == padded[j]);
                }
            }
            assert(w@ =~= expected);
        }
    }

    pub fn n_slots(&self) -> (n: usize)
        ensures
            n == n_slots_of(self@),
    {
        self.raw_n_slots() as usize
    }

    pub fn as_bytes(&self) -> (b: &[u8; PAGE_SIZE])
        ensures
            b@ == self@,
    {
        &self.data
    }

    /// The page's bytes, for a caller that lays out the body itself.
    pub fn as_bytes_mut(&mut self) -> (b: &mut [u8; PAGE_SIZE])
        ensures
            b@ == old(self)@,
            final(self)@ == final(b)@,
    {
        &mut self.data
    }
}

} // verus!
