//! The heap file: pages one after another, page `i` at offset
//! `i * PAGE_SIZE`. One heap file holds a table, another its index.
//!
//! A `HeapFile` holds the file's image in memory. Whoever owns the file on
//! disk hands the image in with `open` and takes it back with `as_bytes`.

use super::error::StorageError;
use super::layout::{
    lemma_le_len, lemma_splice, lemma_splice_keeps, lemma_splice_reads, splice, u32_le,
};
use super::page::{
    free_end_of, heap_wf, magic_of, n_slots_of, page_id_of, rows_of, slot_len_of, slot_of,
    slot_offset_of, slot_pos, written_at, Page, OFFSET_PAGE_ID, PAGE_MAGIC, PAGE_SIZE,
};
use vstd::prelude::*;

verus! {

/// The position of a page in its heap file, counted from zero.
pub type PageId = u32;

/// The pages that a file image is made of, in file order.
pub open spec fn pages_of(image: Seq<u8>) -> Seq<Seq<u8>> {
    Seq::new(
        (image.len() / PAGE_SIZE as nat) as nat,
        |i: int| image.subrange(i * PAGE_SIZE, (i + 1) * PAGE_SIZE),
    )
}

/// A page as a heap file stores it under `id`: with `id` in the header's
/// page id field, and otherwise unchanged.
pub open spec fn stored_as(page: Seq<u8>, id: PageId) -> Seq<u8> {
    splice(page, OFFSET_PAGE_ID as int, u32_le(id))
}

/// A page as stored under `id` carries `id` in its header and is
/// otherwise the page that was handed in: the same magic, and, where it
/// is a sound slotted page, the same rows in the same slots.
pub proof fn lemma_stored_page(page: Seq<u8>, id: PageId)
    requires
        page.len() == PAGE_SIZE,
    ensures
        stored_as(page, id).len() == PAGE_SIZE,
        page_id_of(stored_as(page, id)) == id,
        magic_of(stored_as(page, id)) == magic_of(page),
        forall|p: int| 8 <= p < PAGE_SIZE ==> #[trigger] stored_as(page, id)[p] == page[p],
        heap_wf(page) ==> heap_wf(stored_as(page, id)) && rows_of(stored_as(page, id)) == rows_of(
            page,
        ) && forall|i: int| #[trigger] slot_of(stored_as(page, id), i) == slot_of(page, i),
{
    let s = stored_as(page, id);
    lemma_le_len();
    lemma_splice(page, OFFSET_PAGE_ID as int, u32_le(id));
    lemma_splice_keeps(page, OFFSET_PAGE_ID as int, u32_le(id));
    lemma_splice_reads(page, OFFSET_PAGE_ID as int);
    if heap_wf(page) {
        assert forall|i: int| 0 <= i < n_slots_of(page) implies slot_offset_of(s, i)
            == slot_offset_of(page, i) && slot_len_of(s, i) == slot_len_of(page, i) && s.subrange(
            slot_offset_of(page, i) as int,
            slot_offset_of(page, i) + slot_len_of(page, i),
        ) == page.subrange(
            slot_offset_of(page, i) as int,
            slot_offset_of(page, i) + slot_len_of(page, i),
        ) by {
            assert(free_end_of(page) <= slot_offset_of(page, i));
            assert(slot_pos(i) + 4 <= PAGE_SIZE);
        }
        assert(rows_of(s) =~= rows_of(page));
        assert(heap_wf(s));
        assert forall|i: int| #[trigger] slot_of(s, i) == slot_of(page, i) by {
            if 0 <= i < n_slots_of(page) {
                assert(slot_offset_of(s, i) == slot_offset_of(page, i));
            }
        }
    }
}

/// The pages of a heap file after `pages` were appended to it one after
/// another.
pub open spec fn appended(before: Seq<Seq<u8>>, pages: Seq<Seq<u8>>) -> Seq<Seq<u8>> {
    before + Seq::new(pages.len(), |i: int| stored_as(pages[i], (before.len() + i) as PageId))
}

/// Appending one page more.
pub proof fn lemma_appended_push(before: Seq<Seq<u8>>, pages: Seq<Seq<u8>>, page: Seq<u8>)
    ensures
        appended(before, pages.push(page)) == appended(before, pages).push(
            stored_as(page, (before.len() + pages.len()) as PageId),
        ),
{
    assert(appended(before, pages.push(page)) =~= appended(before, pages).push(
        stored_as(page, (before.len() + pages.len()) as PageId),
    ));
}

/// Pages appended to an empty heap file are found at their positions:
/// page `i` carries the id `i` and, where a sound slotted page was handed
/// in, its rows.
pub proof fn lemma_appended_pages(pages: Seq<Seq<u8>>)
    requires
        pages.len() <= u32::MAX,
        forall|i: int| 0 <= i < pages.len() ==> (#[trigger] pages[i]).len() == PAGE_SIZE,
    ensures
        appended(Seq::empty(), pages).len() == pages.len(),
        forall|i: int|
            0 <= i < pages.len() ==> page_id_of(#[trigger] appended(Seq::empty(), pages)[i]) == i
                && magic_of(appended(Seq::empty(), pages)[i]) == magic_of(pages[i]),
        forall|i: int|
            0 <= i < pages.len() && heap_wf(pages[i]) ==> rows_of(
                #[trigger] appended(Seq::empty(), pages)[i],
            ) == rows_of(pages[i]),
{
    let all = appended(Seq::empty(), pages);
    assert forall|i: int| 0 <= i < pages.len() implies page_id_of(#[trigger] all[i]) == i
        && magic_of(all[i]) == magic_of(pages[i]) && (heap_wf(pages[i]) ==> rows_of(all[i])
        == rows_of(pages[i])) by {
        lemma_stored_page(pages[i], i as PageId);
    }
}

/// Writing a page over position `id` of an image of whole pages replaces
/// that page, or appends it where `id` is the number of pages.
pub proof fn lemma_pages_written(image: Seq<u8>, id: int, page: Seq<u8>)
    requires
        image.len() % PAGE_SIZE as nat == 0,
        page.len() == PAGE_SIZE,
        0 <= id <= image.len() / PAGE_SIZE as nat,
    ensures
        written_at(image, id * PAGE_SIZE, page).len() % PAGE_SIZE as nat == 0,
        id < pages_of(image).len() ==> pages_of(written_at(image, id * PAGE_SIZE, page))
            == pages_of(image).update(id, page),
        id == pages_of(image).len() ==> pages_of(written_at(image, id * PAGE_SIZE, page))
            == pages_of(image).push(page),
{
    let n = (image.len() / PAGE_SIZE as nat) as int;
    let w = written_at(image, id * PAGE_SIZE, page);
    if id < n {
        assert(w.len() == image.len());
        let expected = pages_of(image).update(id, page);
        assert forall|i: int| 0 <= i < n implies #[trigger] pages_of(w)[i] == expected[i] by {
            if i == id {
                assert(w.subrange(i * PAGE_SIZE, (i + 1) * PAGE_SIZE) =~= page);
            } else {
                assert(w.subrange(i * PAGE_SIZE, (i + 1) * PAGE_SIZE) =~= image.subrange(
                    i * PAGE_SIZE,
                    (i + 1) * PAGE_SIZE,
                ));
            }
        }
        assert(pages_of(w) =~= expected);
    } else {
        assert(w.len() == image.len() + PAGE_SIZE);
        let expected = pages_of(image).push(page);
        assert forall|i: int| 0 <= i < n + 1 implies #[trigger] pages_of(w)[i] == expected[i] by {
            if i == id {
                assert(w.subrange(i * PAGE_SIZE, (i + 1) * PAGE_SIZE) =~= page);
            } else {
                assert(w.subrange(i * PAGE_SIZE, (i + 1) * PAGE_SIZE) =~= image.subrange(
                    i * PAGE_SIZE,
                    (i + 1) * PAGE_SIZE,
                ));
            }
        }
        assert(pages_of(w) =~= expected);
    }
}

/// A heap file: a sequence of pages, each found by its id.
pub struct HeapFile {
    data: Vec<u8>,
    num_pages: PageId,
}

impl View for HeapFile {
    type V = Seq<Seq<u8>>;

    /// The pages of the file, by page id.
    open spec fn view(&self) -> Seq<Seq<u8>> {
        pages_of(self.image())
    }
}

impl HeapFile {
    /// The image is made of whole pages, and the page count is theirs.
    pub closed spec fn wf(&self) -> bool {
        self.data@.len() == self.num_pages * PAGE_SIZE
    }

    /// The file's bytes.
    pub closed spec fn image(&self) -> Seq<u8> {
        self.data@
    }

    /// There is room for `n` more pages: their ids fit the page id type,
    /// and the image's length fits the machine.
    pub open spec fn has_room(&self, n: int) -> bool {
        &&& self@.len() + n <= u32::MAX
        &&& (self@.len() + n) * PAGE_SIZE <= usize::MAX
    }

    /// A heap file without pages.
    pub fn create() -> (h: Self)
        ensures
            h.wf(),
            h.image() == Seq::<u8>::empty(),
            h@ == Seq::<Seq<u8>>::empty(),
    {
        let h = Self { data: Vec::new(), num_pages: 0 };
        assert(h@ =~= Seq::<Seq<u8>>::empty());
        h
    }

    /// The heap file with the given image. An image that is not a whole
    /// number of pages is refused.
    pub fn open(data: Vec<u8>) -> (res: Result<Self, StorageError>)
        requires
            data@.len() / PAGE_SIZE as nat <= u32::MAX,
        ensures
            res is Ok <==> data@.len() % PAGE_SIZE as nat == 0,
            res matches Ok(h) ==> h.wf() && h.image() == data@ && h@ == pages_of(data@),
            res matches Err(e) ==> e == StorageError::BadFileSize,
    {
        let len = data.len();
        if len % PAGE_SIZE != 0 {
            return Err(StorageError::BadFileSize);
        }
        let num_pages = (len / PAGE_SIZE) as PageId;
        Ok(Self { data, num_pages })
    }

    /// Appends a copy of `page` that carries its new id in the header, and
    /// returns that id: the number of pages before the call.
    pub fn append_page(&mut self, page: &Page) -> (id: PageId)
        requires
            old(self).wf(),
            old(self).has_room(1),
        ensures
            final(self).wf(),
            id == old(self)@.len(),
            final(self)@ == old(self)@.push(stored_as(page@, id)),
            page_id_of(final(self)@[id as int]) == id,
            magic_of(final(self)@[id as int]) == magic_of(page@),
    {
        proof {
            page.lemma_len();
            lemma_stored_page(page@, self.num_pages);
            lemma_le_len();
            lemma_splice(page@, OFFSET_PAGE_ID as int, u32_le(self.num_pages));
            lemma_pages_written(
                self.data@,
                self.num_pages as int,
                stored_as(page@, self.num_pages),
            );
        }
        let id = self.num_pages;
        let mut p = page.clone();
        p.set_page_id(id);
        p.write_at(&mut self.data, id);
        self.num_pages = self.num_pages + 1;
        id
    }

    /// The page with the given id. It must exist and start with the page
    /// magic.
    pub fn read_page(&self, page_id: PageId) -> (res: Result<Page, StorageError>)
        requires
            self.wf(),
        ensures
            match res {
                Ok(p) => page_id < self@.len() && p@ == self@[page_id as int] && magic_of(p@)
                    == PAGE_MAGIC,
                Err(e) => if page_id >= self@.len() {
                    e == StorageError::PageOutOfRange
                } else {
                    e == StorageError::BadMagic && magic_of(self@[page_id as int]) != PAGE_MAGIC
                },
            },
    {
        if page_id >= self.num_pages {
            return Err(StorageError::PageOutOfRange);
        }
        let res = Page::read_at(self.data.as_slice(), page_id);
        proof {
            let start = page_id * PAGE_SIZE;
            assert(self.data@.subrange(start, self.data@.len() as int).subrange(
                0,
                PAGE_SIZE as int,
            ) =~= self.data@.subrange(start, start + PAGE_SIZE));
        }
        res
    }

    /// Replaces the page with the given id by `page`, as it is.
    pub fn write_page(&mut self, page_id: PageId, page: &Page)
        requires
            old(self).wf(),
            page_id < old(self)@.len(),
        ensures
            final(self).wf(),
            final(self)@ == old(self)@.update(page_id as int, page@),
    {
        proof {
            page.lemma_len();
            assert(self.data@.len() == self.data.len());
            lemma_pages_written(self.data@, page_id as int, page@);
        }
        page.write_at(&mut self.data, page_id);
    }

    /// The number of pages in the file.
    pub fn num_pages(&self) -> (n: PageId)
        requires
            self.wf(),
        ensures
            n == self@.len(),
    {
        self.num_pages
    }

    /// The file's bytes: its pages one after another.
    pub fn as_bytes(&self) -> (b: &[u8])
        ensures
            b@ == self.image(),
    {
        self.data.as_slice()
    }
}

} // verus!
