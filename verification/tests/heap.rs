use rustdb::storage::{HeapFile, Page, PageFlags, StorageError, PAGE_SIZE};

#[test]
fn create_append_read() {
    let mut heap = HeapFile::create();
    assert_eq!(heap.num_pages(), 0);

    let mut p0 = Page::new(0, PageFlags::Heap);
    p0.insert(b"row0").unwrap();
    let id0 = heap.append_page(&p0);
    assert_eq!(id0, 0);
    assert_eq!(heap.num_pages(), 1);

    let mut p1 = Page::new(0, PageFlags::Heap);
    p1.insert(b"row1").unwrap();
    let id1 = heap.append_page(&p1);
    assert_eq!(id1, 1);
    assert_eq!(heap.num_pages(), 2);

    let r0 = heap.read_page(0).unwrap();
    assert_eq!(r0.get_slot(0).unwrap(), b"row0");
    let r1 = heap.read_page(1).unwrap();
    assert_eq!(r1.get_slot(0).unwrap(), b"row1");
}

#[test]
fn open_existing() {
    let image = {
        let mut heap = HeapFile::create();
        let p = Page::new(0, PageFlags::Heap);
        heap.append_page(&p);
        heap.as_bytes().to_vec()
    };
    let heap = HeapFile::open(image).unwrap();
    assert_eq!(heap.num_pages(), 1);
}

#[test]
fn open_refuses_an_image_of_broken_pages() {
    assert!(matches!(HeapFile::open(vec![0u8; 1]), Err(StorageError::BadFileSize)));
    assert!(matches!(HeapFile::open(vec![0u8; PAGE_SIZE - 1]), Err(StorageError::BadFileSize)));
    assert!(matches!(HeapFile::open(vec![0u8; PAGE_SIZE + 1]), Err(StorageError::BadFileSize)));
    assert_eq!(HeapFile::open(vec![]).unwrap().num_pages(), 0);
    assert_eq!(HeapFile::open(vec![0u8; 3 * PAGE_SIZE]).unwrap().num_pages(), 3);
}

#[test]
fn read_page_checks_range_and_magic() {
    let mut heap = HeapFile::open(vec![0u8; PAGE_SIZE]).unwrap();
    assert!(matches!(heap.read_page(0), Err(StorageError::BadMagic)));
    assert!(matches!(heap.read_page(1), Err(StorageError::PageOutOfRange)));
    heap.append_page(&Page::new(0, PageFlags::Heap));
    assert_eq!(heap.read_page(1).unwrap().page_id(), 1);
    assert!(matches!(heap.read_page(2), Err(StorageError::PageOutOfRange)));
}

#[test]
fn appended_pages_carry_their_position_after_reopening() {
    let mut heap = HeapFile::create();
    let mut pages = Vec::new();
    for i in 0..5u8 {
        let mut p = Page::new(77, PageFlags::Heap);
        p.insert(&[i; 12]).unwrap();
        p.insert(&[i + 100; 3]).unwrap();
        assert_eq!(heap.append_page(&p), i as u32);
        // the caller's page is not touched
        assert_eq!(p.page_id(), 77);
        pages.push(p);
    }
    let image = heap.as_bytes().to_vec();
    assert_eq!(image.len(), 5 * PAGE_SIZE);
    let reopened = HeapFile::open(image).unwrap();
    assert_eq!(reopened.num_pages(), 5);
    for i in 0..5u32 {
        let r = reopened.read_page(i).unwrap();
        assert_eq!(r.page_id(), i);
        assert_eq!(r.n_slots(), 2);
        assert_eq!(r.get_slot(0), pages[i as usize].get_slot(0));
        assert_eq!(r.get_slot(1), pages[i as usize].get_slot(1));
        assert_eq!(&r.as_bytes()[8..], &pages[i as usize].as_bytes()[8..]);
    }
}

#[test]
fn write_page_replaces_one_page() {
    let mut heap = HeapFile::create();
    for _ in 0..3 {
        heap.append_page(&Page::new(0, PageFlags::Heap));
    }
    let mut p = Page::new(1, PageFlags::Heap);
    p.insert(b"new").unwrap();
    heap.write_page(1, &p);
    assert_eq!(heap.num_pages(), 3);
    assert_eq!(heap.read_page(0).unwrap().n_slots(), 0);
    assert_eq!(heap.read_page(1).unwrap().get_slot(0).unwrap(), b"new");
    assert_eq!(heap.read_page(2).unwrap().n_slots(), 0);
    // the page is written as it is, page id and all
    let q = Page::new(42, PageFlags::Heap);
    heap.write_page(2, &q);
    assert_eq!(heap.read_page(2).unwrap().page_id(), 42);
}
