use rustdb::storage::page::{Page, PageFlags, HEADER_LEN, PAGE_MAGIC, PAGE_SIZE, SLOT_SIZE};
use rustdb::storage::StorageError;

#[test]
fn page_header_roundtrip() {
    let p = Page::new(7, PageFlags::Heap);
    assert_eq!(p.page_id(), 7);
    assert_eq!(p.n_slots(), 0);
    assert_eq!(p.free_space(), PAGE_SIZE - HEADER_LEN - SLOT_SIZE);
}

#[test]
fn insert_get_one() {
    let mut p = Page::new(0, PageFlags::Heap);
    let row = b"hello world";
    let idx = p.insert(row).unwrap();
    assert_eq!(idx, 0);
    assert_eq!(p.get_slot(0).unwrap(), row);
}

#[test]
fn insert_get_delete() {
    let mut p = Page::new(0, PageFlags::Heap);
    let mut row = vec![0u8; 20];
    row[0..8].copy_from_slice(&1u64.to_le_bytes());
    row[8] = 0;
    let idx = p.insert(&row).unwrap();
    p.delete_slot(idx).unwrap();
    let s = p.get_slot(idx).unwrap();
    assert_eq!(s[8], 1);
}

#[test]
fn insert_fill_then_no_space() {
    let mut p = Page::new(0, PageFlags::Heap);
    let mut n = 0;
    while p.insert(&[0u8; 64]).is_some() {
        n += 1;
    }
    assert!(n > 0);
    assert!(p.insert(&[0u8; 64]).is_none());
}

#[test]
fn read_write_roundtrip() {
    let mut p = Page::new(1, PageFlags::Heap);
    p.insert(b"row1").unwrap();
    p.insert(b"row2").unwrap();
    let mut buf = vec![0u8; PAGE_SIZE * 2];
    p.write_at(&mut buf, 0);
    let q = Page::read_at(&buf, 0).unwrap();
    assert_eq!(q.page_id(), 1);
    assert_eq!(q.get_slot(0).unwrap(), b"row1");
    assert_eq!(q.get_slot(1).unwrap(), b"row2");
}

#[test]
fn new_page_has_the_documented_header() {
    let p = Page::new(0x0403_0201, PageFlags::Internal);
    let b = p.as_bytes();
    assert_eq!(&b[0..4], &PAGE_MAGIC.to_le_bytes());
    assert_eq!(&b[0..4], &[0x42, 0x44, 0x53, 0x52]);
    assert_eq!(&b[4..8], &[1, 2, 3, 4]);
    assert_eq!(&b[8..10], &[2, 0]);
    assert_eq!(&b[10..12], &[0, 0]);
    assert_eq!(&b[12..14], &[0x00, 0x20]);
    assert!(b[14..].iter().all(|x| *x == 0));
    assert_eq!(Page::new(0, PageFlags::Heap).as_bytes()[8..10], [0, 0]);
    assert_eq!(Page::new(0, PageFlags::Leaf).as_bytes()[8..10], [1, 0]);
}

#[test]
fn flags_have_the_documented_codes() {
    assert_eq!(PageFlags::Heap.code(), 0);
    assert_eq!(PageFlags::Leaf.code(), 1);
    assert_eq!(PageFlags::Internal.code(), 2);
}

#[test]
fn insert_lays_rows_out_from_the_end_of_the_page() {
    let mut p = Page::new(0, PageFlags::Heap);
    assert_eq!(p.insert(b"abc"), Some(0));
    assert_eq!(p.insert(b"defgh"), Some(1));
    let b = p.as_bytes();
    assert_eq!(&b[PAGE_SIZE - 3..], b"abc");
    assert_eq!(&b[PAGE_SIZE - 8..PAGE_SIZE - 3], b"defgh");
    // directory: (offset, length) pairs from the end of the header on
    assert_eq!(&b[32..36], &[0xfd, 0x1f, 3, 0]);
    assert_eq!(&b[36..40], &[0xf8, 0x1f, 5, 0]);
    assert_eq!(&b[10..12], &[2, 0]);
    assert_eq!(&b[12..14], &[0xf8, 0x1f]);
    assert_eq!(p.n_slots(), 2);
    assert_eq!(p.free_space(), PAGE_SIZE - HEADER_LEN - SLOT_SIZE - 3 - 5 - 2 * SLOT_SIZE);
}

#[test]
fn slots_read_back_what_was_inserted() {
    let mut p = Page::new(3, PageFlags::Heap);
    let rows: Vec<Vec<u8>> = (0..50u8).map(|i| vec![i; i as usize]).collect();
    for (i, r) in rows.iter().enumerate() {
        assert_eq!(p.insert(r), Some(i));
    }
    for (i, r) in rows.iter().enumerate() {
        assert_eq!(p.get_slot(i).unwrap(), &r[..]);
    }
    assert_eq!(p.get_slot(50), None);
    assert_eq!(p.page_id(), 3);
}

#[test]
fn insert_succeeds_until_the_free_space_is_too_small() {
    let mut p = Page::new(0, PageFlags::Heap);
    let payload = [9u8; 100];
    let mut n = 0;
    loop {
        let space = p.free_space();
        let before = p.as_bytes().to_vec();
        match p.insert(&payload) {
            Some(i) => {
                assert!(space >= payload.len() + SLOT_SIZE);
                assert_eq!(i, n);
                assert_eq!(p.free_space(), space - payload.len() - SLOT_SIZE);
                n += 1;
            }
            None => {
                assert!(space < payload.len() + SLOT_SIZE);
                assert_eq!(p.as_bytes().to_vec(), before);
                break;
            }
        }
    }
    // 8156 bytes are free at first and every row takes 104 of them
    assert_eq!(n, 78);
    assert_eq!(p.free_space(), 8156 - 78 * 104);
    for _ in 0..3 {
        assert_eq!(p.insert(&payload), None);
    }
    assert_eq!(p.n_slots(), 78);
}

#[test]
fn a_row_of_exactly_the_free_space_less_one_entry_fits() {
    let mut p = Page::new(0, PageFlags::Heap);
    let space = p.free_space();
    assert_eq!(space, 8156);
    assert_eq!(p.insert(&vec![1u8; space - SLOT_SIZE + 1]), None);
    assert_eq!(p.insert(&vec![1u8; space - SLOT_SIZE]), Some(0));
    assert_eq!(p.free_space(), 0);
    assert_eq!(p.insert(&[]), None);
}

#[test]
fn an_empty_row_takes_a_slot() {
    let mut p = Page::new(0, PageFlags::Heap);
    assert_eq!(p.insert(&[]), Some(0));
    assert_eq!(p.get_slot(0).unwrap(), &[] as &[u8]);
    assert_eq!(p.free_space(), 8156 - SLOT_SIZE);
}

#[test]
fn delete_sets_the_tombstone_and_keeps_the_rest() {
    let mut p = Page::new(0, PageFlags::Heap);
    let row: Vec<u8> = (100..120u8).collect();
    let other: Vec<u8> = (0..30u8).collect();
    let a = p.insert(&other).unwrap();
    let idx = p.insert(&row).unwrap();
    let c = p.insert(&other).unwrap();
    let space = p.free_space();
    p.delete_slot(idx).unwrap();
    let mut expected = row.clone();
    expected[8] = 1;
    assert_eq!(p.get_slot(idx).unwrap(), &expected[..]);
    assert_eq!(p.get_slot(a).unwrap(), &other[..]);
    assert_eq!(p.get_slot(c).unwrap(), &other[..]);
    assert_eq!(p.n_slots(), 3);
    assert_eq!(p.free_space(), space);
}

#[test]
fn delete_refuses_a_slot_that_is_not_there() {
    let mut p = Page::new(0, PageFlags::Heap);
    assert_eq!(p.delete_slot(0), Err(StorageError::InvalidSlot));
    p.insert(&[0u8; 9]).unwrap();
    assert_eq!(p.delete_slot(1), Err(StorageError::InvalidSlot));
    assert_eq!(p.delete_slot(0), Ok(()));
}

#[test]
fn delete_refuses_a_row_without_room_for_a_tombstone() {
    let mut p = Page::new(0, PageFlags::Heap);
    p.insert(&[7u8; 8]).unwrap();
    let before = p.as_bytes().to_vec();
    assert_eq!(p.delete_slot(0), Err(StorageError::RowTooShort));
    assert_eq!(p.as_bytes().to_vec(), before);
}

#[test]
fn iter_slots_lists_every_slot_in_order() {
    let mut p = Page::new(0, PageFlags::Heap);
    assert!(p.iter_slots().is_empty());
    p.insert(&[1u8; 10]).unwrap();
    p.insert(&[2u8; 11]).unwrap();
    p.insert(&[3u8; 12]).unwrap();
    p.delete_slot(1).unwrap();
    let listed = p.iter_slots();
    assert_eq!(listed.len(), 3);
    assert_eq!(listed[0], (0, &[1u8; 10][..]));
    assert_eq!(listed[1].0, 1);
    assert_eq!(listed[1].1[8], 1);
    assert_eq!(listed[2], (2, &[3u8; 12][..]));
}

#[test]
fn get_slot_guards_against_an_entry_that_leaves_the_page() {
    let mut p = Page::new(0, PageFlags::Heap);
    p.insert(b"abcd").unwrap();
    // make the entry's length reach past the end of the page
    p.as_bytes_mut()[34] = 5;
    assert_eq!(p.get_slot(0), None);
    assert!(p.iter_slots().is_empty());
    p.as_bytes_mut()[34] = 4;
    assert_eq!(p.get_slot(0).unwrap(), b"abcd");
}

#[test]
fn free_space_is_zero_where_directory_and_rows_have_met() {
    let mut p = Page::new(0, PageFlags::Heap);
    // free_end = 40, no slots: 40 - 32 - 4 = 4
    p.as_bytes_mut()[12] = 40;
    p.as_bytes_mut()[13] = 0;
    assert_eq!(p.free_space(), 4);
    p.as_bytes_mut()[12] = 36;
    assert_eq!(p.free_space(), 0);
    p.as_bytes_mut()[12] = 34;
    assert_eq!(p.free_space(), 0);
    p.as_bytes_mut()[12] = 32;
    assert_eq!(p.free_space(), 0);
    p.as_bytes_mut()[12] = 10;
    assert_eq!(p.free_space(), 0);
}

#[test]
fn set_page_id_changes_the_id_only() {
    let mut p = Page::new(1, PageFlags::Heap);
    p.insert(b"row").unwrap();
    let before = p.as_bytes().to_vec();
    p.set_page_id(0xdead_beef);
    assert_eq!(p.page_id(), 0xdead_beef);
    let after = p.as_bytes().to_vec();
    assert_eq!(&after[..4], &before[..4]);
    assert_eq!(&after[8..], &before[8..]);
}

#[test]
fn clone_copies_the_bytes() {
    let mut p = Page::new(1, PageFlags::Heap);
    p.insert(b"row").unwrap();
    let q = p.clone();
    p.insert(b"more").unwrap();
    assert_eq!(q.n_slots(), 1);
    assert_eq!(q.get_slot(0).unwrap(), b"row");
}

#[test]
fn read_checks_length_and_magic() {
    let p = Page::new(5, PageFlags::Heap);
    let mut image = p.as_bytes().to_vec();
    assert_eq!(Page::read(&image).unwrap().page_id(), 5);
    assert!(matches!(Page::read(&image[..PAGE_SIZE - 1]), Err(StorageError::Io)));
    image[0] ^= 1;
    assert!(matches!(Page::read(&image), Err(StorageError::BadMagic)));
    assert!(matches!(Page::read(&[0u8; PAGE_SIZE]), Err(StorageError::BadMagic)));
}

#[test]
fn read_takes_the_first_page_of_a_longer_source() {
    let mut image = Vec::new();
    Page::new(1, PageFlags::Heap).write(&mut image);
    Page::new(2, PageFlags::Heap).write(&mut image);
    assert_eq!(image.len(), 2 * PAGE_SIZE);
    assert_eq!(Page::read(&image).unwrap().page_id(), 1);
    assert_eq!(Page::read_at(&image, 1).unwrap().page_id(), 2);
    assert!(matches!(Page::read_at(&image, 2), Err(StorageError::Io)));
}

#[test]
fn write_at_grows_the_image_with_zeroes() {
    let p = Page::new(9, PageFlags::Leaf);
    let mut image = vec![7u8; 10];
    p.write_at(&mut image, 2);
    assert_eq!(image.len(), 3 * PAGE_SIZE);
    assert_eq!(&image[..10], &[7u8; 10]);
    assert!(image[10..2 * PAGE_SIZE].iter().all(|b| *b == 0));
    assert_eq!(&image[2 * PAGE_SIZE..], &p.as_bytes()[..]);
}

#[test]
fn write_at_keeps_what_lies_beside_the_page() {
    let p = Page::new(9, PageFlags::Leaf);
    let mut image = vec![7u8; 3 * PAGE_SIZE + 5];
    p.write_at(&mut image, 1);
    assert_eq!(image.len(), 3 * PAGE_SIZE + 5);
    assert!(image[..PAGE_SIZE].iter().all(|b| *b == 7));
    assert_eq!(&image[PAGE_SIZE..2 * PAGE_SIZE], &p.as_bytes()[..]);
    assert!(image[2 * PAGE_SIZE..].iter().all(|b| *b == 7));
}

#[test]
fn validate_tells_a_sound_page_from_a_broken_one() {
    let mut p = Page::new(0, PageFlags::Heap);
    assert!(p.validate());
    p.insert(&[1u8; 10]).unwrap();
    p.insert(&[]).unwrap();
    p.insert(&[2u8; 20]).unwrap();
    p.delete_slot(0).unwrap();
    assert!(p.validate());
    let good = p.clone();
    // the row area starts behind the end of the page
    p.as_bytes_mut()[13] = 0x21;
    assert!(!p.validate());
    // the directory reaches into the row area
    let mut p = good.clone();
    p.as_bytes_mut()[11] = 0x10;
    assert!(!p.validate());
    // a row that starts below the row area
    let mut p = good.clone();
    p.as_bytes_mut()[32] = 0;
    p.as_bytes_mut()[33] = 0;
    assert!(!p.validate());
    // a row that leaves the page
    let mut p = good.clone();
    p.as_bytes_mut()[34] = 11;
    assert!(!p.validate());
    // two rows that overlap: the third takes the place of the first
    let mut p = good.clone();
    let first = [p.as_bytes()[32], p.as_bytes()[33]];
    p.as_bytes_mut()[40..42].copy_from_slice(&first);
    p.as_bytes_mut()[42] = 5;
    assert!(!p.validate());
    // rows beside each other are fine
    assert!(good.validate());
}

#[test]
fn get_slot_gives_nothing_for_an_entry_outside_the_page() {
    let mut p = Page::new(0, PageFlags::Heap);
    p.insert(b"abcd").unwrap();
    // a slot count that reaches far beyond the page
    p.as_bytes_mut()[10] = 0xff;
    p.as_bytes_mut()[11] = 0xff;
    assert_eq!(p.n_slots(), 65535);
    assert_eq!(p.get_slot(0).unwrap(), b"abcd");
    // the entries behind the first are zeroes: empty rows at offset 0
    assert_eq!(p.get_slot(1), Some(&[] as &[u8]));
    assert_eq!(p.get_slot(2038), Some(&[] as &[u8]));
    // entry 2039 is the last inside the page; it lies where the row is and
    // leads out of the page
    assert_eq!(p.get_slot(2039), None);
    assert_eq!(p.get_slot(2040), None);
    assert_eq!(p.get_slot(65534), None);
    assert_eq!(p.get_slot(65535), None);
    assert_eq!(p.get_slot(usize::MAX), None);
    let listed = p.iter_slots();
    assert_eq!(listed[0], (0, &b"abcd"[..]));
    assert!(listed.iter().all(|(i, _)| *i < 2040));
    assert!(!p.validate());
}

#[test]
fn delete_succeeds_on_every_row_with_a_header() {
    let mut p = Page::new(0, PageFlags::Heap);
    let row: Vec<u8> = (0..20u8).collect();
    assert_eq!(p.insert(&row), Some(0));
    assert_eq!(p.insert(&[0u8; 9]), Some(1));
    assert_eq!(p.delete_slot(0), Ok(()));
    assert_eq!(p.delete_slot(1), Ok(()));
    // deleting once more sets the same byte again
    assert_eq!(p.delete_slot(0), Ok(()));
    let mut expected = row.clone();
    expected[8] = 1;
    assert_eq!(p.get_slot(0).unwrap(), &expected[..]);
    assert_eq!(p.get_slot(1).unwrap(), &[0u8, 0, 0, 0, 0, 0, 0, 0, 1][..]);
}
