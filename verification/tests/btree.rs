use rustdb::storage::node::{internal_max_keys, leaf_max_entries};
use rustdb::storage::{BTree, Page, RowRef, StorageError, PAGE_SIZE};

fn flags_of(page: &Page) -> u16 {
    u16::from_le_bytes([page.as_bytes()[8], page.as_bytes()[9]])
}

fn page_of(bt: &BTree, id: u32) -> Page {
    let start = id as usize * PAGE_SIZE;
    Page::read(&bt.as_bytes()[start..start + PAGE_SIZE]).unwrap()
}

#[test]
fn btree_insert_get() {
    let mut bt = BTree::create();
    bt.insert(10, RowRef::new(1, 0)).unwrap();
    bt.insert(20, RowRef::new(2, 1)).unwrap();
    bt.insert(5, RowRef::new(0, 2)).unwrap();
    assert_eq!(bt.get(10).unwrap(), Some(RowRef::new(1, 0)));
    assert_eq!(bt.get(5).unwrap(), Some(RowRef::new(0, 2)));
    assert_eq!(bt.get(20).unwrap(), Some(RowRef::new(2, 1)));
    assert_eq!(bt.get(7).unwrap(), None);
}

#[test]
fn btree_range_scan() {
    let mut bt = BTree::create();
    for i in 0..10 {
        bt.insert(i * 10, RowRef::new(i as u32, 0)).unwrap();
    }
    let r = bt.range_scan(25, 55).unwrap();
    assert_eq!(r.len(), 3);
    assert_eq!(r[0].0, 30);
    assert_eq!(r[1].0, 40);
    assert_eq!(r[2].0, 50);
}

#[test]
fn btree_reopen_persists() {
    let image = {
        let mut bt = BTree::create();
        bt.insert(42, RowRef::new(7, 3)).unwrap();
        bt.as_bytes().to_vec()
    };
    let bt = BTree::open(image).unwrap();
    assert_eq!(bt.get(42).unwrap(), Some(RowRef::new(7, 3)));
}

#[test]
fn capacities_follow_from_the_page_size() {
    assert_eq!(leaf_max_entries(), (8192 - 32 - 4 - 2) / 14);
    assert_eq!(leaf_max_entries(), 582);
    assert_eq!(internal_max_keys(), (8192 - 32 - 2 - 4) / 12);
    assert_eq!(internal_max_keys(), 679);
}

#[test]
fn a_new_tree_is_one_empty_leaf() {
    let bt = BTree::create();
    assert_eq!(bt.num_pages(), 1);
    let image = bt.as_bytes();
    assert_eq!(image.len(), PAGE_SIZE);
    assert_eq!(&image[0..4], &[0x42, 0x44, 0x53, 0x52]);
    assert_eq!(&image[4..8], &[0, 0, 0, 0]);
    assert_eq!(&image[8..10], &[1, 0]);
    // next_leaf and num_entries
    assert_eq!(&image[32..38], &[0, 0, 0, 0, 0, 0]);
    assert_eq!(bt.get(0).unwrap(), None);
    assert_eq!(bt.range_scan(i64::MIN, i64::MAX).unwrap(), vec![]);
}

#[test]
fn a_leaf_holds_its_entries_in_key_order() {
    let mut bt = BTree::create();
    bt.insert(10, RowRef::new(1, 0)).unwrap();
    bt.insert(20, RowRef::new(2, 1)).unwrap();
    bt.insert(-5, RowRef::new(0x0a0b0c0d, 0x0102)).unwrap();
    let image = bt.as_bytes();
    assert_eq!(&image[36..38], &[3, 0]);
    let mut expected = Vec::new();
    expected.extend_from_slice(&(-5i64).to_le_bytes());
    expected.extend_from_slice(&[0x0d, 0x0c, 0x0b, 0x0a, 0x02, 0x01]);
    expected.extend_from_slice(&10i64.to_le_bytes());
    expected.extend_from_slice(&[1, 0, 0, 0, 0, 0]);
    expected.extend_from_slice(&20i64.to_le_bytes());
    expected.extend_from_slice(&[2, 0, 0, 0, 1, 0]);
    assert_eq!(&image[38..38 + 3 * 14], &expected[..]);
}

#[test]
fn duplicate_keys_are_refused_and_change_nothing() {
    let mut bt = BTree::create();
    bt.insert(1, RowRef::new(1, 1)).unwrap();
    bt.insert(2, RowRef::new(2, 2)).unwrap();
    let before = bt.as_bytes().to_vec();
    assert_eq!(bt.insert(2, RowRef::new(9, 9)), Err(StorageError::DuplicateKey));
    assert_eq!(bt.as_bytes(), &before[..]);
    assert_eq!(bt.get(2).unwrap(), Some(RowRef::new(2, 2)));
}

#[test]
fn duplicate_keys_are_refused_in_a_tree_of_several_levels() {
    let mut bt = BTree::create();
    for i in 0..2000i64 {
        bt.insert(i * 2, RowRef::new(i as u32, 0)).unwrap();
    }
    assert!(bt.num_pages() > 1);
    let before = bt.as_bytes().to_vec();
    for k in [0i64, 2, 580, 582, 1164, 1166, 3998] {
        assert_eq!(bt.insert(k, RowRef::new(0, 0)), Err(StorageError::DuplicateKey));
    }
    assert_eq!(bt.as_bytes(), &before[..]);
}

#[test]
fn an_index_file_without_pages_has_no_tree() {
    let mut bt = BTree::open(Vec::new()).unwrap();
    assert_eq!(bt.num_pages(), 0);
    assert_eq!(bt.insert(1, RowRef::new(0, 0)), Err(StorageError::EmptyTree));
    assert_eq!(bt.get(1), Err(StorageError::PageOutOfRange));
    assert_eq!(bt.range_scan(0, 10), Err(StorageError::PageOutOfRange));
    assert_eq!(bt.num_pages(), 0);
}

#[test]
fn open_refuses_an_index_image_of_broken_pages() {
    assert!(matches!(BTree::open(vec![0u8; 100]), Err(StorageError::BadFileSize)));
}

#[test]
fn btree_split_under_load() {
    let mut bt = BTree::create();
    let n = 500;
    for i in 0..n {
        bt.insert(i as i64, RowRef::new((i % 100) as u32, (i % 10) as u16)).unwrap();
    }
    assert_eq!(bt.num_pages(), 1);
    for i in 0..n {
        let r = bt.get(i as i64).unwrap().unwrap();
        assert_eq!(r.page_id, (i % 100) as u32);
        assert_eq!(r.slot, (i % 10) as u16);
    }
}

#[test]
fn the_leaf_splits_with_the_first_key_beyond_its_capacity() {
    let mut bt = BTree::create();
    let cap = leaf_max_entries() as i64;
    for i in 0..cap {
        bt.insert(i, RowRef::new(i as u32, 1)).unwrap();
    }
    assert_eq!(bt.num_pages(), 1);
    bt.insert(cap, RowRef::new(cap as u32, 1)).unwrap();
    // the right half, the copy of the left half, and the new root
    assert_eq!(bt.num_pages(), 3);
    let root = page_of(&bt, 0);
    assert_eq!(flags_of(&root), 2);
    let b = root.as_bytes();
    // one key; child 0 is the copy of the old root, child 1 the new leaf
    assert_eq!(&b[32..34], &[1, 0]);
    assert_eq!(&b[34..38], &[2, 0, 0, 0]);
    // 583 entries are cut at 291: the split key is the first key of the right half
    assert_eq!(&b[38..46], &291i64.to_le_bytes());
    assert_eq!(&b[46..50], &[1, 0, 0, 0]);
    let left = page_of(&bt, 2);
    let right = page_of(&bt, 1);
    assert_eq!(flags_of(&left), 1);
    assert_eq!(flags_of(&right), 1);
    assert_eq!(root.page_id(), 0);
    assert_eq!(left.page_id(), 2);
    assert_eq!(right.page_id(), 1);
    assert_eq!(&left.as_bytes()[36..38], &291u16.to_le_bytes());
    assert_eq!(&right.as_bytes()[36..38], &292u16.to_le_bytes());
    // the chain of leaves: left -> right -> end
    assert_eq!(&left.as_bytes()[32..36], &[1, 0, 0, 0]);
    assert_eq!(&right.as_bytes()[32..36], &[0, 0, 0, 0]);
    assert_eq!(&right.as_bytes()[38..46], &291i64.to_le_bytes());
    for i in 0..=cap {
        assert_eq!(bt.get(i).unwrap(), Some(RowRef::new(i as u32, 1)));
    }
    assert_eq!(bt.get(cap + 1).unwrap(), None);
    assert_eq!(bt.get(-1).unwrap(), None);
}

#[test]
fn a_full_leaf_splits_around_a_key_that_belongs_in_its_lower_half() {
    let mut bt = BTree::create();
    let cap = leaf_max_entries() as i64;
    for i in 0..cap {
        bt.insert(i * 10, RowRef::new(i as u32, 0)).unwrap();
    }
    bt.insert(5, RowRef::new(7, 7)).unwrap();
    assert_eq!(bt.num_pages(), 3);
    let root = page_of(&bt, 0);
    // merged keys are 0, 5, 10, 20, ...: the one at place 291 is 2900
    assert_eq!(&root.as_bytes()[38..46], &2900i64.to_le_bytes());
    assert_eq!(&page_of(&bt, 2).as_bytes()[36..38], &291u16.to_le_bytes());
    assert_eq!(&page_of(&bt, 1).as_bytes()[36..38], &292u16.to_le_bytes());
    assert_eq!(bt.get(5).unwrap(), Some(RowRef::new(7, 7)));
    let all = bt.range_scan(i64::MIN, i64::MAX).unwrap();
    assert_eq!(all.len(), cap as usize + 1);
    assert_eq!(all[0].0, 0);
    assert_eq!(all[1], (5, RowRef::new(7, 7)));
    assert_eq!(all[2].0, 10);
}

#[test]
fn keys_inserted_in_any_order_are_found_and_scanned_in_order() {
    let mut bt = BTree::create();
    let n: i64 = 5000;
    // 1237 is coprime to 5000, so this visits every residue once
    let mut order = Vec::new();
    for i in 0..n {
        order.push((i * 1237) % n);
    }
    for k in order.iter() {
        bt.insert(*k * 3 - 7000, RowRef::new((*k % 977) as u32, (*k % 13) as u16)).unwrap();
    }
    assert!(bt.num_pages() > 1);
    for k in 0..n {
        assert_eq!(
            bt.get(k * 3 - 7000).unwrap(),
            Some(RowRef::new((k % 977) as u32, (k % 13) as u16))
        );
        assert_eq!(bt.get(k * 3 - 7000 + 1).unwrap(), None);
    }
    let all = bt.range_scan(i64::MIN, i64::MAX).unwrap();
    assert_eq!(all.len(), n as usize);
    for (i, e) in all.iter().enumerate() {
        let k = i as i64;
        assert_eq!(*e, (k * 3 - 7000, RowRef::new((k % 977) as u32, (k % 13) as u16)));
    }
    // a range that spans several leaves, with both ends between keys
    let some = bt.range_scan(-6999, 2001).unwrap();
    let expected: Vec<i64> = (0..n).map(|k| k * 3 - 7000).filter(|k| -6999 <= *k && *k < 2001).collect();
    assert_eq!(some.iter().map(|e| e.0).collect::<Vec<i64>>(), expected);
    assert_eq!(some.len(), 3000);
}

#[test]
fn range_scan_takes_the_start_and_leaves_the_end() {
    let mut bt = BTree::create();
    for i in 0..10 {
        bt.insert(i * 10, RowRef::new(i as u32, 0)).unwrap();
    }
    let keys = |v: Vec<(i64, RowRef)>| v.iter().map(|e| e.0).collect::<Vec<i64>>();
    assert_eq!(keys(bt.range_scan(30, 50).unwrap()), vec![30, 40]);
    assert_eq!(keys(bt.range_scan(31, 51).unwrap()), vec![40, 50]);
    assert_eq!(keys(bt.range_scan(50, 50).unwrap()), Vec::<i64>::new());
    assert_eq!(keys(bt.range_scan(60, 20).unwrap()), Vec::<i64>::new());
    assert_eq!(keys(bt.range_scan(85, 1000).unwrap()), vec![90]);
    assert_eq!(keys(bt.range_scan(-1000, 5).unwrap()), vec![0]);
    assert_eq!(
        bt.range_scan(25, 55).unwrap(),
        vec![(30, RowRef::new(3, 0)), (40, RowRef::new(4, 0)), (50, RowRef::new(5, 0))]
    );
}

#[test]
fn the_extreme_keys_are_keys_like_any_other() {
    let mut bt = BTree::create();
    bt.insert(i64::MAX, RowRef::new(1, 1)).unwrap();
    bt.insert(i64::MIN, RowRef::new(2, 2)).unwrap();
    bt.insert(0, RowRef::new(3, 3)).unwrap();
    assert_eq!(bt.get(i64::MAX).unwrap(), Some(RowRef::new(1, 1)));
    assert_eq!(bt.get(i64::MIN).unwrap(), Some(RowRef::new(2, 2)));
    // the end of a range is left out, so the greatest key cannot be scanned
    assert_eq!(
        bt.range_scan(i64::MIN, i64::MAX).unwrap(),
        vec![(i64::MIN, RowRef::new(2, 2)), (0, RowRef::new(3, 3))]
    );
}

#[test]
fn a_reopened_tree_answers_as_before() {
    let mut bt = BTree::create();
    for i in 0..3000i64 {
        bt.insert((i * 7919) % 3001, RowRef::new(i as u32, (i % 5) as u16)).unwrap();
    }
    let image = bt.as_bytes().to_vec();
    let pages = bt.num_pages();
    let mut reopened = BTree::open(image).unwrap();
    assert_eq!(reopened.num_pages(), pages);
    for k in -5..3010i64 {
        assert_eq!(reopened.get(k).unwrap(), bt.get(k).unwrap());
    }
    assert_eq!(
        reopened.range_scan(100, 2000).unwrap(),
        bt.range_scan(100, 2000).unwrap()
    );
    // and it goes on taking entries
    reopened.insert(5000, RowRef::new(1, 1)).unwrap();
    assert_eq!(reopened.get(5000).unwrap(), Some(RowRef::new(1, 1)));
}

#[test]
fn validate_accepts_what_the_index_builds() {
    assert!(BTree::open(Vec::new()).unwrap().validate());
    let mut bt = BTree::create();
    assert!(bt.validate());
    for i in 0..3000i64 {
        bt.insert((i * 7919) % 3001, RowRef::new(i as u32, 0)).unwrap();
        if i % 500 == 0 {
            assert!(bt.validate());
        }
    }
    assert!(bt.num_pages() > 3);
    assert!(bt.validate());
    let reopened = BTree::open(bt.as_bytes().to_vec()).unwrap();
    assert!(reopened.validate());
}

#[test]
fn validate_refuses_pages_that_are_no_tree() {
    // a page without the magic
    assert!(!BTree::open(vec![0u8; PAGE_SIZE]).unwrap().validate());
    // a slotted page at the root
    let mut image = Vec::new();
    Page::new(0, rustdb::storage::PageFlags::Heap).write(&mut image);
    assert!(!BTree::open(image).unwrap().validate());

    let mut bt = BTree::create();
    for i in 0..2000i64 {
        bt.insert(i, RowRef::new(i as u32, 0)).unwrap();
    }
    let good = bt.as_bytes().to_vec();
    assert!(BTree::open(good.clone()).unwrap().validate());
    let check = |change: &dyn Fn(&mut Vec<u8>)| {
        let mut image = good.clone();
        change(&mut image);
        BTree::open(image).unwrap().validate()
    };
    // page 1 is a leaf: two of its keys out of order
    assert!(!check(&|image| image[PAGE_SIZE + 38] = 0xff));
    // a leaf with more entries than fit
    assert!(!check(&|image| {
        image[PAGE_SIZE + 36] = 0xff;
        image[PAGE_SIZE + 37] = 0xff;
    }));
    // a leaf that names the wrong successor
    assert!(!check(&|image| image[PAGE_SIZE + 32] ^= 0x40));
    // the root names itself as its first child
    assert!(!check(&|image| image[34..38].copy_from_slice(&[0, 0, 0, 0])));
    // the root names one child twice
    assert!(!check(&|image| {
        let second = [image[46], image[47], image[48], image[49]];
        image[34..38].copy_from_slice(&second)
    }));
    // the root names a page that is not there
    assert!(!check(&|image| image[34..38].copy_from_slice(&[0xff, 0xff, 0xff, 0x7f])));
    // the root's first key is beyond what its first child holds
    assert!(!check(&|image| image[38..46].copy_from_slice(&5i64.to_le_bytes())));
    // the root without keys
    assert!(!check(&|image| image[32..34].copy_from_slice(&[0, 0])));
    // a page that carries another page's id
    assert!(!check(&|image| image[PAGE_SIZE + 4] = 9));
    assert!(!check(&|image| image[4] = 1));
    // a page of another kind in the tree
    assert!(!check(&|image| image[PAGE_SIZE + 8] = 0));
    // a page that lost its magic
    assert!(!check(&|image| image[PAGE_SIZE] = 0));
    // a page that no one names does no harm
    assert!(check(&|image| image.extend_from_slice(&[0u8; PAGE_SIZE])));
}

#[test]
fn a_full_root_page_splits_too() {
    let mut bt = BTree::create();
    // with ascending keys the first leaf splits at the 583rd key and a
    // leaf more every 291 keys from then on; the 680th of these splits
    // gives the root a key more than it has room for
    let n: i64 = 583 + 679 * 291;
    for i in 0..n - 1 {
        bt.insert(i, RowRef::new((i % 1000) as u32, (i % 7) as u16)).unwrap();
    }
    assert_eq!(&page_of(&bt, 0).as_bytes()[32..34], &679u16.to_le_bytes());
    let pages = bt.num_pages();
    for i in n - 1..n {
        bt.insert(i, RowRef::new((i % 1000) as u32, (i % 7) as u16)).unwrap();
    }
    // a new leaf, a new internal page, and the copy of the old root
    assert_eq!(bt.num_pages(), pages + 3);
    let root = page_of(&bt, 0);
    assert_eq!(flags_of(&root), 2);
    // the new root has one key, between two internal pages
    assert_eq!(&root.as_bytes()[32..34], &[1, 0]);
    let left = u32::from_le_bytes([root.as_bytes()[34], root.as_bytes()[35], root.as_bytes()[36], root.as_bytes()[37]]);
    let right = u32::from_le_bytes([root.as_bytes()[46], root.as_bytes()[47], root.as_bytes()[48], root.as_bytes()[49]]);
    assert_eq!(flags_of(&page_of(&bt, left)), 2);
    assert_eq!(flags_of(&page_of(&bt, right)), 2);
    // 680 keys are cut at 340: the key there moves up, 340 stay, 339 go
    assert_eq!(&page_of(&bt, left).as_bytes()[32..34], &340u16.to_le_bytes());
    assert_eq!(&page_of(&bt, right).as_bytes()[32..34], &339u16.to_le_bytes());
    assert_eq!(&root.as_bytes()[38..46], &(341i64 * 291).to_le_bytes());
    assert!(bt.validate());
    for i in (0..n).step_by(97) {
        assert_eq!(bt.get(i).unwrap(), Some(RowRef::new((i % 1000) as u32, (i % 7) as u16)));
    }
    assert_eq!(bt.get(n).unwrap(), None);
    let some = bt.range_scan(340 * 291 - 5, 341 * 291 + 5).unwrap();
    assert_eq!(some.len(), 291 + 10);
    assert_eq!(some[0].0, 340 * 291 - 5);
}
