use titan_db::blink::{split_page, BLinkTree};
use titan_db::error::TitanError;
use titan_db::keys::{compare_keys, KeyOrder};
use titan_db::page::{Page, PageType, MAX_KEY_LEN, MAX_VALUE_LEN};
use titan_db::pager::Pager;

#[test]
fn compare_keys_orders_lexicographically() {
    assert!(matches!(compare_keys(b"a", b"b"), KeyOrder::Less));
    assert!(matches!(compare_keys(b"b", b"a"), KeyOrder::Greater));
    assert!(matches!(compare_keys(b"abc", b"abc"), KeyOrder::Equal));
    assert!(matches!(compare_keys(b"ab", b"abc"), KeyOrder::Less));
    assert!(matches!(compare_keys(b"abc", b"ab"), KeyOrder::Greater));
    assert!(matches!(compare_keys(b"", b"a"), KeyOrder::Less));
    assert!(matches!(compare_keys(b"", b""), KeyOrder::Equal));
}

#[test]
fn insert_then_search_finds_pairs() {
    let mut pager = Pager::open(Vec::new());
    let mut tree = BLinkTree::new(&mut pager).unwrap();
    assert_eq!(tree.root_id(), 0);
    tree.insert(&mut pager, b"a".to_vec(), b"1".to_vec()).unwrap();
    tree.insert(&mut pager, b"b".to_vec(), b"2".to_vec()).unwrap();
    assert_eq!(tree.search(&mut pager, b"a").unwrap(), Some(b"1".to_vec()));
    assert_eq!(tree.search(&mut pager, b"b").unwrap(), Some(b"2".to_vec()));
    assert_eq!(tree.search(&mut pager, b"c").unwrap(), None);
}

#[test]
fn duplicate_key_overwrites_value() {
    let mut pager = Pager::open(Vec::new());
    let mut tree = BLinkTree::new(&mut pager).unwrap();
    tree.insert(&mut pager, b"a".to_vec(), b"1".to_vec()).unwrap();
    tree.insert(&mut pager, b"a".to_vec(), b"9".to_vec()).unwrap();
    assert_eq!(tree.search(&mut pager, b"a").unwrap(), Some(b"9".to_vec()));
    // the overwrite stayed inside the single leaf
    assert_eq!(pager.total_pages(), 1);
}

#[test]
fn oversized_entries_are_rejected() {
    let mut pager = Pager::open(Vec::new());
    let mut tree = BLinkTree::new(&mut pager).unwrap();
    let e = tree.insert(&mut pager, vec![0u8; MAX_KEY_LEN + 1], b"v".to_vec());
    assert_eq!(e.unwrap_err(), TitanError::CapacityExceeded);
    let e = tree.insert(&mut pager, b"k".to_vec(), vec![0u8; MAX_VALUE_LEN + 1]);
    assert_eq!(e.unwrap_err(), TitanError::CapacityExceeded);
}

#[test]
fn overflow_split_links_two_leaves_under_new_root() {
    let mut pager = Pager::open(Vec::new());
    let mut tree = BLinkTree::new(&mut pager).unwrap();
    let keys: Vec<Vec<u8>> = (0..9u8).map(|i| vec![b'k', b'0' + i]).collect();
    for (i, k) in keys.iter().enumerate() {
        tree.insert(&mut pager, k.clone(), vec![b'v', b'0' + i as u8]).unwrap();
    }
    // one split: the old leaf, its new sibling, and a fresh interior root
    assert_eq!(pager.total_pages(), 3);
    assert_eq!(tree.root_id(), 2);
    let root = pager.fetch_page(2).unwrap();
    assert!(matches!(root.header.page_type, PageType::Interior));
    assert_eq!(root.content.keys.len(), 2);
    assert_eq!(root.content.keys[0], b"".to_vec());
    assert_eq!(root.content.keys[1], b"k4".to_vec());
    let left = pager.fetch_page(0).unwrap();
    let right = pager.fetch_page(1).unwrap();
    assert!(matches!(left.header.page_type, PageType::Leaf));
    assert!(matches!(right.header.page_type, PageType::Leaf));
    // the leaves are linked: left's high key is its own maximum, and the
    // right sibling starts immediately after it
    assert_eq!(left.header.right_link, Some(1));
    assert_eq!(left.header.high_key, Some(left.content.keys.last().unwrap().clone()));
    assert_eq!(left.header.high_key, Some(b"k3".to_vec()));
    assert_eq!(right.content.keys[0], b"k4".to_vec());
    assert_eq!(right.header.high_key, None);
    assert_eq!(right.header.right_link, None);
    // no key was lost or duplicated across the split
    let mut all: Vec<Vec<u8>> = left.content.keys.clone();
    all.extend(right.content.keys.clone());
    assert_eq!(all, keys);
    // every key is still found after its insert returned
    for (i, k) in keys.iter().enumerate() {
        assert_eq!(tree.search(&mut pager, k).unwrap(), Some(vec![b'v', b'0' + i as u8]));
    }
    // nothing touched the disk: splits are in-memory until a flush
    assert_eq!(pager.disk_writes(), 0);
}

#[test]
fn split_page_partitions_rows_exactly() {
    let mut p = Page::new(3, PageType::Leaf);
    p.content.keys = vec![b"a".to_vec(), b"b".to_vec(), b"c".to_vec(), b"d".to_vec()];
    p.content.values = vec![b"1".to_vec(), b"2".to_vec(), b"3".to_vec(), b"4".to_vec()];
    let sib = split_page(&mut p, 8);
    assert_eq!(p.content.keys, vec![b"a".to_vec(), b"b".to_vec()]);
    assert_eq!(sib.content.keys, vec![b"c".to_vec(), b"d".to_vec()]);
    assert_eq!(p.content.values, vec![b"1".to_vec(), b"2".to_vec()]);
    assert_eq!(sib.content.values, vec![b"3".to_vec(), b"4".to_vec()]);
    assert_eq!(p.header.high_key, Some(b"b".to_vec()));
    assert_eq!(p.header.right_link, Some(8));
    assert_eq!(sib.header.page_id, 8);
    assert_eq!(sib.header.high_key, None);
    assert_eq!(sib.header.right_link, None);
    assert!(p.dirty && sib.dirty);
}

#[test]
fn split_preserves_inherited_links() {
    let mut p = Page::new(3, PageType::Leaf);
    p.content.keys = vec![b"a".to_vec(), b"b".to_vec()];
    p.content.values = vec![b"1".to_vec(), b"2".to_vec()];
    p.header.high_key = Some(b"zz".to_vec());
    p.header.right_link = Some(17);
    let sib = split_page(&mut p, 8);
    assert_eq!(sib.header.high_key, Some(b"zz".to_vec()));
    assert_eq!(sib.header.right_link, Some(17));
    assert_eq!(p.header.high_key, Some(b"a".to_vec()));
    assert_eq!(p.header.right_link, Some(8));
}

#[test]
fn tree_persists_through_flush_and_reopen() {
    let mut pager = Pager::open(Vec::new());
    let mut tree = BLinkTree::new(&mut pager).unwrap();
    for i in 0..9u8 {
        tree.insert(&mut pager, vec![b'k', b'0' + i], vec![b'v', b'0' + i]).unwrap();
    }
    let root_id = tree.root_id();
    for id in 0..pager.total_pages() {
        pager.flush_page(id).unwrap();
    }
    let slots = pager.slots().clone();
    let mut reopened = Pager::open(slots);
    let tree2 = BLinkTree::reopen(root_id);
    for i in 0..9u8 {
        let k = vec![b'k', b'0' + i];
        assert_eq!(tree2.search(&mut reopened, &k).unwrap(), Some(vec![b'v', b'0' + i]));
    }
}

#[test]
fn unbounded_move_right_surfaces_as_retry() {
    // two leaves whose right links form a cycle: a search beyond both high
    // keys must give up with the transient failure, not spin forever
    let mut a = Page::new(0, PageType::Leaf);
    a.header.high_key = Some(b"a".to_vec());
    a.header.right_link = Some(1);
    let mut b = Page::new(1, PageType::Leaf);
    b.header.high_key = Some(b"a".to_vec());
    b.header.right_link = Some(0);
    let mut slot_a = a.serialize().unwrap();
    slot_a.resize(4096, 0);
    let mut slot_b = b.serialize().unwrap();
    slot_b.resize(4096, 0);
    let mut pager = Pager::open(vec![slot_a, slot_b]);
    let tree = BLinkTree::reopen(0);
    assert_eq!(tree.search(&mut pager, b"z").unwrap_err(), TitanError::Retry);
}

#[test]
fn inserts_after_split_update_the_right_leaf() {
    let mut pager = Pager::open(Vec::new());
    let mut tree = BLinkTree::new(&mut pager).unwrap();
    for i in 0..9u8 {
        tree.insert(&mut pager, vec![b'k', b'0' + i], vec![b'v', b'0' + i]).unwrap();
    }
    // the tree now has two leaves under an interior root; a fresh key goes
    // to the right leaf, an overwrite reaches the left one
    tree.insert(&mut pager, b"k9".to_vec(), b"v9".to_vec()).unwrap();
    tree.insert(&mut pager, b"k0".to_vec(), b"w0".to_vec()).unwrap();
    assert_eq!(tree.search(&mut pager, b"k9").unwrap(), Some(b"v9".to_vec()));
    assert_eq!(tree.search(&mut pager, b"k0").unwrap(), Some(b"w0".to_vec()));
    assert_eq!(tree.search(&mut pager, b"k5").unwrap(), Some(b"v5".to_vec()));
    // no further split was needed
    assert_eq!(pager.total_pages(), 3);
    assert_eq!(tree.root_id(), 2);
}
