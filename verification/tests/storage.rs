use titan_db::error::TitanError;
use titan_db::page::{Page, PageType, PAGE_SIZE};
use titan_db::pager::Pager;

fn sample_page() -> Page {
    let mut p = Page::new(7, PageType::Leaf);
    p.content.keys = vec![b"alpha".to_vec(), b"beta".to_vec(), b"gamma".to_vec()];
    p.content.values = vec![b"1".to_vec(), b"22".to_vec(), b"333".to_vec()];
    p.header.lsn = 41;
    p.header.high_key = Some(b"zz".to_vec());
    p.header.right_link = Some(9);
    p
}

#[test]
fn page_round_trip() {
    let p = sample_page();
    let bytes = p.serialize().unwrap();
    let q = Page::deserialize(&bytes).unwrap();
    assert_eq!(q.header.page_id, 7);
    assert!(matches!(q.header.page_type, PageType::Leaf));
    assert_eq!(q.header.lsn, 41);
    assert_eq!(q.header.high_key, Some(b"zz".to_vec()));
    assert_eq!(q.header.right_link, Some(9));
    assert_eq!(q.content.keys, p.content.keys);
    assert_eq!(q.content.values, p.content.values);
    assert!(!q.dirty);
}

#[test]
fn page_round_trip_survives_padding() {
    let p = sample_page();
    let mut bytes = p.serialize().unwrap();
    bytes.resize(PAGE_SIZE, 0);
    let q = Page::deserialize(&bytes).unwrap();
    assert_eq!(q.content.keys, p.content.keys);
    assert_eq!(q.content.values, p.content.values);
}

#[test]
fn serialize_rejects_oversized_page() {
    let mut p = Page::new(0, PageType::Leaf);
    p.content.keys = vec![b"k".to_vec()];
    p.content.values = vec![vec![0u8; PAGE_SIZE + 1]];
    assert_eq!(p.serialize().unwrap_err(), TitanError::CapacityExceeded);
}

#[test]
fn deserialize_rejects_garbage() {
    assert_eq!(Page::deserialize(&[1, 2, 3]).unwrap_err(), TitanError::CorruptPage);
    assert_eq!(Page::deserialize(&[]).unwrap_err(), TitanError::CorruptPage);
}

#[test]
fn fetch_unallocated_page_fails() {
    let mut pager = Pager::open(Vec::new());
    assert_eq!(pager.fetch_page(0).unwrap_err(), TitanError::PageNotFound(0));
    assert_eq!(pager.fetch_page(42).unwrap_err(), TitanError::PageNotFound(42));
    assert_eq!(pager.disk_writes(), 0);
}

#[test]
fn allocate_then_fetch_hits_cache() {
    let mut pager = Pager::open(Vec::new());
    let p = pager.allocate_page(PageType::Leaf).unwrap();
    assert_eq!(p.header.page_id, 0);
    assert!(p.dirty);
    let q = pager.fetch_page(0).unwrap();
    assert_eq!(q.header.page_id, 0);
    assert!(matches!(q.header.page_type, PageType::Leaf));
    assert!(q.content.keys.is_empty());
    assert!(q.dirty);
    // the whole exchange was served from memory
    assert_eq!(pager.disk_reads(), 0);
    assert_eq!(pager.disk_writes(), 0);
    assert_eq!(pager.total_pages(), 1);
}

#[test]
fn flush_clears_dirty_and_second_flush_writes_nothing() {
    let mut pager = Pager::open(Vec::new());
    pager.allocate_page(PageType::Leaf).unwrap();
    pager.flush_page(0).unwrap();
    assert_eq!(pager.disk_writes(), 1);
    let p = pager.fetch_page(0).unwrap();
    assert!(!p.dirty);
    pager.flush_page(0).unwrap();
    assert_eq!(pager.disk_writes(), 1);
    assert_eq!(pager.flush_page(5).unwrap_err(), TitanError::PageNotFound(5));
}

#[test]
fn flushed_slots_reopen_into_identical_pages() {
    let mut pager = Pager::open(Vec::new());
    pager.allocate_page(PageType::Leaf).unwrap();
    let mut page = pager.fetch_page(0).unwrap();
    page.content.keys = vec![b"k".to_vec()];
    page.content.values = vec![b"v".to_vec()];
    pager.update_page(page).unwrap();
    pager.flush_page(0).unwrap();
    let slots = pager.slots().clone();
    assert_eq!(slots.len(), 1);
    assert_eq!(slots[0].len(), PAGE_SIZE);
    let mut reopened = Pager::open(slots);
    assert_eq!(reopened.total_pages(), 1);
    let q = reopened.fetch_page(0).unwrap();
    assert_eq!(q.content.keys, vec![b"k".to_vec()]);
    assert_eq!(q.content.values, vec![b"v".to_vec()]);
    assert!(!q.dirty);
    assert_eq!(reopened.disk_reads(), 1);
}

#[test]
fn fetch_detects_a_slot_that_is_not_its_page() {
    // an all-zero slot decodes as the empty leaf page 0, so under id 1 it
    // is corrupt, never silently accepted
    let zero = vec![0u8; PAGE_SIZE];
    let mut pager = Pager::open(vec![zero.clone(), zero]);
    assert_eq!(pager.fetch_page(1).unwrap_err(), TitanError::CorruptPage);
    let p = pager.fetch_page(0).unwrap();
    assert_eq!(p.header.page_id, 0);
    assert!(p.content.keys.is_empty());
}
