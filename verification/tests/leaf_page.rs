use databas::error::TablePageError;
use databas::layout::LEAF_HEADER_SIZE;
use databas::leaf::{self, LEAF_CELL_PREFIX_SIZE};
use databas::types::PAGE_SIZE;

fn initialized_leaf_page() -> Vec<u8> {
    let mut page = vec![0u8; PAGE_SIZE];
    leaf::init_empty(&mut page).unwrap();
    page
}

fn payload(byte: u8, len: usize) -> Vec<u8> {
    vec![byte; len]
}

#[test]
fn leaf_init_empty_and_from_bytes_validate_page_type() {
    let mut page = vec![0u8; PAGE_SIZE];
    leaf::init_empty(&mut page).unwrap();
    assert_eq!(leaf::cell_count(&page), 0);

    leaf::validate(&page).unwrap();
    assert_eq!(leaf::cell_count(&page), 0);

    page[0] = 99;
    let err = leaf::validate(&page).unwrap_err();
    assert!(matches!(err, TablePageError::InvalidPageType(99)));
}

#[test]
fn leaf_search_on_empty_page_returns_none() {
    let page = initialized_leaf_page();
    assert_eq!(leaf::search(&page, 7).unwrap(), None);
}

#[test]
fn search_returns_borrowed_payload() {
    let mut page = initialized_leaf_page();
    leaf::insert(&mut page, 42, &[1, 2, 3, 4]).unwrap();

    let cell = leaf::search(&page, 42).unwrap().unwrap();
    assert_eq!(cell, vec![1, 2, 3, 4]);
}

#[test]
fn inserts_are_searchable_after_random_order_inserts() {
    let mut page = initialized_leaf_page();

    for row_id in [50u64, 10, 40, 20, 30] {
        leaf::insert(&mut page, row_id, &[row_id as u8]).unwrap();
    }

    for row_id in [10u64, 20, 30, 40, 50] {
        let found = leaf::search(&page, row_id).unwrap().unwrap();
        assert_eq!(found, vec![row_id as u8]);
    }
}

#[test]
fn insert_duplicate_row_id_fails() {
    let mut page = initialized_leaf_page();

    leaf::insert(&mut page, 11, &[1]).unwrap();
    let err = leaf::insert(&mut page, 11, &[2]).unwrap_err();
    assert!(matches!(err, TablePageError::DuplicateRowId(11)));
}

#[test]
fn update_existing_and_missing_row_ids() {
    let mut page = initialized_leaf_page();

    leaf::insert(&mut page, 9, &[1, 2]).unwrap();
    leaf::update(&mut page, 9, &[8, 8, 8]).unwrap();
    assert_eq!(leaf::search(&page, 9).unwrap().unwrap(), vec![8, 8, 8]);

    let err = leaf::update(&mut page, 99, &[1]).unwrap_err();
    assert!(matches!(err, TablePageError::RowIdNotFound(99)));
}

#[test]
fn delete_existing_and_missing_row_ids() {
    let mut page = initialized_leaf_page();

    leaf::insert(&mut page, 1, &[1]).unwrap();
    leaf::insert(&mut page, 2, &[2]).unwrap();

    leaf::delete(&mut page, 1).unwrap();
    assert_eq!(leaf::search(&page, 1).unwrap(), None);

    let err = leaf::delete(&mut page, 1).unwrap_err();
    assert!(matches!(err, TablePageError::RowIdNotFound(1)));
}

#[test]
fn leaf_insert_defrag_retry_path_succeeds() {
    let mut page = initialized_leaf_page();

    leaf::insert(&mut page, 1, &payload(1, 1_200)).unwrap();
    leaf::insert(&mut page, 2, &payload(2, 1_200)).unwrap();
    leaf::insert(&mut page, 3, &payload(3, 1_200)).unwrap();
    leaf::delete(&mut page, 2).unwrap();

    leaf::insert(&mut page, 4, &payload(4, 1_000)).unwrap();

    assert_eq!(leaf::search(&page, 4).unwrap().unwrap().len(), 1_000);
}

#[test]
fn update_defrag_retry_path_succeeds() {
    let mut page = initialized_leaf_page();

    leaf::insert(&mut page, 1, &payload(1, 1_200)).unwrap();
    leaf::insert(&mut page, 2, &payload(2, 1_200)).unwrap();
    leaf::insert(&mut page, 3, &payload(3, 1_200)).unwrap();
    leaf::delete(&mut page, 2).unwrap();

    leaf::update(&mut page, 1, &payload(9, 1_000)).unwrap();
    assert_eq!(leaf::search(&page, 1).unwrap().unwrap().len(), 1_000);
}

#[test]
fn same_size_update_on_full_page_overwrites_in_place() {
    let mut page = initialized_leaf_page();

    let max_payload = PAGE_SIZE - LEAF_HEADER_SIZE - 2 - LEAF_CELL_PREFIX_SIZE;
    leaf::insert(&mut page, 1, &payload(1, max_payload)).unwrap();

    let free_before = leaf::free_space(&page).unwrap();
    assert_eq!(free_before, 0);

    let updated_payload = payload(9, max_payload);
    leaf::update(&mut page, 1, &updated_payload).unwrap();

    assert_eq!(leaf::free_space(&page).unwrap(), free_before);
    assert_eq!(leaf::search(&page, 1).unwrap().unwrap(), updated_payload);
}

#[test]
fn insert_and_update_fail_with_page_full() {
    let mut page = initialized_leaf_page();

    let max_payload = PAGE_SIZE - LEAF_HEADER_SIZE - 2 - LEAF_CELL_PREFIX_SIZE;
    leaf::insert(&mut page, 1, &payload(1, max_payload)).unwrap();

    let insert_err = leaf::insert(&mut page, 2, &[1]).unwrap_err();
    assert!(matches!(insert_err, TablePageError::PageFull { .. }));

    let mut page = initialized_leaf_page();
    leaf::insert(&mut page, 1, &payload(1, 100)).unwrap();
    leaf::insert(&mut page, 2, &payload(2, 100)).unwrap();

    let update_err = leaf::update(&mut page, 1, &payload(3, 4_000)).unwrap_err();
    assert!(matches!(update_err, TablePageError::PageFull { .. }));
}

#[test]
fn largest_payload_and_cell_too_large_boundaries() {
    let mut page = initialized_leaf_page();

    let max_payload = PAGE_SIZE - LEAF_HEADER_SIZE - 2 - LEAF_CELL_PREFIX_SIZE;
    leaf::insert(&mut page, 1, &payload(5, max_payload)).unwrap();
    assert_eq!(leaf::search(&page, 1).unwrap().unwrap().len(), max_payload);

    let mut page = initialized_leaf_page();
    let err = leaf::insert(&mut page, 2, &payload(7, 70_000)).unwrap_err();
    assert!(matches!(err, TablePageError::CellTooLarge { len: 70_000 }));
}

#[test]
fn corrupt_slot_offset_is_detected() {
    let mut page = initialized_leaf_page();
    leaf::insert(&mut page, 1, &[9, 9]).unwrap();

    page[LEAF_HEADER_SIZE..LEAF_HEADER_SIZE + 2].copy_from_slice(&1u16.to_le_bytes());

    let err = leaf::search(&page, 1).unwrap_err();
    assert!(matches!(err, TablePageError::CorruptCell { slot_index: 0 }));
}

#[test]
fn malformed_leaf_cell_payload_length_is_detected() {
    let mut page = initialized_leaf_page();
    leaf::insert(&mut page, 1, &[1, 2, 3]).unwrap();

    let slot = LEAF_HEADER_SIZE;
    let cell_offset = usize::from(u16::from_le_bytes([page[slot], page[slot + 1]]));
    page[cell_offset..cell_offset + 2].copy_from_slice(&u16::MAX.to_le_bytes());

    let err = leaf::search(&page, 1).unwrap_err();
    assert!(matches!(err, TablePageError::CorruptCell { slot_index: 0 }));
}

#[test]
fn defragment_preserves_entries_and_their_order() {
    let mut page = initialized_leaf_page();
    for row_id in [50u64, 10, 40, 20, 30] {
        leaf::insert(&mut page, row_id, &[row_id as u8, row_id as u8]).unwrap();
    }
    leaf::delete(&mut page, 40).unwrap();
    let free_before = leaf::free_space(&page).unwrap();

    leaf::defragment(&mut page).unwrap();

    assert!(leaf::free_space(&page).unwrap() > free_before);
    assert_eq!(leaf::cell_count(&page), 4);
    for row_id in [10u64, 20, 30, 50] {
        assert_eq!(
            leaf::search(&page, row_id).unwrap().unwrap(),
            vec![row_id as u8, row_id as u8]
        );
    }
    assert_eq!(leaf::search(&page, 40).unwrap(), None);
}

#[test]
fn whole_cell_overflow_reports_page_full_not_cell_too_large() {
    // a payload at most u16::MAX whose whole cell exceeds it can never fit:
    // the error taxonomy gives PageFull, reserving CellTooLarge for
    // payloads longer than u16::MAX
    let mut page = initialized_leaf_page();
    let err = leaf::insert(&mut page, 1, &payload(1, 65_530)).unwrap_err();
    assert_eq!(
        err,
        TablePageError::PageFull { needed: 65_540, available: PAGE_SIZE - LEAF_HEADER_SIZE - 2 }
    );

    let mut page = initialized_leaf_page();
    leaf::insert(&mut page, 1, &[7, 7]).unwrap();
    let err = leaf::update(&mut page, 1, &payload(2, 65_530)).unwrap_err();
    assert!(matches!(err, TablePageError::PageFull { needed: 65_540, .. }));
}
