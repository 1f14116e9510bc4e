use databas::error::TablePageError;
use databas::interior::{self, INTERIOR_CELL_SIZE};
use databas::layout::INTERIOR_HEADER_SIZE;
use databas::types::PAGE_SIZE;

fn initialized_interior_page(rightmost_child: u64) -> Vec<u8> {
    let mut page = vec![0u8; PAGE_SIZE];
    interior::init_empty(&mut page, rightmost_child).unwrap();
    page
}

fn max_cell_count() -> usize {
    (PAGE_SIZE - INTERIOR_HEADER_SIZE) / (INTERIOR_CELL_SIZE + 2)
}

#[test]
fn interior_init_empty_and_from_bytes_validate_page_type() {
    let mut page = vec![0u8; PAGE_SIZE];
    interior::init_empty(&mut page, 77).unwrap();
    assert_eq!(interior::cell_count(&page), 0);
    assert_eq!(interior::rightmost_child(&page), 77);

    interior::validate(&page).unwrap();
    assert_eq!(interior::rightmost_child(&page), 77);

    page[0] = 99;
    let err = interior::validate(&page).unwrap_err();
    assert!(matches!(err, TablePageError::InvalidPageType(99)));
}

#[test]
fn interior_search_on_empty_page_returns_none() {
    let page = initialized_interior_page(7);
    assert_eq!(interior::search(&page, 5).unwrap(), None);
}

#[test]
fn child_for_row_id_routes_by_separator_and_rightmost_fallback() {
    let mut page = initialized_interior_page(400);
    interior::insert(&mut page, 10, 100).unwrap();
    interior::insert(&mut page, 20, 200).unwrap();
    interior::insert(&mut page, 30, 300).unwrap();

    assert_eq!(interior::child_for_row_id(&page, 5).unwrap(), 100);
    assert_eq!(interior::child_for_row_id(&page, 10).unwrap(), 100);
    assert_eq!(interior::child_for_row_id(&page, 15).unwrap(), 200);
    assert_eq!(interior::child_for_row_id(&page, 20).unwrap(), 200);
    assert_eq!(interior::child_for_row_id(&page, 29).unwrap(), 300);
    assert_eq!(interior::child_for_row_id(&page, 30).unwrap(), 300);
    assert_eq!(interior::child_for_row_id(&page, 31).unwrap(), 400);
}

#[test]
fn mutable_child_for_row_id_delegates_to_immutable_routing() {
    let mut page = initialized_interior_page(999);
    interior::insert(&mut page, 50, 500).unwrap();
    interior::insert(&mut page, 100, 600).unwrap();

    assert_eq!(interior::child_for_row_id(&page, 10).unwrap(), 500);
    assert_eq!(interior::child_for_row_id(&page, 75).unwrap(), 600);
    assert_eq!(interior::child_for_row_id(&page, 101).unwrap(), 999);
}

#[test]
fn insert_search_and_duplicate_behavior() {
    let mut page = initialized_interior_page(100);

    for row_id in [50u64, 10, 40, 20, 30] {
        interior::insert(&mut page, row_id, row_id + 1_000).unwrap();
    }

    for row_id in [10u64, 20, 30, 40, 50] {
        let cell = interior::search(&page, row_id).unwrap().unwrap();
        assert_eq!(cell.row_id, row_id);
        assert_eq!(cell.left_child, row_id + 1_000);
    }

    let err = interior::insert(&mut page, 20, 1).unwrap_err();
    assert!(matches!(err, TablePageError::DuplicateRowId(20)));
}

#[test]
fn update_delete_and_missing_row_id_behavior() {
    let mut page = initialized_interior_page(100);

    interior::insert(&mut page, 1, 11).unwrap();
    interior::insert(&mut page, 2, 22).unwrap();

    interior::update(&mut page, 2, 222).unwrap();
    assert_eq!(interior::search(&page, 2).unwrap().unwrap().left_child, 222);

    let update_err = interior::update(&mut page, 99, 999).unwrap_err();
    assert!(matches!(update_err, TablePageError::RowIdNotFound(99)));

    interior::delete(&mut page, 1).unwrap();
    assert_eq!(interior::search(&page, 1).unwrap(), None);

    let delete_err = interior::delete(&mut page, 1).unwrap_err();
    assert!(matches!(delete_err, TablePageError::RowIdNotFound(1)));
}

#[test]
fn update_on_full_page_overwrites_in_place() {
    let mut page = initialized_interior_page(123);

    let max_cells = max_cell_count();
    for row_id in 0..max_cells {
        interior::insert(&mut page, row_id as u64, row_id as u64).unwrap();
    }

    let free_before = interior::free_space(&page).unwrap();
    assert!(free_before < INTERIOR_CELL_SIZE);

    let target_row_id = (max_cells / 2) as u64;
    interior::update(&mut page, target_row_id, 777_777).unwrap();

    assert_eq!(interior::free_space(&page).unwrap(), free_before);
    assert_eq!(interior::search(&page, target_row_id).unwrap().unwrap().left_child, 777_777);
}

#[test]
fn rightmost_child_roundtrip() {
    let mut page = initialized_interior_page(9);
    assert_eq!(interior::rightmost_child(&page), 9);
    interior::set_rightmost_child(&mut page, 42).unwrap();
    assert_eq!(interior::rightmost_child(&page), 42);

    interior::validate(&page).unwrap();
    assert_eq!(interior::rightmost_child(&page), 42);
}

#[test]
fn interior_insert_defrag_retry_path_succeeds() {
    let mut page = initialized_interior_page(123);

    let max_cells = max_cell_count();
    for row_id in 0..max_cells {
        interior::insert(&mut page, row_id as u64, (row_id as u64) + 10_000).unwrap();
    }

    interior::delete(&mut page, 100).unwrap();
    assert!(interior::free_space(&page).unwrap() < INTERIOR_CELL_SIZE + 2);

    interior::insert(&mut page, max_cells as u64, 99_999).unwrap();
    assert_eq!(
        interior::search(&page, max_cells as u64).unwrap().unwrap().left_child,
        99_999
    );
}

#[test]
fn insert_fails_with_page_full_when_no_space_even_after_defrag() {
    let mut page = initialized_interior_page(123);

    let max_cells = max_cell_count();
    for row_id in 0..max_cells {
        interior::insert(&mut page, row_id as u64, row_id as u64).unwrap();
    }

    let err = interior::insert(&mut page, max_cells as u64, 1).unwrap_err();
    assert!(matches!(err, TablePageError::PageFull { .. }));
}

#[test]
fn corrupt_slot_offset_and_malformed_cell_are_detected() {
    let mut page = initialized_interior_page(55);
    interior::insert(&mut page, 1, 11).unwrap();

    let first_slot = INTERIOR_HEADER_SIZE;
    page[first_slot..first_slot + 2].copy_from_slice(&1u16.to_le_bytes());

    let err = interior::search(&page, 1).unwrap_err();
    assert!(matches!(err, TablePageError::CorruptCell { slot_index: 0 }));

    let mut page = initialized_interior_page(55);
    interior::insert(&mut page, 1, 11).unwrap();

    let malformed_offset = (PAGE_SIZE - 8) as u16;
    page[first_slot..first_slot + 2].copy_from_slice(&malformed_offset.to_le_bytes());

    let err = interior::search(&page, 1).unwrap_err();
    assert!(matches!(err, TablePageError::CorruptCell { slot_index: 0 }));
}

#[test]
fn interior_defragment_preserves_cells_and_rightmost_child() {
    let mut page = initialized_interior_page(777);
    for row_id in [5u64, 1, 3] {
        interior::insert(&mut page, row_id, row_id * 10).unwrap();
    }
    interior::delete(&mut page, 3).unwrap();

    interior::defragment(&mut page).unwrap();

    assert_eq!(interior::rightmost_child(&page), 777);
    assert_eq!(interior::cell_count(&page), 2);
    assert_eq!(interior::search(&page, 1).unwrap().unwrap().left_child, 10);
    assert_eq!(interior::search(&page, 5).unwrap().unwrap().left_child, 50);
}
