use databas::error::TablePageError;
use databas::interior;
use databas::leaf;
use databas::table_page::{kind_of, TablePageKind};
use databas::types::PAGE_SIZE;

fn initialized_leaf_page() -> Vec<u8> {
    let mut page = vec![0u8; PAGE_SIZE];
    leaf::init_empty(&mut page).unwrap();
    page
}

fn initialized_interior_page(rightmost_child: u64) -> Vec<u8> {
    let mut page = vec![0u8; PAGE_SIZE];
    interior::init_empty(&mut page, rightmost_child).unwrap();
    page
}

#[test]
fn immutable_unknown_deserialization_detects_leaf_and_kind() {
    let mut page = initialized_leaf_page();
    leaf::insert(&mut page, 7, &[1, 2, 3]).unwrap();

    assert_eq!(kind_of(&page).unwrap(), TablePageKind::Leaf);
    let cell = leaf::search(&page, 7).unwrap().unwrap();
    assert_eq!(cell, vec![1, 2, 3]);
}

#[test]
fn immutable_unknown_deserialization_detects_interior_and_kind() {
    let page = initialized_interior_page(99);

    assert_eq!(kind_of(&page).unwrap(), TablePageKind::Interior);
    assert_eq!(interior::rightmost_child(&page), 99);
}

#[test]
fn mutable_unknown_deserialization_detects_leaf_and_kind() {
    let mut page = initialized_leaf_page();
    assert_eq!(kind_of(&page).unwrap(), TablePageKind::Leaf);
    leaf::insert(&mut page, 1, &[1]).unwrap();
    assert_eq!(kind_of(&page).unwrap(), TablePageKind::Leaf);
}

#[test]
fn mutable_unknown_deserialization_detects_interior_and_kind() {
    let mut page = initialized_interior_page(123);
    assert_eq!(kind_of(&page).unwrap(), TablePageKind::Interior);
    interior::insert(&mut page, 1, 2).unwrap();
    assert_eq!(kind_of(&page).unwrap(), TablePageKind::Interior);
}

#[test]
fn unknown_deserialization_rejects_invalid_page_type() {
    let mut page = vec![0u8; PAGE_SIZE];
    page[0] = 255;

    let immutable_err = kind_of(&page).unwrap_err();
    assert!(matches!(immutable_err, TablePageError::InvalidPageType(255)));

    let mutable_page = page.clone();
    let mutable_err = kind_of(&mutable_page).unwrap_err();
    assert!(matches!(mutable_err, TablePageError::InvalidPageType(255)));
}

#[test]
fn unknown_deserialization_propagates_corruption_for_valid_leaf_type() {
    let mut page = initialized_leaf_page();
    page[4..6].copy_from_slice(&0u16.to_le_bytes());

    let immutable_err = kind_of(&page).unwrap_err();
    assert!(matches!(immutable_err, TablePageError::CorruptPage("invalid cell content start")));

    let mutable_page = page.clone();
    let mutable_err = kind_of(&mutable_page).unwrap_err();
    assert!(matches!(mutable_err, TablePageError::CorruptPage("invalid cell content start")));
}
