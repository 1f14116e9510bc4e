//! Dispatch over table pages whose concrete kind is discovered at runtime.

use vstd::prelude::*;

use crate::error::TablePageError;
use crate::interior::spec_interior_spec;
use crate::layout::{self, spec_layout_wf, spec_page_type, INTERIOR_PAGE_TYPE, LEAF_PAGE_TYPE};
use crate::leaf::spec_leaf_spec;
use crate::types::PAGE_SIZE;

verus! {

/// Logical kind of a table page.
#[derive(Debug, Clone, Copy, PartialEq, Eq, Structural)]
pub enum TablePageKind {
    /// Leaf page containing payload bytes.
    Leaf,
    /// Interior page containing child pointers and separator keys.
    Interior,
}

/// Validates a page buffer of unknown table-page type and returns its kind.
///
/// Fails with `InvalidPageType` when the type byte names no table-page kind,
/// and with the kind's own validation error when its layout is inconsistent.
pub fn kind_of(page: &Vec<u8>) -> (r: Result<TablePageKind, TablePageError>)
    requires
        page@.len() == PAGE_SIZE,
    ensures
        r == Ok::<TablePageKind, TablePageError>(TablePageKind::Leaf) <==> spec_page_type(page@)
            == LEAF_PAGE_TYPE && spec_layout_wf(page@, spec_leaf_spec()),
        r == Ok::<TablePageKind, TablePageError>(TablePageKind::Interior) <==> spec_page_type(
            page@,
        ) == INTERIOR_PAGE_TYPE && spec_layout_wf(page@, spec_interior_spec()),
        spec_page_type(page@) != LEAF_PAGE_TYPE && spec_page_type(page@) != INTERIOR_PAGE_TYPE
            ==> r == Err::<TablePageKind, TablePageError>(
            TablePageError::InvalidPageType(spec_page_type(page@)),
        ),
{
    let ptype = layout::page_type(page);
    if ptype == LEAF_PAGE_TYPE {
        match crate::leaf::validate(page) {
            Ok(()) => Ok(TablePageKind::Leaf),
            Err(e) => Err(e),
        }
    } else if ptype == INTERIOR_PAGE_TYPE {
        match crate::interior::validate(page) {
            Ok(()) => Ok(TablePageKind::Interior),
            Err(e) => Err(e),
        }
    } else {
        Err(TablePageError::InvalidPageType(ptype))
    }
}

} // verus!
