//! Core identifiers and the compile-time page size.

use vstd::prelude::*;

verus! {

/// Identifies one page in the database file. Page 0 is the header page;
/// data pages start at 1.
pub type PageId = u64;

/// Identifies one row inside a table page. Unique within one page; slot
/// order matches ascending row id.
pub type RowId = u64;

/// Size in bytes of every page, on disk and in cache. Must fit in `u16`.
pub const PAGE_SIZE: usize = 4096;

} // verus!
