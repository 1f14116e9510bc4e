//! Error taxonomies for the storage engine: one closed set of parameterized
//! kinds per subsystem. Errors are always returned as values.

use vstd::prelude::*;

use crate::types::PageId;

verus! {

/// Errors surfaced by the disk manager and database header.
#[derive(Debug, Clone, Copy, PartialEq, Eq)]
pub enum StorageError {
    /// A page id at or past the current page count.
    InvalidPageId(PageId),
    /// A file whose length is not a multiple of the page size.
    InvalidFileSize(u64),
    /// A page whose stored checksum does not match its contents.
    InvalidPageChecksum(PageId),
    /// A header page that fails validation, with the reason.
    InvalidDatabaseHeader(&'static str),
}

/// Result alias for disk-manager operations.
pub type StorageResult<T> = Result<T, StorageError>;

/// Errors surfaced by the page cache.
#[derive(Debug, Clone, Copy, PartialEq, Eq)]
pub enum PageCacheError {
    /// An underlying storage failure.
    Storage(StorageError),
    /// Every frame is pinned or referenced past the clock budget.
    NoEvictableFrame,
    /// The page cannot be flushed while pinned.
    PinnedPage(PageId),
    /// A cache must own at least one frame.
    InvalidFrameCount(usize),
    /// The page table pointed at a frame outside the cache.
    CorruptPageTableEntry { page_id: PageId, frame_id: usize, frame_count: usize },
}

/// Result alias for page-cache operations.
pub type PageCacheResult<T> = Result<T, PageCacheError>;

/// Errors surfaced by the slotted table pages.
#[derive(Debug, Clone, Copy, PartialEq, Eq)]
pub enum TablePageError {
    /// The page-type byte does not name a known table-page kind.
    InvalidPageType(u8),
    /// The page header or slot directory is internally inconsistent.
    CorruptPage(&'static str),
    /// The slot points at bytes that do not decode as a cell.
    CorruptCell { slot_index: u16 },
    /// An insert found the row id already present.
    DuplicateRowId(u64),
    /// An update or delete found no such row id.
    RowIdNotFound(u64),
    /// A cell longer than a slot offset can address.
    CellTooLarge { len: usize },
    /// Not enough free space, even after defragmenting.
    PageFull { needed: usize, available: usize },
}

/// Result alias for table-page operations.
pub type TablePageResult<T> = Result<T, TablePageError>;

} // verus!
