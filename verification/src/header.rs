//! The database header page: magic, page size, page count, checksum.

use vstd::prelude::*;

use crate::byteops::{copy_into, read_u16_at, read_u64_at, splice, write_u16_at, write_u64_at};
use crate::checksum::{spec_with_checksum, write_page_checksum};
use crate::error::StorageError;
use crate::types::{PAGE_SIZE, PageId};
use vstd::bytes::{spec_u16_from_le_bytes, spec_u16_to_le_bytes, spec_u64_from_le_bytes,
    spec_u64_to_le_bytes};

verus! {

/// The page id of the database header page.
pub const HEADER_PAGE_ID: PageId = 0;

/// The page id of the first data page.
pub const FIRST_DATA_PAGE_ID: PageId = 1;

/// Byte offset of the magic inside the header page.
pub const MAGIC_OFFSET: usize = 0;

/// Length of the magic.
pub const MAGIC_SIZE: usize = 16;

/// Byte offset of the stored page size.
pub const PAGE_SIZE_OFFSET: usize = 16;

/// Byte offset of the stored page count.
pub const PAGE_COUNT_OFFSET: usize = 18;

/// The sixteen magic bytes that open every database file:
/// `databas format1` followed by one NUL.
pub open spec fn spec_magic() -> Seq<u8> {
    seq![
        0x64u8, 0x61u8, 0x74u8, 0x61u8, 0x62u8, 0x61u8, 0x73u8, 0x20u8,
        0x66u8, 0x6fu8, 0x72u8, 0x6du8, 0x61u8, 0x74u8, 0x31u8, 0x00u8,
    ]
}

/// Returns the magic as an owned byte vector.
pub fn magic_bytes() -> (r: Vec<u8>)
    ensures
        r@ == spec_magic(),
        r@.len() == MAGIC_SIZE,
{
    let mut m: Vec<u8> = Vec::new();
    m.push(0x64);
    m.push(0x61);
    m.push(0x74);
    m.push(0x61);
    m.push(0x62);
    m.push(0x61);
    m.push(0x73);
    m.push(0x20);
    m.push(0x66);
    m.push(0x6f);
    m.push(0x72);
    m.push(0x6d);
    m.push(0x61);
    m.push(0x74);
    m.push(0x31);
    m.push(0x00);
    assert(m@ =~= spec_magic());
    m
}

/// The parsed form of the database header page.
#[derive(Debug, Clone, Copy, PartialEq, Eq, Structural)]
pub struct DatabaseHeader {
    /// Stored page size; must equal [`PAGE_SIZE`].
    pub page_size: u16,
    /// Number of pages in the file, the header page included.
    pub page_count: u64,
}

/// The full header-page image a header writes: zeros everywhere but the
/// magic, the page size, the page count, and the trailing checksum.
pub open spec fn spec_header_page(h: DatabaseHeader) -> Seq<u8> {
    spec_with_checksum(
        splice(
            splice(
                splice(Seq::new(PAGE_SIZE as nat, |i: int| 0u8), MAGIC_OFFSET as int, spec_magic()),
                PAGE_SIZE_OFFSET as int,
                spec_u16_to_le_bytes(h.page_size),
            ),
            PAGE_COUNT_OFFSET as int,
            spec_u64_to_le_bytes(h.page_count),
        ),
    )
}

impl DatabaseHeader {
    /// A header for a file of `page_count` pages with the compiled-in page
    /// size.
    pub fn new(page_count: u64) -> (h: DatabaseHeader)
        ensures
            h == (DatabaseHeader { page_size: PAGE_SIZE as u16, page_count }),
    {
        DatabaseHeader { page_size: PAGE_SIZE as u16, page_count }
    }

    /// Writes the header page for a freshly created single-page file.
    pub fn init_new(page: &mut Vec<u8>)
        requires
            old(page)@.len() == PAGE_SIZE,
        ensures
            final(page)@ == spec_header_page(
                DatabaseHeader { page_size: PAGE_SIZE as u16, page_count: FIRST_DATA_PAGE_ID },
            ),
    {
        let h = DatabaseHeader::new(FIRST_DATA_PAGE_ID);
        h.write(page);
    }

    /// Parses the header fields stored in `page`.
    ///
    /// Fails with `InvalidDatabaseHeader("invalid magic")` when the magic is
    /// absent and `InvalidDatabaseHeader("invalid page size")` when the
    /// stored page size is not [`PAGE_SIZE`]; otherwise returns the stored
    /// fields.
    pub fn read(page: &Vec<u8>) -> (r: Result<DatabaseHeader, StorageError>)
        requires
            page@.len() == PAGE_SIZE,
        ensures
            page@.subrange(MAGIC_OFFSET as int, MAGIC_SIZE as int) != spec_magic() ==> r == Err::<
                DatabaseHeader,
                StorageError,
            >(StorageError::InvalidDatabaseHeader("invalid magic")),
            page@.subrange(MAGIC_OFFSET as int, MAGIC_SIZE as int) == spec_magic()
                && spec_stored_page_size(page@) != PAGE_SIZE ==> r == Err::<
                DatabaseHeader,
                StorageError,
            >(StorageError::InvalidDatabaseHeader("invalid page size")),
            page@.subrange(MAGIC_OFFSET as int, MAGIC_SIZE as int) == spec_magic()
                && spec_stored_page_size(page@) == PAGE_SIZE ==> r == Ok::<
                DatabaseHeader,
                StorageError,
            >(
                DatabaseHeader {
                    page_size: spec_stored_page_size(page@),
                    page_count: spec_stored_page_count(page@),
                },
            ),
    {
        let magic = magic_bytes();
        let mut i: usize = 0;
        let mut magic_ok = true;
        while i < MAGIC_SIZE
            invariant
                page@.len() == PAGE_SIZE,
                magic@ == spec_magic(),
                i <= MAGIC_SIZE,
                magic_ok == (page@.subrange(0, i as int) =~= spec_magic().subrange(0, i as int)),
            decreases MAGIC_SIZE - i,
        {
            if page[i] != magic[i] {
                magic_ok = false;
                proof {
                    assert(page@.subrange(0, i + 1)[i as int] != spec_magic().subrange(
                        0,
                        i + 1,
                    )[i as int]);
                }
            } else {
                proof {
                    if magic_ok {
                        assert(page@.subrange(0, i + 1) =~= spec_magic().subrange(0, i + 1));
                    } else {
                        let w = choose|w: int|
                            0 <= w < i && page@.subrange(0, i as int)[w] != spec_magic().subrange(
                                0,
                                i as int,
                            )[w];
                        assert(page@.subrange(0, i + 1)[w] != spec_magic().subrange(0, i + 1)[w]);
                    }
                }
            }
            i = i + 1;
        }
        proof {
            assert(page@.subrange(0, MAGIC_SIZE as int) =~= page@.subrange(0, MAGIC_SIZE as int));
            assert(spec_magic().subrange(0, MAGIC_SIZE as int) =~= spec_magic());
        }
        if !magic_ok {
            return Err(StorageError::InvalidDatabaseHeader("invalid magic"));
        }
        let page_size = read_u16_at(page, PAGE_SIZE_OFFSET);
        if page_size != PAGE_SIZE as u16 {
            return Err(StorageError::InvalidDatabaseHeader("invalid page size"));
        }
        let page_count = read_u64_at(page, PAGE_COUNT_OFFSET);
        Ok(DatabaseHeader { page_size, page_count })
    }

    /// Writes this header over `page`: zeros, magic, fields, checksum.
    pub fn write(&self, page: &mut Vec<u8>)
        requires
            old(page)@.len() == PAGE_SIZE,
        ensures
            final(page)@ == spec_header_page(*self),
    {
        crate::byteops::zero_fill(page);
        let magic = magic_bytes();
        copy_into(page, MAGIC_OFFSET, magic.as_slice());
        write_u16_at(page, PAGE_SIZE_OFFSET, self.page_size);
        write_u64_at(page, PAGE_COUNT_OFFSET, self.page_count);
        proof {
            assert(page@ =~= splice(
                splice(
                    splice(
                        Seq::new(PAGE_SIZE as nat, |i: int| 0u8),
                        MAGIC_OFFSET as int,
                        spec_magic(),
                    ),
                    PAGE_SIZE_OFFSET as int,
                    spec_u16_to_le_bytes(self.page_size),
                ),
                PAGE_COUNT_OFFSET as int,
                spec_u64_to_le_bytes(self.page_count),
            ));
        }
        write_page_checksum(page);
    }

    /// Cross-checks the stored page count against the one derived from the
    /// file length: zero is rejected, as is any disagreement.
    pub fn validate(&self, actual_page_count: u64) -> (r: Result<(), StorageError>)
        ensures
            self.page_count == 0 ==> r == Err::<(), StorageError>(
                StorageError::InvalidDatabaseHeader("page count must be at least one"),
            ),
            self.page_count != 0 && self.page_count != actual_page_count ==> r == Err::<
                (),
                StorageError,
            >(StorageError::InvalidDatabaseHeader("page count does not match file size")),
            self.page_count != 0 && self.page_count == actual_page_count ==> r == Ok::<
                (),
                StorageError,
            >(()),
    {
        if self.page_count == 0 {
            return Err(StorageError::InvalidDatabaseHeader("page count must be at least one"));
        }
        if self.page_count != actual_page_count {
            return Err(StorageError::InvalidDatabaseHeader("page count does not match file size"));
        }
        Ok(())
    }
}

/// The page size stored in a header page image.
pub open spec fn spec_stored_page_size(page: Seq<u8>) -> u16 {
    spec_u16_from_le_bytes(page.subrange(PAGE_SIZE_OFFSET as int, PAGE_SIZE_OFFSET + 2))
}

/// The page count stored in a header page image.
pub open spec fn spec_stored_page_count(page: Seq<u8>) -> u64 {
    spec_u64_from_le_bytes(page.subrange(PAGE_COUNT_OFFSET as int, PAGE_COUNT_OFFSET + 8))
}

/// Reading back a written header page yields the header: the magic is in
/// place and both stored fields equal the written ones.
pub proof fn lemma_header_page_round_trip(h: DatabaseHeader)
    ensures
        spec_header_page(h).len() == PAGE_SIZE,
        spec_header_page(h).subrange(MAGIC_OFFSET as int, MAGIC_SIZE as int) == spec_magic(),
        spec_stored_page_size(spec_header_page(h)) == h.page_size,
        spec_stored_page_count(spec_header_page(h)) == h.page_count,
{
    let base = splice(
        splice(
            splice(Seq::new(PAGE_SIZE as nat, |i: int| 0u8), MAGIC_OFFSET as int, spec_magic()),
            PAGE_SIZE_OFFSET as int,
            spec_u16_to_le_bytes(h.page_size),
        ),
        PAGE_COUNT_OFFSET as int,
        spec_u64_to_le_bytes(h.page_count),
    );
    let page = spec_header_page(h);
    vstd::bytes::lemma_auto_spec_u16_to_from_le_bytes();
    vstd::bytes::lemma_auto_spec_u64_to_from_le_bytes();
    crate::checksum::lemma_with_checksum_ok(base);
    assert(page.subrange(MAGIC_OFFSET as int, MAGIC_SIZE as int) =~= spec_magic());
    assert(page.subrange(PAGE_SIZE_OFFSET as int, PAGE_SIZE_OFFSET + 2) =~= spec_u16_to_le_bytes(
        h.page_size,
    ));
    assert(page.subrange(PAGE_COUNT_OFFSET as int, PAGE_COUNT_OFFSET + 8) =~= spec_u64_to_le_bytes(
        h.page_count,
    ));
}

} // verus!
