//! Page-granularity access to the database file image: allocation, bounds
//! checks, checksum verification, and header maintenance.
//!
//! The disk manager works on the file as a byte image. Reading the image
//! from a real file, and making completed writes durable, is the thin I/O
//! shell around this library.

use vstd::prelude::*;

use crate::byteops::{splice, subrange_to_vec};
use crate::checksum::{checksum_matches, spec_checksum_ok, spec_with_checksum,
    write_page_checksum};
use crate::error::StorageError;
use crate::header::{DatabaseHeader, spec_header_page};
use crate::types::{PAGE_SIZE, PageId};

verus! {

/// A zero page with a valid trailing checksum: the image of every freshly
/// allocated page.
pub open spec fn spec_fresh_page() -> Seq<u8> {
    spec_with_checksum(Seq::new(PAGE_SIZE as nat, |i: int| 0u8))
}

/// The image of page `id` inside a file image.
pub open spec fn spec_page_of(file: Seq<u8>, id: PageId) -> Seq<u8> {
    file.subrange(id * PAGE_SIZE, id * PAGE_SIZE + PAGE_SIZE)
}

/// A non-empty file image of whole pages whose header page passes the
/// checksum: the cases in which opening goes on to parse the header.
pub open spec fn spec_open_readable(file: Seq<u8>) -> bool {
    &&& file.len() != 0
    &&& file.len() % (PAGE_SIZE as nat) == 0
    &&& spec_checksum_ok(spec_page_of(file, 0))
}

/// Reads and writes pages of the database file image.
pub struct DiskManager {
    file: Vec<u8>,
    page_count: u64,
}

impl DiskManager {
    /// The current file image.
    pub closed spec fn spec_file(&self) -> Seq<u8> {
        self.file@
    }

    /// The number of pages in the file, the header page included.
    pub closed spec fn spec_page_count(&self) -> u64 {
        self.page_count
    }

    /// The disk manager's invariant: the file is exactly `page_count` pages
    /// long and holds at least the header page.
    pub open spec fn wf(&self) -> bool {
        &&& self.spec_file().len() == self.spec_page_count() * PAGE_SIZE
        &&& self.spec_page_count() >= 1
        &&& self.spec_file().len() <= usize::MAX
    }

    /// Returns the number of pages in the file.
    pub fn page_count(&self) -> (r: u64)
        ensures
            r == self.spec_page_count(),
    {
        self.page_count
    }

    /// Consumes the disk manager and hands back the file image.
    pub fn into_file(self) -> (r: Vec<u8>)
        ensures
            r@ == self.spec_file(),
    {
        self.file
    }

    /// A borrowed view of the file image.
    pub fn file_bytes(&self) -> (r: &Vec<u8>)
        ensures
            r@ == self.spec_file(),
    {
        &self.file
    }

    /// Opens a database file image with create-if-missing semantics.
    ///
    /// An empty image becomes a fresh single-page database. A non-empty one
    /// is rejected unless its length is a whole number of pages, its header
    /// page passes the checksum, and the parsed header cross-checks against
    /// the derived page count; the count of a valid file is always its
    /// length divided by the page size.
    pub fn open(file: Vec<u8>) -> (r: Result<DiskManager, StorageError>)
        ensures
            file@.len() == 0 ==> (r matches Ok(dm) && dm.wf() && dm.spec_page_count() == 1
                && dm.spec_file() == spec_header_page(
                DatabaseHeader { page_size: PAGE_SIZE as u16, page_count: 1 },
            )),
            file@.len() != 0 && file@.len() % (PAGE_SIZE as nat) != 0 ==> r == Err::<
                DiskManager,
                StorageError,
            >(StorageError::InvalidFileSize(file@.len() as u64)),
            file@.len() != 0 && file@.len() % (PAGE_SIZE as nat) == 0 && !spec_checksum_ok(
                spec_page_of(file@, 0),
            ) ==> r == Err::<DiskManager, StorageError>(StorageError::InvalidPageChecksum(0)),
            (r matches Ok(dm) ==> dm.wf() && dm.spec_page_count() * PAGE_SIZE
                == dm.spec_file().len()),
            file@.len() != 0 ==> (r matches Ok(dm) ==> dm.spec_file() == file@
                && dm.spec_page_count() == file@.len() / (PAGE_SIZE as nat)),
            spec_open_readable(file@) ==> {
                let pg0 = spec_page_of(file@, 0);
                &&& pg0.subrange(0, crate::header::MAGIC_SIZE as int) != crate::header::spec_magic()
                    ==> r == Err::<DiskManager, StorageError>(
                    StorageError::InvalidDatabaseHeader("invalid magic"),
                )
                &&& pg0.subrange(0, crate::header::MAGIC_SIZE as int)
                    == crate::header::spec_magic() && crate::header::spec_stored_page_size(pg0)
                    != PAGE_SIZE ==> r == Err::<DiskManager, StorageError>(
                    StorageError::InvalidDatabaseHeader("invalid page size"),
                )
                &&& pg0.subrange(0, crate::header::MAGIC_SIZE as int)
                    == crate::header::spec_magic() && crate::header::spec_stored_page_size(pg0)
                    == PAGE_SIZE && crate::header::spec_stored_page_count(pg0) == 0 ==> r == Err::<
                    DiskManager,
                    StorageError,
                >(StorageError::InvalidDatabaseHeader("page count must be at least one"))
                &&& pg0.subrange(0, crate::header::MAGIC_SIZE as int)
                    == crate::header::spec_magic() && crate::header::spec_stored_page_size(pg0)
                    == PAGE_SIZE && crate::header::spec_stored_page_count(pg0) != 0
                    && crate::header::spec_stored_page_count(pg0) != file@.len() / (
                PAGE_SIZE as nat) ==> r == Err::<DiskManager, StorageError>(
                    StorageError::InvalidDatabaseHeader("page count does not match file size"),
                )
                &&& pg0.subrange(0, crate::header::MAGIC_SIZE as int)
                    == crate::header::spec_magic() && crate::header::spec_stored_page_size(pg0)
                    == PAGE_SIZE && crate::header::spec_stored_page_count(pg0) == file@.len() / (
                PAGE_SIZE as nat) ==> r is Ok
            },
    {
        let len = file.len();
        if len == 0 {
            let mut header_page: Vec<u8> = Vec::new();
            header_page.resize(PAGE_SIZE, 0u8);
            DatabaseHeader::init_new(&mut header_page);
            let dm = DiskManager { file: header_page, page_count: 1 };
            proof {
                assert(dm.spec_file().len() == 1 * PAGE_SIZE);
            }
            return Ok(dm);
        }
        if len % PAGE_SIZE != 0 {
            return Err(StorageError::InvalidFileSize(len as u64));
        }
        let page_count = (len / PAGE_SIZE) as u64;
        proof {
            assert(page_count * PAGE_SIZE == file@.len()) by (nonlinear_arith)
                requires
                    page_count == file@.len() as int / (PAGE_SIZE as int),
                    file@.len() % (PAGE_SIZE as nat) == 0,
                    file@.len() > 0,
            ;
        }
        let header_page = subrange_to_vec(&file, 0, PAGE_SIZE);
        proof {
            assert(header_page@ =~= spec_page_of(file@, 0));
        }
        if !checksum_matches(&header_page) {
            return Err(StorageError::InvalidPageChecksum(0));
        }
        let header = match DatabaseHeader::read(&header_page) {
            Ok(h) => h,
            Err(e) => {
                return Err(e);
            },
        };
        match header.validate(page_count) {
            Ok(()) => {},
            Err(e) => {
                return Err(e);
            },
        }
        Ok(DiskManager { file, page_count })
    }

    /// Extends the file by one zeroed, checksummed page, updates the header
    /// page to the new count, and returns the id of the new page, which
    /// equals the old page count.
    pub fn new_page(&mut self) -> (r: Result<PageId, StorageError>)
        requires
            old(self).wf(),
            old(self).spec_page_count() * PAGE_SIZE + PAGE_SIZE <= usize::MAX,
        ensures
            final(self).wf(),
            r == Ok::<PageId, StorageError>(old(self).spec_page_count()),
            final(self).spec_page_count() == old(self).spec_page_count() + 1,
            final(self).spec_file() == splice(
                old(self).spec_file() + spec_fresh_page(),
                0,
                spec_header_page(
                    DatabaseHeader {
                        page_size: PAGE_SIZE as u16,
                        page_count: (old(self).spec_page_count() + 1) as u64,
                    },
                ),
            ),
    {
        let page_id = self.page_count;
        let mut fresh: Vec<u8> = Vec::new();
        fresh.resize(PAGE_SIZE, 0u8);
        proof {
            assert(fresh@ =~= Seq::new(PAGE_SIZE as nat, |i: int| 0u8));
        }
        write_page_checksum(&mut fresh);
        proof {
            assert(fresh@ == spec_fresh_page());
            assert((self.page_count + 1) * PAGE_SIZE == self.page_count * PAGE_SIZE + PAGE_SIZE)
                by (nonlinear_arith);
        }
        let ghost extended = self.file@ + fresh@;
        self.file.append(&mut fresh);
        self.page_count = self.page_count + 1;
        let header = DatabaseHeader::new(self.page_count);
        let mut header_page = subrange_to_vec(&self.file, 0, PAGE_SIZE);
        header.write(&mut header_page);
        crate::byteops::copy_into(&mut self.file, 0, header_page.as_slice());
        proof {
            assert(self.spec_file() =~= splice(
                extended,
                0,
                spec_header_page(
                    DatabaseHeader { page_size: PAGE_SIZE as u16, page_count: self.page_count },
                ),
            ));
        }
        Ok(page_id)
    }

    /// Reads page `page_id`, failing with `InvalidPageId` on an out-of-range
    /// id and `InvalidPageChecksum` when the stored page fails verification;
    /// otherwise the stored page bytes come back unchanged.
    pub fn read_page(&self, page_id: PageId) -> (r: Result<Vec<u8>, StorageError>)
        requires
            self.wf(),
        ensures
            page_id >= self.spec_page_count() ==> r == Err::<Vec<u8>, StorageError>(
                StorageError::InvalidPageId(page_id),
            ),
            page_id < self.spec_page_count() && !spec_checksum_ok(
                spec_page_of(self.spec_file(), page_id),
            ) ==> r == Err::<Vec<u8>, StorageError>(StorageError::InvalidPageChecksum(page_id)),
            page_id < self.spec_page_count() && spec_checksum_ok(
                spec_page_of(self.spec_file(), page_id),
            ) ==> (r matches Ok(page) && page@ == spec_page_of(self.spec_file(), page_id)),
    {
        if page_id >= self.page_count {
            return Err(StorageError::InvalidPageId(page_id));
        }
        proof {
            lemma_page_bounds(self.spec_file().len() as int, self.spec_page_count() as int, page_id as int);
        }
        let offset = (page_id as usize) * PAGE_SIZE;
        let page = subrange_to_vec(&self.file, offset, offset + PAGE_SIZE);
        if !checksum_matches(&page) {
            return Err(StorageError::InvalidPageChecksum(page_id));
        }
        Ok(page)
    }

    /// Writes the caller's bytes to page `page_id`, overwriting the trailing
    /// checksum field with the recomputed checksum, so that callers cannot
    /// inject arbitrary checksum bytes. Fails with `InvalidPageId` on an
    /// out-of-range id, leaving the file untouched.
    pub fn write_page(&mut self, page_id: PageId, buf: &Vec<u8>) -> (r: Result<(), StorageError>)
        requires
            old(self).wf(),
            buf@.len() == PAGE_SIZE,
        ensures
            final(self).wf(),
            final(self).spec_page_count() == old(self).spec_page_count(),
            page_id >= old(self).spec_page_count() ==> r == Err::<(), StorageError>(
                StorageError::InvalidPageId(page_id),
            ) && final(self).spec_file() == old(self).spec_file(),
            page_id < old(self).spec_page_count() ==> r == Ok::<(), StorageError>(())
                && final(self).spec_file() == splice(
                old(self).spec_file(),
                page_id * PAGE_SIZE,
                spec_with_checksum(buf@),
            ),
    {
        if page_id >= self.page_count {
            return Err(StorageError::InvalidPageId(page_id));
        }
        proof {
            lemma_page_bounds(self.spec_file().len() as int, self.spec_page_count() as int, page_id as int);
        }
        let mut canonical = subrange_to_vec(buf, 0, PAGE_SIZE);
        proof {
            assert(canonical@ =~= buf@);
        }
        write_page_checksum(&mut canonical);
        let offset = (page_id as usize) * PAGE_SIZE;
        crate::byteops::copy_into(&mut self.file, offset, canonical.as_slice());
        Ok(())
    }
}

/// A page strictly below the page count lies wholly inside the file.
proof fn lemma_page_bounds(file_len: int, page_count: int, page_id: int)
    requires
        file_len == page_count * PAGE_SIZE,
        0 <= page_id < page_count,
    ensures
        page_id * PAGE_SIZE + PAGE_SIZE <= file_len,
        page_id * PAGE_SIZE >= 0,
{
    assert(page_id * PAGE_SIZE + PAGE_SIZE <= page_count * PAGE_SIZE) by (nonlinear_arith)
        requires
            page_id < page_count,
    ;
    assert(page_id * PAGE_SIZE >= 0) by (nonlinear_arith)
        requires
            page_id >= 0,
    ;
}

/// Reading a page back after writing it returns the written bytes up to the
/// checksum field, with the trailing four bytes recomputed, whatever was
/// there before: the write/read round trip.
pub proof fn lemma_write_read_round_trip(file: Seq<u8>, page_count: u64, page_id: PageId, buf: Seq<u8>)
    requires
        file.len() == page_count * PAGE_SIZE,
        page_id < page_count,
        buf.len() == PAGE_SIZE,
    ensures
        spec_page_of(splice(file, page_id * PAGE_SIZE, spec_with_checksum(buf)), page_id)
            == spec_with_checksum(buf),
        spec_checksum_ok(spec_with_checksum(buf)),
        spec_with_checksum(buf).take(crate::checksum::PAGE_DATA_END as int) == buf.take(
            crate::checksum::PAGE_DATA_END as int,
        ),
{
    lemma_page_bounds(file.len() as int, page_count as int, page_id as int);
    crate::checksum::lemma_with_checksum_ok(buf);
    assert(spec_page_of(splice(file, page_id * PAGE_SIZE, spec_with_checksum(buf)), page_id)
        =~= spec_with_checksum(buf));
}

/// Writing one page leaves every other page of the file unchanged.
pub proof fn lemma_write_preserves_other_pages(
    file: Seq<u8>,
    page_count: u64,
    page_id: PageId,
    other: PageId,
    buf: Seq<u8>,
)
    requires
        file.len() == page_count * PAGE_SIZE,
        page_id < page_count,
        other < page_count,
        other != page_id,
        buf.len() == PAGE_SIZE,
    ensures
        spec_page_of(splice(file, page_id * PAGE_SIZE, spec_with_checksum(buf)), other)
            == spec_page_of(file, other),
{
    lemma_page_bounds(file.len() as int, page_count as int, page_id as int);
    lemma_page_bounds(file.len() as int, page_count as int, other as int);
    crate::checksum::lemma_with_checksum_ok(buf);
    if other < page_id {
        assert((other + 1) * PAGE_SIZE <= page_id * PAGE_SIZE) by (nonlinear_arith)
            requires
                other < page_id,
        ;
        assert(other * PAGE_SIZE + PAGE_SIZE == (other + 1) * PAGE_SIZE) by (nonlinear_arith);
    } else {
        assert(page_id * PAGE_SIZE + PAGE_SIZE <= other * PAGE_SIZE) by (nonlinear_arith)
            requires
                page_id < other,
        ;
    }
    assert(spec_page_of(splice(file, page_id * PAGE_SIZE, spec_with_checksum(buf)), other)
        =~= spec_page_of(file, other));
}


/// After the file grows by one fresh page and the header page is rewritten,
/// the new page reads back as the zero page with a valid checksum.
pub proof fn lemma_fresh_page_readable(file: Seq<u8>, pc: u64)
    requires
        file.len() == pc * PAGE_SIZE,
        pc >= 1,
    ensures
        ({
            let nf = splice(
                file + spec_fresh_page(),
                0,
                spec_header_page(
                    DatabaseHeader { page_size: PAGE_SIZE as u16, page_count: (pc + 1) as u64 },
                ),
            );
            spec_page_of(nf, pc) == spec_fresh_page() && spec_checksum_ok(spec_fresh_page())
        }),
{
    let zeros = Seq::new(PAGE_SIZE as nat, |i: int| 0u8);
    crate::checksum::lemma_with_checksum_ok(zeros);
    let nf = splice(
        file + spec_fresh_page(),
        0,
        spec_header_page(
            DatabaseHeader { page_size: PAGE_SIZE as u16, page_count: (pc + 1) as u64 },
        ),
    );
    assert(spec_fresh_page().len() == PAGE_SIZE);
    assert(pc * PAGE_SIZE >= 1 * PAGE_SIZE) by (nonlinear_arith)
        requires
            pc >= 1,
    ;
    assert(spec_page_of(nf, pc) =~= spec_fresh_page());
}

} // verus!
