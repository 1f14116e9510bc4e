//! Shared slotted-page layout: the fixed header, the slot directory growing
//! upward, and the cell-content region growing downward.

use vstd::prelude::*;

use crate::byteops::{read_u16_at, splice, write_u16_at, zero_fill};
use crate::error::TablePageError;
use crate::types::PAGE_SIZE;
use vstd::bytes::{spec_u16_from_le_bytes, spec_u16_to_le_bytes};

verus! {

/// Page-type byte of a leaf table page.
pub const LEAF_PAGE_TYPE: u8 = 1;

/// Page-type byte of an interior table page.
pub const INTERIOR_PAGE_TYPE: u8 = 2;

/// Fixed header size of a leaf table page.
pub const LEAF_HEADER_SIZE: usize = 8;

/// Fixed header size of an interior table page.
pub const INTERIOR_HEADER_SIZE: usize = 16;

/// Offset of the rightmost-child pointer inside an interior page header.
pub const INTERIOR_RIGHTMOST_CHILD_OFFSET: usize = 8;

/// Offset of the page-type byte.
pub const PAGE_TYPE_OFFSET: usize = 0;

/// Offset of the cell-count field.
pub const CELL_COUNT_OFFSET: usize = 2;

/// Offset of the content-start field.
pub const CONTENT_START_OFFSET: usize = 4;

/// Width of one slot-directory entry.
pub const SLOT_WIDTH: usize = 2;

/// Static properties of one table-page kind used by the shared layout.
#[derive(Debug, Clone, Copy, PartialEq, Eq, Structural)]
pub struct PageSpec {
    /// Discriminant written into the page-type header byte.
    pub page_type: u8,
    /// Total size of the fixed header before the slot directory starts.
    pub header_size: usize,
}

/// Space accounting returned when append-at-end allocation cannot fit a cell.
#[derive(Debug, Clone, Copy, PartialEq, Eq, Structural)]
pub struct SpaceError {
    /// Bytes required by the requested write.
    pub needed: usize,
    /// Bytes currently available in the unallocated region.
    pub available: usize,
}

/// Row-id lookup result: either the matching slot or the sorted insertion
/// index.
#[derive(Debug, Clone, Copy, PartialEq, Eq, Structural)]
pub enum SearchResult {
    /// The row id exists and maps to this slot index.
    Found(u16),
    /// The row id does not exist; the payload is the sorted insertion index.
    NotFound(u16),
}

/// Whether a page spec has room for its own header fields inside the page.
pub open spec fn spec_valid_spec(s: PageSpec) -> bool {
    CONTENT_START_OFFSET + SLOT_WIDTH <= s.header_size <= PAGE_SIZE
}

/// The page-type byte of a page image.
pub open spec fn spec_page_type(page: Seq<u8>) -> u8 {
    page[PAGE_TYPE_OFFSET as int]
}

/// The cell count stored in a page image.
pub open spec fn spec_cell_count(page: Seq<u8>) -> u16 {
    spec_u16_from_le_bytes(page.subrange(CELL_COUNT_OFFSET as int, CELL_COUNT_OFFSET + 2))
}

/// The content-start offset stored in a page image.
pub open spec fn spec_content_start(page: Seq<u8>) -> u16 {
    spec_u16_from_le_bytes(page.subrange(CONTENT_START_OFFSET as int, CONTENT_START_OFFSET + 2))
}

/// Byte position of slot `i` inside the slot directory.
pub open spec fn spec_slot_pos(s: PageSpec, i: int) -> int {
    s.header_size + SLOT_WIDTH * i
}

/// The cell offset stored in slot `i`.
pub open spec fn spec_slot_offset(page: Seq<u8>, s: PageSpec, i: int) -> u16 {
    spec_u16_from_le_bytes(page.subrange(spec_slot_pos(s, i), spec_slot_pos(s, i) + 2))
}

/// Where the slot directory ends for `count` slots.
pub open spec fn spec_slot_dir_end(s: PageSpec, count: int) -> int {
    s.header_size + SLOT_WIDTH * count
}

/// The layout invariant of a slotted page: right type byte, and the slot
/// directory and content region in bounds and disjoint.
pub open spec fn spec_layout_wf(page: Seq<u8>, s: PageSpec) -> bool {
    &&& page.len() == PAGE_SIZE
    &&& spec_valid_spec(s)
    &&& spec_page_type(page) == s.page_type
    &&& spec_slot_dir_end(s, spec_cell_count(page) as int) <= spec_content_start(page) as int
    &&& spec_content_start(page) as int <= PAGE_SIZE
}

/// The image of a freshly initialized page of kind `s`: zeros, the type
/// byte, no cells, and the content start at the page end.
pub open spec fn spec_init_page(s: PageSpec) -> Seq<u8> {
    splice(
        splice(
            splice(
                Seq::new(PAGE_SIZE as nat, |i: int| 0u8),
                PAGE_TYPE_OFFSET as int,
                seq![s.page_type],
            ),
            CELL_COUNT_OFFSET as int,
            spec_u16_to_le_bytes(0),
        ),
        CONTENT_START_OFFSET as int,
        spec_u16_to_le_bytes(PAGE_SIZE as u16),
    )
}

/// A fresh page is well formed, with no cells and all space free.
pub proof fn lemma_init_page_wf(s: PageSpec)
    requires
        spec_valid_spec(s),
    ensures
        spec_layout_wf(spec_init_page(s), s),
        spec_cell_count(spec_init_page(s)) == 0,
        spec_content_start(spec_init_page(s)) == PAGE_SIZE,
{
    let page = spec_init_page(s);
    vstd::bytes::lemma_auto_spec_u16_to_from_le_bytes();
    assert(page.subrange(CELL_COUNT_OFFSET as int, CELL_COUNT_OFFSET + 2) =~= spec_u16_to_le_bytes(
        0,
    ));
    assert(page.subrange(CONTENT_START_OFFSET as int, CONTENT_START_OFFSET + 2)
        =~= spec_u16_to_le_bytes(PAGE_SIZE as u16));
}

/// Returns the raw page type byte from the fixed page header.
pub fn page_type(page: &Vec<u8>) -> (r: u8)
    requires
        page@.len() == PAGE_SIZE,
    ensures
        r == spec_page_type(page@),
{
    page[PAGE_TYPE_OFFSET]
}

/// Returns the number of slot entries currently stored in the page header.
pub fn cell_count(page: &Vec<u8>) -> (r: u16)
    requires
        page@.len() == PAGE_SIZE,
    ensures
        r == spec_cell_count(page@),
{
    read_u16_at(page, CELL_COUNT_OFFSET)
}

/// Returns the offset where the cell-content region currently begins.
pub fn content_start(page: &Vec<u8>) -> (r: u16)
    requires
        page@.len() == PAGE_SIZE,
    ensures
        r == spec_content_start(page@),
{
    read_u16_at(page, CONTENT_START_OFFSET)
}

/// Validates static constraints for a `PageSpec`.
fn validate_spec(s: PageSpec) -> (r: Result<(), TablePageError>)
    ensures
        spec_valid_spec(s) <==> r == Ok::<(), TablePageError>(()),
        !spec_valid_spec(s) ==> r == Err::<(), TablePageError>(
            TablePageError::CorruptPage("invalid page header size"),
        ),
{
    if s.header_size < CONTENT_START_OFFSET + SLOT_WIDTH || s.header_size > PAGE_SIZE {
        return Err(TablePageError::CorruptPage("invalid page header size"));
    }
    Ok(())
}

/// Initializes `page` as an empty instance of the page kind described by `s`.
pub fn init_empty(page: &mut Vec<u8>, s: PageSpec) -> (r: Result<(), TablePageError>)
    requires
        old(page)@.len() == PAGE_SIZE,
    ensures
        !spec_valid_spec(s) ==> r == Err::<(), TablePageError>(
            TablePageError::CorruptPage("invalid page header size"),
        ) && final(page)@ == old(page)@,
        spec_valid_spec(s) ==> r == Ok::<(), TablePageError>(()) && final(page)@ == spec_init_page(
            s,
        ) && spec_layout_wf(final(page)@, s),
{
    match validate_spec(s) {
        Ok(()) => {},
        Err(e) => {
            return Err(e);
        },
    }
    zero_fill(page);
    page[PAGE_TYPE_OFFSET] = s.page_type;
    write_u16_at(page, CELL_COUNT_OFFSET, 0);
    write_u16_at(page, CONTENT_START_OFFSET, PAGE_SIZE as u16);
    proof {
        assert(page@ =~= spec_init_page(s));
        lemma_init_page_wf(s);
    }
    Ok(())
}

/// Validates that `page` matches `s` and has internally consistent header
/// bounds: exactly the layout invariant.
pub fn validate(page: &Vec<u8>, s: PageSpec) -> (r: Result<(), TablePageError>)
    requires
        page@.len() == PAGE_SIZE,
    ensures
        r is Ok <==> spec_layout_wf(page@, s),
        !spec_valid_spec(s) ==> r == Err::<(), TablePageError>(
            TablePageError::CorruptPage("invalid page header size"),
        ),
        spec_valid_spec(s) && spec_page_type(page@) != s.page_type ==> r == Err::<
            (),
            TablePageError,
        >(TablePageError::InvalidPageType(spec_page_type(page@))),
        spec_valid_spec(s) && spec_page_type(page@) == s.page_type && spec_slot_dir_end(
            s,
            spec_cell_count(page@) as int,
        ) > PAGE_SIZE ==> r == Err::<(), TablePageError>(
            TablePageError::CorruptPage("slot directory exceeds page size"),
        ),
        spec_valid_spec(s) && spec_page_type(page@) == s.page_type && spec_slot_dir_end(
            s,
            spec_cell_count(page@) as int,
        ) <= PAGE_SIZE && !spec_layout_wf(page@, s) ==> r == Err::<(), TablePageError>(
            TablePageError::CorruptPage("invalid cell content start"),
        ),
{
    match validate_spec(s) {
        Ok(()) => {},
        Err(e) => {
            return Err(e);
        },
    }
    let ptype = page_type(page);
    if ptype != s.page_type {
        return Err(TablePageError::InvalidPageType(ptype));
    }
    let count = cell_count(page) as usize;
    let slot_dir_end = s.header_size + SLOT_WIDTH * count;
    if slot_dir_end > PAGE_SIZE {
        return Err(TablePageError::CorruptPage("slot directory exceeds page size"));
    }
    let start = content_start(page) as usize;
    if start < slot_dir_end || start > PAGE_SIZE {
        return Err(TablePageError::CorruptPage("invalid cell content start"));
    }
    Ok(())
}

/// Returns free bytes between the slot directory end and the cell-content
/// start.
pub fn free_space(page: &Vec<u8>, s: PageSpec) -> (r: Result<usize, TablePageError>)
    requires
        page@.len() == PAGE_SIZE,
    ensures
        r is Ok <==> spec_layout_wf(page@, s),
        spec_layout_wf(page@, s) ==> r == Ok::<usize, TablePageError>(
            (spec_content_start(page@) as int - spec_slot_dir_end(
                s,
                spec_cell_count(page@) as int,
            )) as usize,
        ),
{
    match validate(page, s) {
        Ok(()) => {},
        Err(e) => {
            return Err(e);
        },
    }
    let count = cell_count(page) as usize;
    let slot_dir_end = s.header_size + SLOT_WIDTH * count;
    let start = content_start(page) as usize;
    Ok(start - slot_dir_end)
}

/// Reads the cell-content offset stored in slot `slot_index`.
pub fn slot_offset(page: &Vec<u8>, s: PageSpec, slot_index: u16) -> (r: u16)
    requires
        spec_layout_wf(page@, s),
        slot_index < spec_cell_count(page@),
    ensures
        r == spec_slot_offset(page@, s, slot_index as int),
{
    proof {
        lemma_slot_pos_in_bounds(page@, s, slot_index as int);
    }
    read_u16_at(page, s.header_size + SLOT_WIDTH * (slot_index as usize))
}

/// A slot below the cell count lies inside the slot directory, which lies
/// inside the page.
pub proof fn lemma_slot_pos_in_bounds(page: Seq<u8>, s: PageSpec, i: int)
    requires
        spec_layout_wf(page, s),
        0 <= i < spec_cell_count(page),
    ensures
        s.header_size <= spec_slot_pos(s, i),
        spec_slot_pos(s, i) + 2 <= spec_slot_dir_end(s, spec_cell_count(page) as int),
        spec_slot_dir_end(s, spec_cell_count(page) as int) <= PAGE_SIZE,
{
    assert(SLOT_WIDTH * i + 2 <= SLOT_WIDTH * (spec_cell_count(page) as int)) by (nonlinear_arith)
        requires
            i + 1 <= spec_cell_count(page) as int,
    ;
    assert(SLOT_WIDTH * i >= 0) by (nonlinear_arith)
        requires
            i >= 0,
    ;
}

/// Writes `cell_offset` into slot `slot_index`; the header fields, the other
/// slots, and the content region keep their bytes.
pub fn set_slot_offset_raw(page: &mut Vec<u8>, s: PageSpec, slot_index: usize, cell_offset: u16)
    requires
        old(page)@.len() == PAGE_SIZE,
        spec_valid_spec(s),
        spec_slot_pos(s, slot_index as int) + 2 <= PAGE_SIZE,
    ensures
        final(page)@ == splice(
            old(page)@,
            spec_slot_pos(s, slot_index as int),
            spec_u16_to_le_bytes(cell_offset),
        ),
        final(page)@.len() == PAGE_SIZE,
        spec_slot_offset(final(page)@, s, slot_index as int) == cell_offset,
        spec_page_type(final(page)@) == spec_page_type(old(page)@),
        spec_cell_count(final(page)@) == spec_cell_count(old(page)@),
        spec_content_start(final(page)@) == spec_content_start(old(page)@),
        forall|j: int|
            0 <= j && j != slot_index && spec_slot_pos(s, j) + 2 <= PAGE_SIZE
                ==> spec_slot_offset(final(page)@, s, j) == spec_slot_offset(old(page)@, s, j),
        forall|i: int|
            0 <= i < PAGE_SIZE && !(spec_slot_pos(s, slot_index as int) <= i < spec_slot_pos(
                s,
                slot_index as int,
            ) + 2) ==> final(page)@[i] == old(page)@[i],
{
    write_u16_at(page, s.header_size + SLOT_WIDTH * slot_index, cell_offset);
    proof {
        vstd::bytes::lemma_auto_spec_u16_to_from_le_bytes();
        let p = spec_slot_pos(s, slot_index as int);
        assert(page@.subrange(p, p + 2) =~= spec_u16_to_le_bytes(cell_offset));
        assert(page@.subrange(CELL_COUNT_OFFSET as int, CELL_COUNT_OFFSET + 2) =~= old(page)@.subrange(CELL_COUNT_OFFSET as int, CELL_COUNT_OFFSET + 2));
        assert(page@.subrange(CONTENT_START_OFFSET as int, CONTENT_START_OFFSET + 2) =~= old(page)@.subrange(CONTENT_START_OFFSET as int, CONTENT_START_OFFSET + 2));
        assert forall|j: int|
            0 <= j && j != slot_index && spec_slot_pos(s, j) + 2 <= PAGE_SIZE
                implies spec_slot_offset(page@, s, j) == spec_slot_offset(old(page)@, s, j) by {
            assert(SLOT_WIDTH * j >= 0);
            if j < slot_index {
                assert(SLOT_WIDTH * j + 2 <= SLOT_WIDTH * (slot_index as int)) by (nonlinear_arith)
                    requires
                        j < slot_index as int,
                ;
            } else {
                assert(SLOT_WIDTH * (slot_index as int) + 2 <= SLOT_WIDTH * j) by (nonlinear_arith)
                    requires
                        (slot_index as int) < j,
                ;
            }
            assert(page@.subrange(spec_slot_pos(s, j), spec_slot_pos(s, j) + 2) =~= old(page)@.subrange(spec_slot_pos(s, j), spec_slot_pos(s, j) + 2));
        }
    }
}

/// Updates an existing slot to reference `cell_offset`.
///
/// Fails when `slot_index` is not a live slot; otherwise only that slot's
/// bytes change.
pub fn set_slot_offset(page: &mut Vec<u8>, s: PageSpec, slot_index: u16, cell_offset: u16) -> (r:
    Result<(), TablePageError>)
    requires
        old(page)@.len() == PAGE_SIZE,
        spec_layout_wf(old(page)@, s),
    ensures
        slot_index >= spec_cell_count(old(page)@) ==> r == Err::<(), TablePageError>(
            TablePageError::CorruptPage("slot index out of bounds"),
        ) && final(page)@ == old(page)@,
        slot_index < spec_cell_count(old(page)@) ==> r == Ok::<(), TablePageError>(()) && final(page)@ == splice(
            old(page)@,
            spec_slot_pos(s, slot_index as int),
            spec_u16_to_le_bytes(cell_offset),
        ) && spec_layout_wf(final(page)@, s),
{
    let count = cell_count(page);
    if slot_index >= count {
        return Err(TablePageError::CorruptPage("slot index out of bounds"));
    }
    proof {
        lemma_slot_pos_in_bounds(page@, s, slot_index as int);
    }
    set_slot_offset_raw(page, s, slot_index as usize, cell_offset);
    Ok(())
}

/// Inserts a new slot at `insert_index` pointing at `cell_offset`, shifting
/// the slots at and above it up by one and incrementing the cell count.
///
/// The header fields other than the cell count, the slots below
/// `insert_index`, and the whole content region keep their bytes.
pub fn insert_slot(page: &mut Vec<u8>, s: PageSpec, insert_index: u16, cell_offset: u16) -> (r:
    Result<(), TablePageError>)
    requires
        spec_layout_wf(old(page)@, s),
    ensures
        insert_index > spec_cell_count(old(page)@) ==> r == Err::<(), TablePageError>(
            TablePageError::CorruptPage("slot index out of bounds"),
        ) && final(page)@ == old(page)@,
        insert_index <= spec_cell_count(old(page)@) && spec_slot_dir_end(
            s,
            spec_cell_count(old(page)@) + 1,
        ) > PAGE_SIZE ==> r == Err::<(), TablePageError>(
            TablePageError::CorruptPage("slot directory exceeds page size"),
        ) && final(page)@ == old(page)@,
        insert_index <= spec_cell_count(old(page)@) && spec_slot_dir_end(
            s,
            spec_cell_count(old(page)@) + 1,
        ) <= PAGE_SIZE && spec_slot_dir_end(s, spec_cell_count(old(page)@) + 1)
            > spec_content_start(old(page)@) ==> r == Err::<(), TablePageError>(
            TablePageError::CorruptPage("slot directory overlaps cell content"),
        ) && final(page)@ == old(page)@,
        insert_index <= spec_cell_count(old(page)@) && spec_slot_dir_end(
            s,
            spec_cell_count(old(page)@) + 1,
        ) <= spec_content_start(old(page)@) ==> {
            let f = final(page)@;
            let o = old(page)@;
            let cc = spec_cell_count(o) as int;
            &&& r == Ok::<(), TablePageError>(())
            &&& spec_layout_wf(f, s)
            &&& spec_cell_count(f) == cc + 1
            &&& spec_content_start(f) == spec_content_start(o)
            &&& spec_page_type(f) == spec_page_type(o)
            &&& forall|j: int|
                0 <= j < insert_index ==> spec_slot_offset(f, s, j) == spec_slot_offset(o, s, j)
            &&& spec_slot_offset(f, s, insert_index as int) == cell_offset
            &&& forall|j: int|
                insert_index < j <= cc ==> spec_slot_offset(f, s, j) == spec_slot_offset(
                    o,
                    s,
                    j - 1,
                )
            &&& f.subrange(spec_content_start(o) as int, PAGE_SIZE as int) == o.subrange(
                spec_content_start(o) as int,
                PAGE_SIZE as int,
            )
            &&& forall|i: int|
                0 <= i < s.header_size && !(CELL_COUNT_OFFSET <= i < CELL_COUNT_OFFSET + 2)
                    ==> f[i] == o[i]
        },
{
    let ghost o = old(page)@;
    let count = cell_count(page);
    let count_us = count as usize;
    if insert_index > count {
        return Err(TablePageError::CorruptPage("slot index out of bounds"));
    }
    let sde_after = s.header_size + SLOT_WIDTH * (count_us + 1);
    if sde_after > PAGE_SIZE {
        return Err(TablePageError::CorruptPage("slot directory exceeds page size"));
    }
    let start = content_start(page) as usize;
    if sde_after > start {
        return Err(TablePageError::CorruptPage("slot directory overlaps cell content"));
    }
    proof {
        assert(SLOT_WIDTH * (count_us + 1) == SLOT_WIDTH * count_us + SLOT_WIDTH);
        assert(forall|j: int|
            0 <= j <= count_us ==> (#[trigger] spec_slot_pos(s, j)) + 2 <= spec_slot_dir_end(
                s,
                count_us + 1,
            )) by {
            assert forall|j: int| 0 <= j <= count_us implies (#[trigger] spec_slot_pos(s, j)) + 2
                <= spec_slot_dir_end(s, count_us + 1) by {
                assert(SLOT_WIDTH * j + 2 <= SLOT_WIDTH * (count_us + 1)) by (nonlinear_arith)
                    requires
                        j < count_us + 1,
                ;
            }
        }
    }
    let mut j: usize = count_us;
    while j > insert_index as usize
        invariant
            spec_layout_wf(o, s),
            insert_index <= count_us == spec_cell_count(o),
            insert_index as usize <= j <= count_us,
            spec_slot_dir_end(s, count_us + 1) <= spec_content_start(o) <= PAGE_SIZE,
            forall|i: int|
                0 <= i <= count_us ==> (#[trigger] spec_slot_pos(s, i)) + 2 <= spec_slot_dir_end(
                    s,
                    count_us + 1,
                ),
            page@.len() == PAGE_SIZE,
            spec_cell_count(page@) == spec_cell_count(o),
            spec_content_start(page@) == spec_content_start(o),
            spec_page_type(page@) == spec_page_type(o),
            forall|i: int| 0 <= i <= j ==> spec_slot_offset(page@, s, i) == spec_slot_offset(o, s, i),
            forall|i: int|
                j < i <= count_us ==> spec_slot_offset(page@, s, i) == spec_slot_offset(o, s, i - 1),
            forall|i: int|
                spec_content_start(o) <= i < PAGE_SIZE ==> page@[i] == o[i],
            forall|i: int|
                0 <= i < s.header_size && !(CELL_COUNT_OFFSET <= i < CELL_COUNT_OFFSET + 2)
                    ==> page@[i] == o[i],
        decreases j,
    {
        let off = slot_offset_for_shift(page, s, j - 1, Ghost(o));
        set_slot_offset_raw(page, s, j, off);
        j = j - 1;
    }
    let ghost after_shift = page@;
    set_slot_offset_raw(page, s, insert_index as usize, cell_offset);
    let ghost before_count = page@;
    proof {
        assert forall|jj: int| insert_index < jj <= count_us implies spec_slot_offset(
            before_count,
            s,
            jj,
        ) == spec_slot_offset(o, s, jj - 1) by {
            assert(spec_slot_pos(s, jj) + 2 <= PAGE_SIZE);
            assert(spec_slot_offset(before_count, s, jj) == spec_slot_offset(after_shift, s, jj));
        }
        assert forall|jj: int| 0 <= jj < insert_index implies spec_slot_offset(
            before_count,
            s,
            jj,
        ) == spec_slot_offset(o, s, jj) by {
            assert(spec_slot_pos(s, jj) + 2 <= PAGE_SIZE);
            assert(spec_slot_offset(before_count, s, jj) == spec_slot_offset(after_shift, s, jj));
        }
    }
    write_u16_at(page, CELL_COUNT_OFFSET, count + 1);
    proof {
        vstd::bytes::lemma_auto_spec_u16_to_from_le_bytes();
        assert(page@.subrange(CELL_COUNT_OFFSET as int, CELL_COUNT_OFFSET + 2)
            =~= spec_u16_to_le_bytes((count + 1) as u16));
        assert(page@.subrange(CONTENT_START_OFFSET as int, CONTENT_START_OFFSET + 2)
            =~= before_count.subrange(CONTENT_START_OFFSET as int, CONTENT_START_OFFSET + 2));
        assert forall|i: int| 0 <= i <= count_us implies spec_slot_offset(page@, s, i)
            == spec_slot_offset(before_count, s, i) by {
            assert(spec_slot_pos(s, i) >= s.header_size >= CELL_COUNT_OFFSET + 2) by (nonlinear_arith)
                requires
                    i >= 0,
                    s.header_size >= CONTENT_START_OFFSET + SLOT_WIDTH,
            ;
            assert(page@.subrange(spec_slot_pos(s, i), spec_slot_pos(s, i) + 2)
                =~= before_count.subrange(spec_slot_pos(s, i), spec_slot_pos(s, i) + 2));
        }
        assert(page@.subrange(spec_content_start(o) as int, PAGE_SIZE as int) =~= o.subrange(
            spec_content_start(o) as int,
            PAGE_SIZE as int,
        ));
        assert forall|jj: int| insert_index < jj <= count_us implies spec_slot_offset(
            page@,
            s,
            jj,
        ) == spec_slot_offset(o, s, jj - 1) by {
            assert(spec_slot_offset(page@, s, jj) == spec_slot_offset(before_count, s, jj));
            assert(spec_slot_offset(before_count, s, jj) == spec_slot_offset(o, s, jj - 1));
        }
    }
    Ok(())
}

/// Reads a live slot during a shift; spelled out so the loop can pass the
/// ghost pre-state along.
fn slot_offset_for_shift(page: &Vec<u8>, s: PageSpec, i: usize, Ghost(o): Ghost<Seq<u8>>) -> (r:
    u16)
    requires
        page@.len() == PAGE_SIZE,
        spec_valid_spec(s),
        spec_slot_pos(s, i as int) + 2 <= PAGE_SIZE,
    ensures
        r == spec_slot_offset(page@, s, i as int),
{
    read_u16_at(page, s.header_size + SLOT_WIDTH * i)
}

/// Removes the slot at `remove_index`, shifting the following slots down by
/// one, zero-filling the vacated last slot, and decrementing the cell count.
pub fn remove_slot(page: &mut Vec<u8>, s: PageSpec, remove_index: u16) -> (r: Result<
    (),
    TablePageError,
>)
    requires
        spec_layout_wf(old(page)@, s),
    ensures
        remove_index >= spec_cell_count(old(page)@) ==> r == Err::<(), TablePageError>(
            TablePageError::CorruptPage("slot index out of bounds"),
        ) && final(page)@ == old(page)@,
        remove_index < spec_cell_count(old(page)@) ==> {
            let f = final(page)@;
            let o = old(page)@;
            let cc = spec_cell_count(o) as int;
            &&& r == Ok::<(), TablePageError>(())
            &&& spec_layout_wf(f, s)
            &&& spec_cell_count(f) == cc - 1
            &&& spec_content_start(f) == spec_content_start(o)
            &&& spec_page_type(f) == spec_page_type(o)
            &&& forall|j: int|
                0 <= j < remove_index ==> spec_slot_offset(f, s, j) == spec_slot_offset(o, s, j)
            &&& forall|j: int|
                remove_index <= j < cc - 1 ==> spec_slot_offset(f, s, j) == spec_slot_offset(
                    o,
                    s,
                    j + 1,
                )
            &&& f.subrange(spec_content_start(o) as int, PAGE_SIZE as int) == o.subrange(
                spec_content_start(o) as int,
                PAGE_SIZE as int,
            )
            &&& forall|i: int|
                0 <= i < s.header_size && !(CELL_COUNT_OFFSET <= i < CELL_COUNT_OFFSET + 2)
                    ==> f[i] == o[i]
        },
{
    let ghost o = old(page)@;
    let count = cell_count(page);
    let count_us = count as usize;
    if remove_index >= count {
        return Err(TablePageError::CorruptPage("slot index out of bounds"));
    }
    proof {
        assert(forall|j: int|
            0 <= j < count_us ==> (#[trigger] spec_slot_pos(s, j)) + 2 <= spec_slot_dir_end(
                s,
                count_us as int,
            )) by {
            assert forall|j: int| 0 <= j < count_us implies (#[trigger] spec_slot_pos(s, j)) + 2
                <= spec_slot_dir_end(s, count_us as int) by {
                assert(SLOT_WIDTH * j + 2 <= SLOT_WIDTH * (count_us as int)) by (nonlinear_arith)
                    requires
                        j < count_us as int,
                ;
            }
        }
    }
    let mut j: usize = remove_index as usize;
    while j < count_us - 1
        invariant
            spec_layout_wf(o, s),
            remove_index < count_us == spec_cell_count(o),
            remove_index as usize <= j <= count_us - 1,
            forall|i: int|
                0 <= i < count_us ==> (#[trigger] spec_slot_pos(s, i)) + 2 <= spec_slot_dir_end(
                    s,
                    count_us as int,
                ),
            spec_slot_dir_end(s, count_us as int) <= spec_content_start(o) <= PAGE_SIZE,
            page@.len() == PAGE_SIZE,
            spec_cell_count(page@) == spec_cell_count(o),
            spec_content_start(page@) == spec_content_start(o),
            spec_page_type(page@) == spec_page_type(o),
            forall|i: int| 0 <= i < remove_index ==> spec_slot_offset(page@, s, i) == spec_slot_offset(o, s, i),
            forall|i: int|
                remove_index <= i < j ==> spec_slot_offset(page@, s, i) == spec_slot_offset(
                    o,
                    s,
                    i + 1,
                ),
            forall|i: int|
                j <= i < count_us ==> spec_slot_offset(page@, s, i) == spec_slot_offset(o, s, i),
            forall|i: int|
                spec_content_start(o) <= i < PAGE_SIZE ==> page@[i] == o[i],
            forall|i: int|
                0 <= i < s.header_size && !(CELL_COUNT_OFFSET <= i < CELL_COUNT_OFFSET + 2)
                    ==> page@[i] == o[i],
        decreases count_us - j,
    {
        let off = slot_offset_for_shift(page, s, j + 1, Ghost(o));
        set_slot_offset_raw(page, s, j, off);
        j = j + 1;
    }
    let ghost after_shift = page@;
    set_slot_offset_raw(page, s, count_us - 1, 0);
    let ghost before_count = page@;
    proof {
        assert forall|jj: int| 0 <= jj < count_us - 1 implies spec_slot_offset(
            before_count,
            s,
            jj,
        ) == spec_slot_offset(after_shift, s, jj) by {
            assert(spec_slot_pos(s, jj) + 2 <= PAGE_SIZE);
        }
        assert forall|jj: int| remove_index <= jj < count_us - 1 implies spec_slot_offset(
            before_count,
            s,
            jj,
        ) == spec_slot_offset(o, s, jj + 1) by {
            assert(spec_slot_offset(after_shift, s, jj) == spec_slot_offset(o, s, jj + 1));
        }
    }
    write_u16_at(page, CELL_COUNT_OFFSET, count - 1);
    proof {
        vstd::bytes::lemma_auto_spec_u16_to_from_le_bytes();
        assert(page@.subrange(CELL_COUNT_OFFSET as int, CELL_COUNT_OFFSET + 2)
            =~= spec_u16_to_le_bytes((count - 1) as u16));
        assert(page@.subrange(CONTENT_START_OFFSET as int, CONTENT_START_OFFSET + 2)
            =~= before_count.subrange(CONTENT_START_OFFSET as int, CONTENT_START_OFFSET + 2));
        assert forall|i: int| 0 <= i < count_us - 1 implies spec_slot_offset(page@, s, i)
            == spec_slot_offset(before_count, s, i) by {
            assert(spec_slot_pos(s, i) >= s.header_size >= CELL_COUNT_OFFSET + 2) by (nonlinear_arith)
                requires
                    i >= 0,
                    s.header_size >= CONTENT_START_OFFSET + SLOT_WIDTH,
            ;
            assert(page@.subrange(spec_slot_pos(s, i), spec_slot_pos(s, i) + 2)
                =~= before_count.subrange(spec_slot_pos(s, i), spec_slot_pos(s, i) + 2));
        }
        assert(page@.subrange(spec_content_start(o) as int, PAGE_SIZE as int) =~= o.subrange(
            spec_content_start(o) as int,
            PAGE_SIZE as int,
        ));
        assert(SLOT_WIDTH * (count_us as int - 1) + 2 == SLOT_WIDTH * (count_us as int)) by (nonlinear_arith);
        assert forall|jj: int| remove_index <= jj < count_us - 1 implies spec_slot_offset(
            page@,
            s,
            jj,
        ) == spec_slot_offset(o, s, jj + 1) by {
            assert(spec_slot_offset(page@, s, jj) == spec_slot_offset(before_count, s, jj));
            assert(spec_slot_offset(before_count, s, jj) == spec_slot_offset(o, s, jj + 1));
        }
    }
    Ok(())
}

/// Everything `try_append_cell_inner` promises, as one predicate over the
/// pre-state `o`, the post-state `f`, the cell, the number of extra slot
/// entries reserved, and the result.
pub open spec fn spec_try_append_post(
    o: Seq<u8>,
    f: Seq<u8>,
    s: PageSpec,
    cell: Seq<u8>,
    extra_slots: int,
    r: Result<Result<u16, SpaceError>, TablePageError>,
) -> bool {
    &&& spec_slot_dir_end(s, spec_cell_count(o) + extra_slots) > PAGE_SIZE ==> r == Err::<
        Result<u16, SpaceError>,
        TablePageError,
    >(TablePageError::CorruptPage("slot directory exceeds page size")) && f == o
    &&& spec_slot_dir_end(s, spec_cell_count(o) + extra_slots) <= PAGE_SIZE ==> {
        let cs = spec_content_start(o) as int;
        let sde = spec_slot_dir_end(s, spec_cell_count(o) + extra_slots);
        let available = if cs >= sde {
            cs - sde
        } else {
            0
        };
        if cell.len() > available {
            r == Ok::<Result<u16, SpaceError>, TablePageError>(
                Err(SpaceError { needed: cell.len() as usize, available: available as usize }),
            ) && f == o
        } else {
            {
                let new_start = cs - cell.len();
                &&& r == Ok::<Result<u16, SpaceError>, TablePageError>(Ok(new_start as u16))
                &&& spec_layout_wf(f, s)
                &&& spec_cell_count(f) == spec_cell_count(o)
                &&& spec_content_start(f) == new_start
                &&& spec_page_type(f) == spec_page_type(o)
                &&& f.subrange(new_start, new_start + cell.len()) == cell
                &&& f.subrange(cs, PAGE_SIZE as int) == o.subrange(cs, PAGE_SIZE as int)
                &&& forall|j: int|
                    0 <= j && spec_slot_pos(s, j) + 2 <= new_start ==> spec_slot_offset(f, s, j)
                        == spec_slot_offset(o, s, j)
                &&& forall|i: int|
                    0 <= i < s.header_size && !(CONTENT_START_OFFSET <= i < CONTENT_START_OFFSET
                        + 2) ==> f[i] == o[i]
            }
        }
    }
}

/// Reserves `cell.len()` bytes at the low end of the content region, with
/// `extra_slots` further slot-directory entries counted against the free
/// space, and copies the cell in. On success the content start drops by the
/// cell length and everything outside the new cell and the content-start
/// field keeps its bytes; on a space shortfall the page is untouched.
pub fn try_append_cell_inner(page: &mut Vec<u8>, s: PageSpec, cell: &[u8], extra_slots: usize) -> (
    r: Result<Result<u16, SpaceError>, TablePageError>)
    requires
        spec_layout_wf(old(page)@, s),
        extra_slots <= 1,
    ensures
        spec_try_append_post(old(page)@, final(page)@, s, cell@, extra_slots as int, r),
{
    let ghost o = old(page)@;
    let cell_len = cell.len();
    let count = cell_count(page) as usize;
    let sde = s.header_size + SLOT_WIDTH * (count + extra_slots);
    proof {
        assert(SLOT_WIDTH * (count + extra_slots) <= SLOT_WIDTH * count + 2);
        assert(SLOT_WIDTH * (count + extra_slots) >= 0) by (nonlinear_arith)
            requires
                count + extra_slots >= 0,
        ;
    }
    if sde > PAGE_SIZE {
        return Err(TablePageError::CorruptPage("slot directory exceeds page size"));
    }
    let start = content_start(page) as usize;
    let available = if start >= sde {
        start - sde
    } else {
        0
    };
    if cell_len > available {
        return Ok(Err(SpaceError { needed: cell_len, available }));
    }
    let new_start = start - cell_len;
    crate::byteops::copy_into(page, new_start, cell);
    write_u16_at(page, CONTENT_START_OFFSET, new_start as u16);
    proof {
        vstd::bytes::lemma_auto_spec_u16_to_from_le_bytes();
        let f = page@;
        let csi = start as int;
        let ns = new_start as int;
        assert(f.subrange(CONTENT_START_OFFSET as int, CONTENT_START_OFFSET + 2)
            =~= spec_u16_to_le_bytes(new_start as u16));
        assert(f.subrange(CELL_COUNT_OFFSET as int, CELL_COUNT_OFFSET + 2) =~= o.subrange(
            CELL_COUNT_OFFSET as int,
            CELL_COUNT_OFFSET + 2,
        ));
        assert(f.subrange(ns, ns + cell@.len()) =~= cell@);
        assert(f.subrange(csi, PAGE_SIZE as int) =~= o.subrange(csi, PAGE_SIZE as int));
        assert forall|j: int| 0 <= j && spec_slot_pos(s, j) + 2 <= ns implies spec_slot_offset(
            f,
            s,
            j,
        ) == spec_slot_offset(o, s, j) by {
            assert(spec_slot_pos(s, j) >= s.header_size) by (nonlinear_arith)
                requires
                    j >= 0,
            ;
            assert(f.subrange(spec_slot_pos(s, j), spec_slot_pos(s, j) + 2) =~= o.subrange(
                spec_slot_pos(s, j),
                spec_slot_pos(s, j) + 2,
            ));
        }
    }
    Ok(Ok(new_start as u16))
}

/// Attempts to append a pre-encoded cell into the cell-content region.
pub fn try_append_cell(page: &mut Vec<u8>, s: PageSpec, cell: &[u8]) -> (r: Result<
    Result<u16, SpaceError>,
    TablePageError,
>)
    requires
        spec_layout_wf(old(page)@, s),
    ensures
        spec_try_append_post(old(page)@, final(page)@, s, cell@, 0, r),
{
    try_append_cell_inner(page, s, cell, 0)
}

/// Attempts to append a pre-encoded cell while reserving one additional slot
/// entry against the free space.
pub fn try_append_cell_for_insert(page: &mut Vec<u8>, s: PageSpec, cell: &[u8]) -> (r: Result<
    Result<u16, SpaceError>,
    TablePageError,
>)
    requires
        spec_layout_wf(old(page)@, s),
    ensures
        spec_try_append_post(old(page)@, final(page)@, s, cell@, 1, r),
{
    try_append_cell_inner(page, s, cell, 1)
}

} // verus!
