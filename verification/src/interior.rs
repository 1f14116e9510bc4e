//! Interior table pages: fixed-size `(leftChild, rowId)` separator cells in
//! ascending row-id order, plus a rightmost-child pointer in the header.

use vstd::prelude::*;

use crate::byteops::{read_u64_at, splice, write_u64_at};
use crate::error::TablePageError;
use crate::layout::{self, PageSpec, SearchResult, spec_cell_count, spec_content_start,
    spec_layout_wf, spec_slot_dir_end, spec_slot_offset, INTERIOR_HEADER_SIZE,
    INTERIOR_PAGE_TYPE, INTERIOR_RIGHTMOST_CHILD_OFFSET};
use crate::leaf::{lemma_lower_bound_le, lemma_lower_bound_props, lemma_lower_bound_unique,
    spec_lower_bound};
use crate::types::{PAGE_SIZE, PageId, RowId};
use vstd::bytes::{spec_u64_from_le_bytes, spec_u64_to_le_bytes};

verus! {

/// Width of one interior cell: left child then separator row id.
pub const INTERIOR_CELL_SIZE: usize = 16;

/// Width of the left-child field.
pub const LEFT_CHILD_SIZE: usize = 8;

/// Decoded interior cell mapping a separator key to its left child page.
#[derive(Debug, Clone, Copy, PartialEq, Eq, Structural)]
pub struct InteriorCell {
    /// Child page id for keys at or below `row_id` in this separator cell.
    pub left_child: PageId,
    /// Separator row id for this interior cell.
    pub row_id: RowId,
}

/// The page spec of an interior page.
pub open spec fn spec_interior_spec() -> PageSpec {
    PageSpec { page_type: INTERIOR_PAGE_TYPE, header_size: INTERIOR_HEADER_SIZE as usize }
}

/// Returns the interior page spec.
pub fn interior_spec() -> (s: PageSpec)
    ensures
        s == spec_interior_spec(),
{
    PageSpec { page_type: INTERIOR_PAGE_TYPE, header_size: INTERIOR_HEADER_SIZE }
}

/// The left child stored in the cell at `off`.
pub open spec fn spec_icell_child(page: Seq<u8>, off: int) -> PageId {
    spec_u64_from_le_bytes(page.subrange(off, off + 8))
}

/// The separator row id stored in the cell at `off`.
pub open spec fn spec_icell_rid(page: Seq<u8>, off: int) -> RowId {
    spec_u64_from_le_bytes(page.subrange(off + 8, off + 16))
}

/// Whether the cell at `off` lies wholly inside the content region.
pub open spec fn spec_icell_wf(page: Seq<u8>, off: int) -> bool {
    &&& spec_content_start(page) <= off
    &&& off + INTERIOR_CELL_SIZE <= PAGE_SIZE
}

/// The cell offset of slot `i` of an interior page.
pub open spec fn spec_islot(page: Seq<u8>, i: int) -> int {
    spec_slot_offset(page, spec_interior_spec(), i) as int
}

/// The separator row id keyed by slot `i`.
pub open spec fn spec_irid(page: Seq<u8>, i: int) -> RowId {
    spec_icell_rid(page, spec_islot(page, i))
}

/// The row ids of an interior page, in slot order.
pub open spec fn spec_irids(page: Seq<u8>) -> Seq<RowId> {
    Seq::new(spec_cell_count(page) as nat, |i: int| spec_irid(page, i))
}

/// One decoded separator cell of an interior page.
pub open spec fn spec_ientry(page: Seq<u8>, i: int) -> InteriorCell {
    InteriorCell {
        left_child: spec_icell_child(page, spec_islot(page, i)),
        row_id: spec_irid(page, i),
    }
}

/// The logical content of an interior page: its separator cells in slot
/// order.
pub open spec fn spec_ientries(page: Seq<u8>) -> Seq<InteriorCell> {
    Seq::new(spec_cell_count(page) as nat, |i: int| spec_ientry(page, i))
}

/// The rightmost-child pointer stored in the header.
pub open spec fn spec_rightmost_child(page: Seq<u8>) -> PageId {
    spec_u64_from_le_bytes(
        page.subrange(
            INTERIOR_RIGHTMOST_CHILD_OFFSET as int,
            INTERIOR_RIGHTMOST_CHILD_OFFSET + 8,
        ),
    )
}

/// The full well-formedness invariant of an interior page.
pub open spec fn spec_interior_wf(page: Seq<u8>) -> bool {
    &&& spec_layout_wf(page, spec_interior_spec())
    &&& forall|i: int|
        0 <= i < spec_cell_count(page) ==> spec_icell_wf(page, #[trigger] spec_islot(page, i))
    &&& forall|i: int, j: int|
        0 <= i < j < spec_cell_count(page) ==> #[trigger] spec_irid(page, i)
            < #[trigger] spec_irid(page, j)
    &&& forall|i: int, j: int|
        0 <= i < spec_cell_count(page) && 0 <= j < spec_cell_count(page) && i != j
            ==> #[trigger] spec_islot(page, i) + INTERIOR_CELL_SIZE <= #[trigger] spec_islot(
            page,
            j,
        ) || spec_islot(page, j) + INTERIOR_CELL_SIZE <= spec_islot(page, i)
    &&& INTERIOR_CELL_SIZE * spec_cell_count(page) <= PAGE_SIZE - spec_content_start(page)
}

/// Whether an interior page holds `rid` as a separator.
pub open spec fn spec_interior_has(page: Seq<u8>, rid: RowId) -> bool {
    {
        let lb = spec_lower_bound(spec_irids(page), rid);
        lb < spec_cell_count(page) && spec_irid(page, lb) == rid
    }
}

/// The child page a search for `rid` descends into: the left child of the
/// first separator at or above `rid`, or the rightmost child when every
/// separator is below it.
pub open spec fn spec_child_for(page: Seq<u8>, rid: RowId) -> PageId {
    {
        let lb = spec_lower_bound(spec_irids(page), rid);
        if lb < spec_cell_count(page) {
            spec_ientry(page, lb).left_child
        } else {
            spec_rightmost_child(page)
        }
    }
}

/// Initializes an empty interior page and seeds the rightmost child pointer.
pub fn init_empty(page: &mut Vec<u8>, rightmost_child: PageId) -> (r: Result<(), TablePageError>)
    requires
        old(page)@.len() == PAGE_SIZE,
    ensures
        r == Ok::<(), TablePageError>(()),
        spec_interior_wf(final(page)@),
        spec_ientries(final(page)@) == Seq::<InteriorCell>::empty(),
        spec_rightmost_child(final(page)@) == rightmost_child,
{
    match layout::init_empty(page, interior_spec()) {
        Ok(()) => {},
        Err(e) => {
            return Err(e);
        },
    }
    let ghost base = page@;
    write_u64_at(page, INTERIOR_RIGHTMOST_CHILD_OFFSET, rightmost_child);
    proof {
        layout::lemma_init_page_wf(spec_interior_spec());
        vstd::bytes::lemma_auto_spec_u64_to_from_le_bytes();
        assert(page@.subrange(
            INTERIOR_RIGHTMOST_CHILD_OFFSET as int,
            INTERIOR_RIGHTMOST_CHILD_OFFSET + 8,
        ) =~= spec_u64_to_le_bytes(rightmost_child));
        assert(page@.subrange(layout::CELL_COUNT_OFFSET as int, layout::CELL_COUNT_OFFSET + 2)
            =~= base.subrange(layout::CELL_COUNT_OFFSET as int, layout::CELL_COUNT_OFFSET + 2));
        assert(page@.subrange(
            layout::CONTENT_START_OFFSET as int,
            layout::CONTENT_START_OFFSET + 2,
        ) =~= base.subrange(
            layout::CONTENT_START_OFFSET as int,
            layout::CONTENT_START_OFFSET + 2,
        ));
        assert(spec_ientries(page@) =~= Seq::<InteriorCell>::empty());
    }
    Ok(())
}

/// Validates `page` as an interior page at the layout level.
pub fn validate(page: &Vec<u8>) -> (r: Result<(), TablePageError>)
    requires
        page@.len() == PAGE_SIZE,
    ensures
        r is Ok <==> spec_layout_wf(page@, spec_interior_spec()),
{
    layout::validate(page, interior_spec())
}

/// Returns the number of separator cells on the page.
pub fn cell_count(page: &Vec<u8>) -> (r: u16)
    requires
        page@.len() == PAGE_SIZE,
    ensures
        r == spec_cell_count(page@),
{
    layout::cell_count(page)
}

/// Returns the page header's rightmost child pointer.
pub fn rightmost_child(page: &Vec<u8>) -> (r: PageId)
    requires
        page@.len() == PAGE_SIZE,
    ensures
        r == spec_rightmost_child(page@),
{
    read_u64_at(page, INTERIOR_RIGHTMOST_CHILD_OFFSET)
}

/// Updates the page header's rightmost child pointer.
pub fn set_rightmost_child(page: &mut Vec<u8>, page_id: PageId) -> (r: Result<(), TablePageError>)
    requires
        old(page)@.len() == PAGE_SIZE,
    ensures
        !spec_layout_wf(old(page)@, spec_interior_spec()) ==> r is Err && final(page)@ == old(
            page,
        )@,
        spec_layout_wf(old(page)@, spec_interior_spec()) ==> {
            &&& r == Ok::<(), TablePageError>(())
            &&& final(page)@ == splice(
                old(page)@,
                INTERIOR_RIGHTMOST_CHILD_OFFSET as int,
                spec_u64_to_le_bytes(page_id),
            )
            &&& spec_rightmost_child(final(page)@) == page_id
        },
        spec_interior_wf(old(page)@) ==> spec_interior_wf(final(page)@) && spec_ientries(
            final(page)@,
        ) == spec_ientries(old(page)@),
{
    match layout::validate(page, interior_spec()) {
        Ok(()) => {},
        Err(e) => {
            return Err(e);
        },
    }
    let ghost o = page@;
    write_u64_at(page, INTERIOR_RIGHTMOST_CHILD_OFFSET, page_id);
    proof {
        vstd::bytes::lemma_auto_spec_u64_to_from_le_bytes();
        let f = page@;
        assert(f.subrange(
            INTERIOR_RIGHTMOST_CHILD_OFFSET as int,
            INTERIOR_RIGHTMOST_CHILD_OFFSET + 8,
        ) =~= spec_u64_to_le_bytes(page_id));
        assert(f.subrange(layout::CELL_COUNT_OFFSET as int, layout::CELL_COUNT_OFFSET + 2)
            =~= o.subrange(layout::CELL_COUNT_OFFSET as int, layout::CELL_COUNT_OFFSET + 2));
        assert(f.subrange(layout::CONTENT_START_OFFSET as int, layout::CONTENT_START_OFFSET + 2)
            =~= o.subrange(layout::CONTENT_START_OFFSET as int, layout::CONTENT_START_OFFSET + 2));
        if spec_interior_wf(o) {
            lemma_interior_body_agree(o, f);
            assert(spec_ientries(f) =~= spec_ientries(o));
            assert forall|j: int| 0 <= j < spec_cell_count(f) implies spec_icell_wf(
                f,
                #[trigger] spec_islot(f, j),
            ) by {
                assert(spec_icell_wf(o, spec_islot(o, j)));
            }
            assert forall|i: int, j: int| 0 <= i < j < spec_cell_count(f) implies
                #[trigger] spec_irid(f, i) < #[trigger] spec_irid(f, j) by {
                assert(spec_ientry(f, i) == spec_ientry(o, i));
                assert(spec_ientry(f, j) == spec_ientry(o, j));
            }
        }
    }
    Ok(())
}

/// Two equal-length interior pages that agree above the rightmost-child
/// field decode the same slots and cells.
proof fn lemma_interior_body_agree(o: Seq<u8>, f: Seq<u8>)
    requires
        spec_interior_wf(o),
        f.len() == PAGE_SIZE,
        spec_cell_count(f) == spec_cell_count(o),
        spec_content_start(f) == spec_content_start(o),
        forall|i: int|
            INTERIOR_HEADER_SIZE <= i < PAGE_SIZE ==> f[i] == o[i],
    ensures
        forall|j: int|
            0 <= j < spec_cell_count(o) ==> #[trigger] spec_islot(f, j) == spec_islot(o, j),
        forall|j: int|
            0 <= j < spec_cell_count(o) ==> #[trigger] spec_ientry(f, j) == spec_ientry(o, j),
{
    let sp = spec_interior_spec();
    assert forall|j: int| 0 <= j < spec_cell_count(o) implies #[trigger] spec_islot(f, j)
        == spec_islot(o, j) by {
        layout::lemma_slot_pos_in_bounds(o, sp, j);
        assert(layout::SLOT_WIDTH * j >= 0) by (nonlinear_arith)
            requires
                j >= 0,
        ;
        assert(f.subrange(layout::spec_slot_pos(sp, j), layout::spec_slot_pos(sp, j) + 2)
            =~= o.subrange(layout::spec_slot_pos(sp, j), layout::spec_slot_pos(sp, j) + 2));
    }
    assert forall|j: int| 0 <= j < spec_cell_count(o) implies #[trigger] spec_ientry(f, j)
        == spec_ientry(o, j) by {
        assert(spec_icell_wf(o, spec_islot(o, j)));
        let off = spec_islot(o, j);
        assert(off >= spec_content_start(o) >= spec_slot_dir_end(
            sp,
            spec_cell_count(o) as int,
        ) >= INTERIOR_HEADER_SIZE) by {
            assert(layout::SLOT_WIDTH * (spec_cell_count(o) as int) >= 0) by (nonlinear_arith)
                requires
                    spec_cell_count(o) >= 0,
            ;
        }
        assert(f.subrange(off, off + 8) =~= o.subrange(off, off + 8));
        assert(f.subrange(off + 8, off + 16) =~= o.subrange(off + 8, off + 16));
    }
}

/// Finds the slot holding `row_id`, or the sorted index where it would be
/// inserted, by binary search over the slot directory.
fn find_interior_slot(page: &Vec<u8>, row_id: RowId) -> (r: Result<SearchResult, TablePageError>)
    requires
        spec_layout_wf(page@, spec_interior_spec()),
    ensures
        spec_interior_wf(page@) ==> {
            let lb = spec_lower_bound(spec_irids(page@), row_id);
            if spec_interior_has(page@, row_id) {
                r == Ok::<SearchResult, TablePageError>(SearchResult::Found(lb as u16))
            } else {
                r == Ok::<SearchResult, TablePageError>(SearchResult::NotFound(lb as u16))
            }
        },
        forall|i: u16| r == Ok::<SearchResult, TablePageError>(SearchResult::Found(i)) ==> i
            < spec_cell_count(page@),
        forall|i: u16| r == Ok::<SearchResult, TablePageError>(SearchResult::NotFound(i)) ==> i
            <= spec_cell_count(page@),
{
    let s = interior_spec();
    let count = layout::cell_count(page) as usize;
    let start = layout::content_start(page) as usize;
    let ghost rids = spec_irids(page@);
    proof {
        if spec_interior_wf(page@) {
            lemma_lower_bound_props(rids, row_id);
        }
    }
    let mut left: usize = 0;
    let mut right: usize = count;
    while left < right
        invariant
            spec_layout_wf(page@, spec_interior_spec()),
            s == spec_interior_spec(),
            count == spec_cell_count(page@),
            start == spec_content_start(page@),
            0 <= left <= right <= count,
            rids == spec_irids(page@),
            spec_interior_wf(page@) ==> forall|i: int| 0 <= i < left ==> rids[i] < row_id,
            spec_interior_wf(page@) ==> forall|i: int| right <= i < count ==> rids[i] > row_id,
        decreases right - left,
    {
        let mid = left + (right - left) / 2;
        let off = layout::slot_offset(page, s, mid as u16) as usize;
        proof {
            if spec_interior_wf(page@) {
                assert(spec_icell_wf(page@, spec_islot(page@, mid as int)));
            }
        }
        if off < start || off >= PAGE_SIZE || off + INTERIOR_CELL_SIZE > PAGE_SIZE {
            return Err(TablePageError::CorruptCell { slot_index: mid as u16 });
        }
        let mid_rid = read_u64_at(page, off + LEFT_CHILD_SIZE);
        proof {
            if spec_interior_wf(page@) {
                assert(mid_rid == spec_irid(page@, mid as int));
            }
        }
        if mid_rid < row_id {
            left = mid + 1;
        } else if mid_rid > row_id {
            right = mid;
        } else {
            proof {
                if spec_interior_wf(page@) {
                    assert(forall|i: int, j: int|
                        0 <= i < j < count ==> #[trigger] rids[i] < #[trigger] rids[j]) by {
                        assert(forall|i: int, j: int|
                            0 <= i < j < spec_cell_count(page@) ==> #[trigger] spec_irid(page@, i)
                                < #[trigger] spec_irid(page@, j));
                    }
                    assert(forall|i: int| 0 <= i < mid ==> rids[i] < rids[mid as int]);
                    assert(forall|i: int| mid < i < count ==> rids[mid as int] < rids[i]);
                    lemma_lower_bound_unique(rids, row_id, mid as int);
                }
            }
            return Ok(SearchResult::Found(mid as u16));
        }
    }
    proof {
        if spec_interior_wf(page@) {
            assert(forall|i: int, j: int|
                0 <= i < j < count ==> #[trigger] rids[i] < #[trigger] rids[j]) by {
                assert(forall|i: int, j: int|
                    0 <= i < j < spec_cell_count(page@) ==> #[trigger] spec_irid(page@, i)
                        < #[trigger] spec_irid(page@, j));
            }
            lemma_lower_bound_unique(rids, row_id, left as int);
            if left < count {
                assert(rids[left as int] > row_id);
            }
        }
    }
    Ok(SearchResult::NotFound(left as u16))
}

/// Looks up a separator cell by row id.
pub fn search(page: &Vec<u8>, row_id: RowId) -> (r: Result<Option<InteriorCell>, TablePageError>)
    requires
        page@.len() == PAGE_SIZE,
    ensures
        spec_interior_wf(page@) ==> match r {
            Ok(Some(cell)) => spec_interior_has(page@, row_id) && cell == spec_ientry(
                page@,
                spec_lower_bound(spec_irids(page@), row_id),
            ),
            Ok(None) => !spec_interior_has(page@, row_id),
            Err(_) => false,
        },
        !spec_layout_wf(page@, spec_interior_spec()) ==> r is Err,
{
    match layout::validate(page, interior_spec()) {
        Ok(()) => {},
        Err(e) => {
            return Err(e);
        },
    }
    let slot_index = match find_interior_slot(page, row_id)? {
        SearchResult::Found(i) => i,
        SearchResult::NotFound(_) => {
            return Ok(None);
        },
    };
    let off = layout::slot_offset(page, interior_spec(), slot_index) as usize;
    let start = layout::content_start(page) as usize;
    proof {
        if spec_interior_wf(page@) {
            assert(spec_icell_wf(page@, spec_islot(page@, slot_index as int)));
            lemma_lower_bound_le(spec_irids(page@), row_id);
        }
    }
    if off < start || off >= PAGE_SIZE || off + INTERIOR_CELL_SIZE > PAGE_SIZE {
        return Err(TablePageError::CorruptCell { slot_index });
    }
    let left_child = read_u64_at(page, off);
    let rid = read_u64_at(page, off + LEFT_CHILD_SIZE);
    Ok(Some(InteriorCell { left_child, row_id: rid }))
}

/// Returns the child page id to descend into for `row_id`.
///
/// This uses the first separator key that is greater than or equal to
/// `row_id`; if no such separator exists, the header's rightmost child is
/// returned.
pub fn child_for_row_id(page: &Vec<u8>, row_id: RowId) -> (r: Result<PageId, TablePageError>)
    requires
        page@.len() == PAGE_SIZE,
    ensures
        spec_interior_wf(page@) ==> r == Ok::<PageId, TablePageError>(
            spec_child_for(page@, row_id),
        ),
        !spec_layout_wf(page@, spec_interior_spec()) ==> r is Err,
{
    match layout::validate(page, interior_spec()) {
        Ok(()) => {},
        Err(e) => {
            return Err(e);
        },
    }
    let count = layout::cell_count(page);
    let slot_index = match find_interior_slot(page, row_id)? {
        SearchResult::Found(i) => i,
        SearchResult::NotFound(i) => i,
    };
    proof {
        if spec_interior_wf(page@) {
            lemma_lower_bound_le(spec_irids(page@), row_id);
        }
    }
    if slot_index < count {
        let off = layout::slot_offset(page, interior_spec(), slot_index) as usize;
        let start = layout::content_start(page) as usize;
        proof {
            if spec_interior_wf(page@) {
                assert(spec_icell_wf(page@, spec_islot(page@, slot_index as int)));
            }
        }
        if off < start || off >= PAGE_SIZE || off + INTERIOR_CELL_SIZE > PAGE_SIZE {
            return Err(TablePageError::CorruptCell { slot_index });
        }
        let left_child = read_u64_at(page, off);
        Ok(left_child)
    } else {
        Ok(rightmost_child(page))
    }
}

/// Returns free bytes between the slot directory and cell-content region.
pub fn free_space(page: &Vec<u8>) -> (r: Result<usize, TablePageError>)
    requires
        page@.len() == PAGE_SIZE,
    ensures
        r is Ok <==> spec_layout_wf(page@, spec_interior_spec()),
        spec_layout_wf(page@, spec_interior_spec()) ==> r == Ok::<usize, TablePageError>(
            (spec_content_start(page@) - spec_slot_dir_end(
                spec_interior_spec(),
                spec_cell_count(page@) as int,
            )) as usize,
        ),
{
    layout::free_space(page, interior_spec())
}


/// The encoded form of an interior cell: left child then separator row id.
pub open spec fn spec_encode_icell(cell: InteriorCell) -> Seq<u8> {
    spec_u64_to_le_bytes(cell.left_child) + spec_u64_to_le_bytes(cell.row_id)
}

/// Builds the encoded form of an interior cell.
fn encode_icell(left_child: PageId, row_id: RowId) -> (r: Vec<u8>)
    ensures
        r@ == spec_encode_icell(InteriorCell { left_child, row_id }),
        r@.len() == INTERIOR_CELL_SIZE,
{
    let mut cell = vstd::bytes::u64_to_le_bytes(left_child);
    let mut rid_bytes = vstd::bytes::u64_to_le_bytes(row_id);
    cell.append(&mut rid_bytes);
    proof {
        assert(cell@ =~= spec_encode_icell(InteriorCell { left_child, row_id }));
    }
    cell
}

/// Reading a cell whose bytes are an encoded interior cell gives back the
/// fields that were encoded.
proof fn lemma_decode_encoded_icell(f: Seq<u8>, off: int, cell: InteriorCell)
    requires
        f.len() == PAGE_SIZE,
        0 <= off,
        off + INTERIOR_CELL_SIZE <= PAGE_SIZE,
        f.subrange(off, off + INTERIOR_CELL_SIZE) == spec_encode_icell(cell),
    ensures
        spec_icell_child(f, off) == cell.left_child,
        spec_icell_rid(f, off) == cell.row_id,
{
    let enc = spec_encode_icell(cell);
    vstd::bytes::lemma_auto_spec_u64_to_from_le_bytes();
    assert(f.subrange(off, off + 8) =~= enc.subrange(0, 8));
    assert(enc.subrange(0, 8) =~= spec_u64_to_le_bytes(cell.left_child));
    assert(f.subrange(off + 8, off + 16) =~= enc.subrange(8, 16));
    assert(enc.subrange(8, 16) =~= spec_u64_to_le_bytes(cell.row_id));
}

/// Two equal-length pages that agree on an interior cell's bytes decode it
/// alike.
proof fn lemma_icell_agree(p1: Seq<u8>, p2: Seq<u8>, off: int)
    requires
        p1.len() == PAGE_SIZE,
        p2.len() == PAGE_SIZE,
        0 <= off,
        off + INTERIOR_CELL_SIZE <= PAGE_SIZE,
        forall|i: int| off <= i < off + INTERIOR_CELL_SIZE ==> p2[i] == p1[i],
    ensures
        spec_icell_child(p2, off) == spec_icell_child(p1, off),
        spec_icell_rid(p2, off) == spec_icell_rid(p1, off),
{
    assert(p2.subrange(off, off + 8) =~= p1.subrange(off, off + 8));
    assert(p2.subrange(off + 8, off + 16) =~= p1.subrange(off + 8, off + 16));
}

/// Under the interior invariant there is always room for one more slot entry
/// in the directory itself.
proof fn lemma_interior_room(page: Seq<u8>)
    requires
        spec_interior_wf(page),
    ensures
        spec_slot_dir_end(spec_interior_spec(), spec_cell_count(page) + 1) <= PAGE_SIZE,
{
    let cc = spec_cell_count(page) as int;
    if cc > 0 {
        assert(spec_icell_wf(page, spec_islot(page, 0)));
        assert(spec_content_start(page) + INTERIOR_CELL_SIZE <= PAGE_SIZE);
    }
}

/// One successful cell append plus slot insert turns a well-formed interior
/// page `p` into a well-formed page `f` whose separators are those of `p`
/// with `cell` inserted at `idx`. The rightmost child is untouched.
#[verifier::spinoff_prover]
#[verifier::rlimit(30)]
proof fn lemma_interior_insert_step(
    p: Seq<u8>,
    p1: Seq<u8>,
    f: Seq<u8>,
    cell: InteriorCell,
    idx: int,
    off: u16,
)
    requires
        spec_interior_wf(p),
        idx == spec_lower_bound(spec_irids(p), cell.row_id),
        !spec_interior_has(p, cell.row_id),
        layout::spec_try_append_post(
            p,
            p1,
            spec_interior_spec(),
            spec_encode_icell(cell),
            1,
            Ok(Ok(off)),
        ),
        spec_slot_dir_end(spec_interior_spec(), spec_cell_count(p) + 1) <= PAGE_SIZE,
        spec_cell_count(f) == spec_cell_count(p) + 1,
        spec_content_start(f) == spec_content_start(p1),
        spec_layout_wf(f, spec_interior_spec()),
        forall|j: int|
            0 <= j < idx ==> #[trigger] spec_slot_offset(f, spec_interior_spec(), j)
                == spec_slot_offset(p1, spec_interior_spec(), j),
        spec_slot_offset(f, spec_interior_spec(), idx) == off,
        forall|j: int|
            idx < j <= spec_cell_count(p) ==> #[trigger] spec_slot_offset(
                f,
                spec_interior_spec(),
                j,
            ) == spec_slot_offset(p1, spec_interior_spec(), j - 1),
        f.subrange(spec_content_start(p1) as int, PAGE_SIZE as int) == p1.subrange(
            spec_content_start(p1) as int,
            PAGE_SIZE as int,
        ),
        forall|i: int|
            0 <= i < spec_interior_spec().header_size && !(layout::CELL_COUNT_OFFSET <= i
                < layout::CELL_COUNT_OFFSET + 2) ==> f[i] == p1[i],
    ensures
        spec_interior_wf(f),
        spec_ientries(f) == spec_ientries(p).insert(idx, cell),
        spec_rightmost_child(f) == spec_rightmost_child(p),
{
    let sp = spec_interior_spec();
    let cc = spec_cell_count(p) as int;
    let cs = spec_content_start(p) as int;
    let cl = INTERIOR_CELL_SIZE as int;
    let ns = cs - cl;
    let enc = spec_encode_icell(cell);
    lemma_lower_bound_props(spec_irids(p), cell.row_id);
    assert(enc.len() == cl) by {
        vstd::bytes::lemma_auto_spec_u64_to_from_le_bytes();
    }
    assert(spec_content_start(p1) == ns);
    assert(off == ns as u16);
    assert forall|i: int| cs <= i < PAGE_SIZE implies p1[i] == p[i] by {
        assert(p1.subrange(cs, PAGE_SIZE as int)[i - cs] == p.subrange(cs, PAGE_SIZE as int)[i
            - cs]);
    }
    assert forall|i: int| ns <= i < PAGE_SIZE implies f[i] == p1[i] by {
        assert(f.subrange(ns, PAGE_SIZE as int)[i - ns] == p1.subrange(ns, PAGE_SIZE as int)[i
            - ns]);
    }
    // the rightmost-child field is below the slot region and untouched
    assert(spec_rightmost_child(f) == spec_rightmost_child(p)) by {
        assert(f.subrange(
            INTERIOR_RIGHTMOST_CHILD_OFFSET as int,
            INTERIOR_RIGHTMOST_CHILD_OFFSET + 8,
        ) =~= p.subrange(
            INTERIOR_RIGHTMOST_CHILD_OFFSET as int,
            INTERIOR_RIGHTMOST_CHILD_OFFSET + 8,
        ));
    }
    assert(f.subrange(ns, ns + cl) =~= enc) by {
        assert(p1.subrange(ns, ns + cl) == enc);
        assert(forall|i: int| ns <= i < ns + cl ==> #[trigger] f[i] == p1[i]);
        assert(f.subrange(ns, ns + cl) =~= p1.subrange(ns, ns + cl));
    }
    lemma_decode_encoded_icell(f, ns, cell);
    assert forall|j: int| 0 <= j < idx implies #[trigger] spec_islot(f, j) == spec_islot(p, j) by {
        assert(layout::spec_slot_pos(sp, j) + 2 <= ns) by {
            assert(layout::SLOT_WIDTH * j + 2 <= layout::SLOT_WIDTH * (cc + 1)) by (nonlinear_arith)
                requires
                    j < cc + 1,
            ;
        }
    }
    assert forall|j: int| idx < j <= cc implies #[trigger] spec_islot(f, j) == spec_islot(
        p,
        j - 1,
    ) by {
        assert(layout::spec_slot_pos(sp, j - 1) + 2 <= ns) by {
            assert(layout::SLOT_WIDTH * (j - 1) + 2 <= layout::SLOT_WIDTH * (cc + 1))
                by (nonlinear_arith)
                requires
                    j - 1 < cc + 1,
            ;
        }
    }
    assert forall|j: int| 0 <= j < cc implies #[trigger] spec_icell_child(f, spec_islot(p, j))
        == spec_icell_child(p, spec_islot(p, j)) && spec_icell_rid(f, spec_islot(p, j))
        == spec_icell_rid(p, spec_islot(p, j)) by {
        assert(spec_icell_wf(p, spec_islot(p, j)));
        lemma_icell_agree(p, f, spec_islot(p, j));
    }
    assert(spec_ientry(f, idx) == cell);
    assert forall|j: int| 0 <= j < idx implies #[trigger] spec_ientry(f, j) == spec_ientry(
        p,
        j,
    ) by {
        assert(spec_icell_wf(p, spec_islot(p, j)));
    }
    assert forall|j: int| idx < j <= cc implies #[trigger] spec_ientry(f, j) == spec_ientry(
        p,
        j - 1,
    ) by {
        assert(spec_icell_wf(p, spec_islot(p, j - 1)));
    }
    assert(spec_ientries(f) =~~= spec_ientries(p).insert(idx, cell));
    assert forall|j: int| 0 <= j < cc + 1 implies spec_icell_wf(
        f,
        #[trigger] spec_islot(f, j),
    ) by {
        if j < idx {
            assert(spec_icell_wf(p, spec_islot(p, j)));
        } else if j == idx {
        } else {
            assert(spec_icell_wf(p, spec_islot(p, j - 1)));
        }
    }
    assert forall|i: int, j: int| 0 <= i < j < cc + 1 implies #[trigger] spec_irid(f, i)
        < #[trigger] spec_irid(f, j) by {
        assert forall|a: int| 0 <= a < idx implies #[trigger] spec_irid(p, a) < cell.row_id by {
            assert(spec_irids(p)[a] == spec_irid(p, a));
        }
        assert forall|a: int| idx <= a < cc implies #[trigger] spec_irid(p, a) >= cell.row_id by {
            assert(spec_irids(p)[a] == spec_irid(p, a));
        }
        assert forall|a: int| idx <= a < cc implies #[trigger] spec_irid(p, a) != cell.row_id by {
            assert(spec_irids(p)[a] == spec_irid(p, a));
            assert(spec_irids(p)[idx] == spec_irid(p, idx));
            if a > idx {
                assert(spec_irid(p, idx) < spec_irid(p, a));
                assert(spec_irid(p, idx) >= cell.row_id);
            }
        }
        assert(spec_irid(f, i) == spec_ientry(f, i).row_id);
        assert(spec_irid(f, j) == spec_ientry(f, j).row_id);
        if i < idx {
            assert(spec_ientry(f, i) == spec_ientry(p, i));
        } else if i == idx {
            assert(spec_ientry(f, idx) == cell);
        } else {
            assert(spec_ientry(f, i) == spec_ientry(p, i - 1));
        }
        if j < idx {
            assert(spec_ientry(f, j) == spec_ientry(p, j));
        } else if j == idx {
            assert(spec_ientry(f, idx) == cell);
        } else {
            assert(spec_ientry(f, j) == spec_ientry(p, j - 1));
        }
        assert(forall|a: int|
            0 <= a < cc ==> #[trigger] spec_ientry(p, a).row_id == spec_irid(p, a));
    }
    assert forall|i: int, j: int|
        0 <= i < cc + 1 && 0 <= j < cc + 1 && i != j implies #[trigger] spec_islot(f, i)
        + INTERIOR_CELL_SIZE <= #[trigger] spec_islot(f, j) || spec_islot(f, j)
        + INTERIOR_CELL_SIZE <= spec_islot(f, i) by {
        if i != idx && j != idx {
            let pi = if i < idx { i } else { i - 1 };
            let pj = if j < idx { j } else { j - 1 };
            assert(spec_islot(p, pi) + INTERIOR_CELL_SIZE <= spec_islot(p, pj) || spec_islot(
                p,
                pj,
            ) + INTERIOR_CELL_SIZE <= spec_islot(p, pi));
        } else if i == idx {
            let pj = if j < idx { j } else { j - 1 };
            assert(spec_icell_wf(p, spec_islot(p, pj)));
            assert(spec_islot(f, i) == ns && ns + INTERIOR_CELL_SIZE == cs);
        } else {
            let pi = if i < idx { i } else { i - 1 };
            assert(spec_icell_wf(p, spec_islot(p, pi)));
            assert(spec_islot(f, j) == ns && ns + INTERIOR_CELL_SIZE == cs);
        }
    }
    assert(INTERIOR_CELL_SIZE * (cc + 1) == INTERIOR_CELL_SIZE * cc + INTERIOR_CELL_SIZE)
        by (nonlinear_arith);
}

/// One interior defragment step (mirrors the leaf version with fixed-size
/// cells): appending the stored copy of cell `k` and adding its slot extends
/// the rebuilt prefix by one entry.
#[verifier::spinoff_prover]
proof fn lemma_idefrag_step(
    o: Seq<u8>,
    p0: Seq<u8>,
    p1: Seq<u8>,
    f: Seq<u8>,
    cells: Seq<Vec<u8>>,
    k: int,
    count: int,
    off: u16,
)
    requires
        spec_interior_wf(o),
        count == spec_cell_count(o),
        0 <= k < count,
        cells.len() == count,
        forall|j: int|
            0 <= j < count ==> (#[trigger] cells[j])@ == o.subrange(
                spec_islot(o, j),
                spec_islot(o, j) + INTERIOR_CELL_SIZE,
            ),
        spec_layout_wf(p0, spec_interior_spec()),
        spec_cell_count(p0) == k,
        spec_content_start(p0) == PAGE_SIZE - INTERIOR_CELL_SIZE * k,
        spec_rightmost_child(p0) == spec_rightmost_child(o),
        forall|j: int| 0 <= j < k ==> #[trigger] spec_ientry(p0, j) == spec_ientry(o, j),
        forall|j: int| 0 <= j < k ==> spec_icell_wf(p0, #[trigger] spec_islot(p0, j)),
        forall|j1: int, j2: int|
            0 <= j1 < j2 < k ==> #[trigger] spec_islot(p0, j2) + INTERIOR_CELL_SIZE
                <= #[trigger] spec_islot(p0, j1),
        layout::spec_try_append_post(
            p0,
            p1,
            spec_interior_spec(),
            cells[k]@,
            1,
            Ok(Ok(off)),
        ),
        spec_cell_count(f) == k + 1,
        spec_content_start(f) == spec_content_start(p1),
        spec_layout_wf(f, spec_interior_spec()),
        forall|j: int|
            0 <= j < k ==> spec_slot_offset(f, spec_interior_spec(), j) == spec_slot_offset(
                p1,
                spec_interior_spec(),
                j,
            ),
        spec_slot_offset(f, spec_interior_spec(), k) == off,
        f.subrange(spec_content_start(p1) as int, PAGE_SIZE as int) == p1.subrange(
            spec_content_start(p1) as int,
            PAGE_SIZE as int,
        ),
        forall|i: int|
            0 <= i < spec_interior_spec().header_size && !(layout::CELL_COUNT_OFFSET <= i
                < layout::CELL_COUNT_OFFSET + 2) ==> f[i] == p1[i],
    ensures
        spec_content_start(f) == PAGE_SIZE - INTERIOR_CELL_SIZE * (k + 1),
        spec_rightmost_child(f) == spec_rightmost_child(o),
        forall|j: int| 0 <= j < k + 1 ==> #[trigger] spec_ientry(f, j) == spec_ientry(o, j),
        forall|j: int| 0 <= j < k + 1 ==> spec_icell_wf(f, #[trigger] spec_islot(f, j)),
        forall|j1: int, j2: int|
            0 <= j1 < j2 < k + 1 ==> #[trigger] spec_islot(f, j2) + INTERIOR_CELL_SIZE
                <= #[trigger] spec_islot(f, j1),
{
    let sp = spec_interior_spec();
    let cs0 = spec_content_start(p0) as int;
    let cl = INTERIOR_CELL_SIZE as int;
    let ns = cs0 - cl;
    assert(spec_icell_wf(o, spec_islot(o, k)));
    assert(cells[k]@.len() == cl);
    assert(off == ns as u16);
    assert(spec_content_start(p1) == ns);
    assert(INTERIOR_CELL_SIZE * (k + 1) == INTERIOR_CELL_SIZE * k + INTERIOR_CELL_SIZE)
        by (nonlinear_arith);
    assert forall|i: int| cs0 <= i < PAGE_SIZE implies p1[i] == p0[i] by {
        assert(p1.subrange(cs0, PAGE_SIZE as int)[i - cs0] == p0.subrange(cs0, PAGE_SIZE as int)[i
            - cs0]);
    }
    assert forall|i: int| ns <= i < PAGE_SIZE implies f[i] == p1[i] by {
        assert(f.subrange(ns, PAGE_SIZE as int)[i - ns] == p1.subrange(ns, PAGE_SIZE as int)[i
            - ns]);
    }
    assert(spec_rightmost_child(f) == spec_rightmost_child(o)) by {
        assert(f.subrange(
            INTERIOR_RIGHTMOST_CHILD_OFFSET as int,
            INTERIOR_RIGHTMOST_CHILD_OFFSET + 8,
        ) =~= p1.subrange(
            INTERIOR_RIGHTMOST_CHILD_OFFSET as int,
            INTERIOR_RIGHTMOST_CHILD_OFFSET + 8,
        ));
        assert(p1.subrange(
            INTERIOR_RIGHTMOST_CHILD_OFFSET as int,
            INTERIOR_RIGHTMOST_CHILD_OFFSET + 8,
        ) =~= p0.subrange(
            INTERIOR_RIGHTMOST_CHILD_OFFSET as int,
            INTERIOR_RIGHTMOST_CHILD_OFFSET + 8,
        ));
    }
    let ok = spec_islot(o, k);
    assert forall|i: int| ns <= i < ns + cl implies p1[i] == cells[k]@[i - ns] by {
        assert(p1.subrange(ns, ns + cl)[i - ns] == cells[k]@[i - ns]);
    }
    assert forall|i: int| 0 <= i < cl implies cells[k]@[i] == o[ok + i] by {
        assert(cells[k]@[i] == o.subrange(ok, ok + cl)[i]);
    }
    assert(spec_icell_child(f, ns) == spec_icell_child(o, ok) && spec_icell_rid(f, ns)
        == spec_icell_rid(o, ok)) by {
        assert(f.subrange(ns, ns + 8) =~= o.subrange(ok, ok + 8));
        assert(f.subrange(ns + 8, ns + 16) =~= o.subrange(ok + 8, ok + 16));
    }
    assert(spec_ientry(f, k) == spec_ientry(o, k));
    assert forall|j: int| 0 <= j < k implies #[trigger] spec_ientry(f, j) == spec_ientry(o, j)
        && spec_icell_wf(f, spec_islot(f, j)) && spec_islot(f, j) == spec_islot(p0, j) by {
        let oj = spec_islot(p0, j);
        assert(spec_icell_wf(p0, oj));
        assert(spec_slot_offset(p1, sp, j) == spec_slot_offset(p0, sp, j)) by {
            assert(layout::spec_slot_pos(sp, j) + 2 <= layout::spec_slot_dir_end(sp, k)) by {
                assert(layout::SLOT_WIDTH * j + 2 <= layout::SLOT_WIDTH * k) by (nonlinear_arith)
                    requires
                        j < k,
                ;
            }
            assert(layout::spec_slot_dir_end(sp, k) <= ns);
        }
        lemma_icell_agree(p0, p1, oj);
        lemma_icell_agree(p1, f, oj);
        assert(spec_ientry(f, j) == spec_ientry(p0, j));
    }
    assert(spec_icell_wf(f, spec_islot(f, k)));
    assert forall|j: int| 0 <= j < k + 1 implies spec_icell_wf(f, #[trigger] spec_islot(f, j)) by {
        if j < k {
            assert(spec_ientry(f, j) == spec_ientry(o, j));
        }
    }
    assert forall|j1: int, j2: int| 0 <= j1 < j2 < k + 1 implies #[trigger] spec_islot(f, j2)
        + INTERIOR_CELL_SIZE <= #[trigger] spec_islot(f, j1) by {
        if j2 == k {
            assert(spec_islot(f, k) == ns);
            assert(spec_islot(f, j1) == spec_islot(p0, j1));
            assert(spec_icell_wf(p0, spec_islot(p0, j1)));
        } else {
            assert(spec_islot(f, j2) == spec_islot(p0, j2));
            assert(spec_islot(f, j1) == spec_islot(p0, j1));
        }
    }
}

/// Compacts live separator cells toward the page end, preserving the
/// separators, their order, and the rightmost-child pointer.
pub fn defragment(page: &mut Vec<u8>) -> (r: Result<(), TablePageError>)
    requires
        old(page)@.len() == PAGE_SIZE,
    ensures
        final(page)@.len() == PAGE_SIZE,
        !spec_layout_wf(old(page)@, spec_interior_spec()) ==> r is Err && final(page)@ == old(
            page,
        )@,
        r is Ok ==> spec_layout_wf(final(page)@, spec_interior_spec()),
        spec_interior_wf(old(page)@) ==> {
            &&& r == Ok::<(), TablePageError>(())
            &&& spec_interior_wf(final(page)@)
            &&& spec_ientries(final(page)@) == spec_ientries(old(page)@)
            &&& spec_rightmost_child(final(page)@) == spec_rightmost_child(old(page)@)
            &&& spec_cell_count(final(page)@) == spec_cell_count(old(page)@)
            &&& spec_content_start(final(page)@) == PAGE_SIZE - INTERIOR_CELL_SIZE
                * spec_cell_count(old(page)@)
        },
{
    let ghost o = old(page)@;
    match layout::validate(page, interior_spec()) {
        Ok(()) => {},
        Err(e) => {
            return Err(e);
        },
    }
    let s = interior_spec();
    let rightmost = rightmost_child(page);
    let count = layout::cell_count(page) as usize;
    let start = layout::content_start(page) as usize;
    let mut cells: Vec<Vec<u8>> = Vec::new();
    let mut i: usize = 0;
    while i < count
        invariant
            o == old(page)@,
            page@ == o,
            page@.len() == PAGE_SIZE,
            spec_layout_wf(o, spec_interior_spec()),
            s == spec_interior_spec(),
            rightmost == spec_rightmost_child(o),
            count == spec_cell_count(o),
            start == spec_content_start(o),
            0 <= i <= count,
            cells@.len() == i,
            forall|k: int|
                0 <= k < i ==> (#[trigger] cells@[k])@ == o.subrange(
                    spec_islot(o, k),
                    spec_islot(o, k) + INTERIOR_CELL_SIZE,
                ),
        decreases count - i,
    {
        let off = layout::slot_offset(page, s, i as u16) as usize;
        proof {
            if spec_interior_wf(o) {
                assert(spec_icell_wf(o, spec_islot(o, i as int)));
            }
        }
        if off < start || off >= PAGE_SIZE || off + INTERIOR_CELL_SIZE > PAGE_SIZE {
            return Err(TablePageError::CorruptCell { slot_index: i as u16 });
        }
        let cell = crate::byteops::subrange_to_vec(page, off, off + INTERIOR_CELL_SIZE);
        cells.push(cell);
        i = i + 1;
    }
    let ghost collected = cells@;
    match layout::init_empty(page, s) {
        Ok(()) => {},
        Err(e) => {
            return Err(e);
        },
    }
    let ghost base = page@;
    write_u64_at(page, INTERIOR_RIGHTMOST_CHILD_OFFSET, rightmost);
    proof {
        layout::lemma_init_page_wf(s);
        vstd::bytes::lemma_auto_spec_u64_to_from_le_bytes();
        assert(page@.subrange(
            INTERIOR_RIGHTMOST_CHILD_OFFSET as int,
            INTERIOR_RIGHTMOST_CHILD_OFFSET + 8,
        ) =~= spec_u64_to_le_bytes(rightmost));
        assert(page@.subrange(layout::CELL_COUNT_OFFSET as int, layout::CELL_COUNT_OFFSET + 2)
            =~= base.subrange(layout::CELL_COUNT_OFFSET as int, layout::CELL_COUNT_OFFSET + 2));
        assert(page@.subrange(
            layout::CONTENT_START_OFFSET as int,
            layout::CONTENT_START_OFFSET + 2,
        ) =~= base.subrange(
            layout::CONTENT_START_OFFSET as int,
            layout::CONTENT_START_OFFSET + 2,
        ));
        assert(page@[layout::PAGE_TYPE_OFFSET as int] == base[layout::PAGE_TYPE_OFFSET as int]);
    }
    let mut k: usize = 0;
    while k < count
        invariant
            o == old(page)@,
            spec_layout_wf(page@, spec_interior_spec()),
            s == spec_interior_spec(),
            spec_layout_wf(o, spec_interior_spec()),
            count == spec_cell_count(o),
            cells@ == collected,
            cells@.len() == count,
            forall|j: int|
                0 <= j < count ==> (#[trigger] cells@[j])@ == o.subrange(
                    spec_islot(o, j),
                    spec_islot(o, j) + INTERIOR_CELL_SIZE,
                ),
            rightmost == spec_rightmost_child(o),
            0 <= k <= count,
            spec_cell_count(page@) == k,
            spec_interior_wf(o) ==> {
                &&& spec_rightmost_child(page@) == rightmost
                &&& spec_content_start(page@) == PAGE_SIZE - INTERIOR_CELL_SIZE * (k as int)
                &&& forall|j: int|
                    0 <= j < k ==> #[trigger] spec_ientry(page@, j) == spec_ientry(o, j)
                &&& forall|j: int|
                    0 <= j < k ==> spec_icell_wf(page@, #[trigger] spec_islot(page@, j))
                &&& forall|j1: int, j2: int|
                    0 <= j1 < j2 < k ==> #[trigger] spec_islot(page@, j2) + INTERIOR_CELL_SIZE
                        <= #[trigger] spec_islot(page@, j1)
            },
        decreases count - k,
    {
        proof {
            if spec_interior_wf(o) {
                assert(spec_icell_wf(o, spec_islot(o, k as int)));
                assert(INTERIOR_CELL_SIZE * (k as int) <= INTERIOR_CELL_SIZE * (count as int)
                    && INTERIOR_CELL_SIZE * (k as int + 1) <= INTERIOR_CELL_SIZE * (count as int)
                    && INTERIOR_CELL_SIZE * (k as int) >= 0) by (nonlinear_arith)
                    requires
                        0 <= k as int,
                        k as int + 1 <= count as int,
                ;
                assert(INTERIOR_CELL_SIZE * (count as int) <= PAGE_SIZE - spec_content_start(o));
                assert(spec_slot_dir_end(s, count as int) <= spec_content_start(o) as int);
                assert(layout::SLOT_WIDTH * (k as int + 1) <= layout::SLOT_WIDTH * (count as int))
                    by (nonlinear_arith)
                    requires
                        k as int + 1 <= count as int,
                ;
                assert(INTERIOR_CELL_SIZE * (k as int + 1) == INTERIOR_CELL_SIZE * (k as int)
                    + INTERIOR_CELL_SIZE) by (nonlinear_arith);
            }
        }
        let ghost p0 = page@;
        let r1 = layout::try_append_cell_for_insert(page, s, cells[k].as_slice());
        let off = match r1 {
            Ok(Ok(off)) => off,
            Ok(Err(_)) => {
                proof {
                    if spec_interior_wf(o) {
                        assert(false);
                    }
                }
                return Err(TablePageError::CorruptPage("cell content underflow"));
            },
            Err(e) => {
                proof {
                    if spec_interior_wf(o) {
                        assert(false);
                    }
                }
                return Err(e);
            },
        };
        let ghost p1 = page@;
        proof {
            if spec_interior_wf(o) {
                assert(k <= spec_cell_count(p1));
                assert(spec_slot_dir_end(s, spec_cell_count(p1) + 1) <= spec_content_start(p1));
            }
        }
        match layout::insert_slot(page, s, k as u16, off) {
            Ok(()) => {},
            Err(e) => {
                proof {
                    if spec_interior_wf(o) {
                        assert(false);
                    }
                }
                return Err(e);
            },
        }
        proof {
            if spec_interior_wf(o) {
                lemma_idefrag_step(o, p0, p1, page@, collected, k as int, count as int, off);
            }
        }
        k = k + 1;
    }
    proof {
        if spec_interior_wf(o) {
            assert(spec_ientries(page@) =~= spec_ientries(o));
            assert(forall|i1: int, j1: int|
                0 <= i1 < j1 < count ==> #[trigger] spec_irid(page@, i1) < #[trigger] spec_irid(
                    page@,
                    j1,
                )) by {
                assert(forall|j: int|
                    0 <= j < count ==> #[trigger] spec_ientry(page@, j) == spec_ientry(o, j));
                assert(forall|j: int|
                    0 <= j < count ==> #[trigger] spec_irid(page@, j) == spec_ientry(
                        page@,
                        j,
                    ).row_id);
            }
        }
    }
    Ok(())
}

/// How much room an interior insert can count on after one defragmentation.
pub open spec fn spec_interior_spare(page: Seq<u8>) -> int {
    PAGE_SIZE - INTERIOR_CELL_SIZE * spec_cell_count(page) - spec_slot_dir_end(
        spec_interior_spec(),
        spec_cell_count(page) + 1,
    )
}

/// Inserts a new `(left_child, row_id)` separator in sorted order,
/// defragmenting once if the first placement attempt finds no room.
pub fn insert(page: &mut Vec<u8>, row_id: RowId, left_child: PageId) -> (r: Result<
    (),
    TablePageError,
>)
    requires
        old(page)@.len() == PAGE_SIZE,
    ensures
        final(page)@.len() == PAGE_SIZE,
        !spec_layout_wf(old(page)@, spec_interior_spec()) ==> r is Err && final(page)@ == old(
            page,
        )@,
        spec_interior_wf(old(page)@) ==> {
            let o = old(page)@;
            let lb = spec_lower_bound(spec_irids(o), row_id);
            &&& spec_interior_has(o, row_id) ==> r == Err::<(), TablePageError>(
                TablePageError::DuplicateRowId(row_id),
            ) && final(page)@ == o
            &&& !spec_interior_has(o, row_id) && INTERIOR_CELL_SIZE <= spec_interior_spare(o)
                ==> r == Ok::<(), TablePageError>(()) && spec_interior_wf(final(page)@)
                && spec_ientries(final(page)@) == spec_ientries(o).insert(
                lb,
                InteriorCell { left_child, row_id },
            ) && spec_rightmost_child(final(page)@) == spec_rightmost_child(o)
            &&& !spec_interior_has(o, row_id) && INTERIOR_CELL_SIZE > spec_interior_spare(o) ==> r
                == Err::<(), TablePageError>(
                TablePageError::PageFull {
                    needed: INTERIOR_CELL_SIZE,
                    available: if spec_interior_spare(o) >= 0 {
                        spec_interior_spare(o) as usize
                    } else {
                        0
                    },
                },
            ) && spec_interior_wf(final(page)@) && spec_ientries(final(page)@) == spec_ientries(o)
        },
{
    let ghost o = old(page)@;
    match layout::validate(page, interior_spec()) {
        Ok(()) => {},
        Err(e) => {
            return Err(e);
        },
    }
    let s = interior_spec();
    let insertion_index = match find_interior_slot(page, row_id)? {
        SearchResult::Found(_) => {
            return Err(TablePageError::DuplicateRowId(row_id));
        },
        SearchResult::NotFound(i) => i,
    };
    let cell = encode_icell(left_child, row_id);
    proof {
        if spec_interior_wf(o) {
            lemma_interior_room(o);
            lemma_lower_bound_props(spec_irids(o), row_id);
        }
    }
    let ghost mut pre = o;
    let r1 = layout::try_append_cell_for_insert(page, s, cell.as_slice());
    let off = match r1 {
        Ok(Ok(off)) => off,
        Ok(Err(_)) => {
            match defragment(page) {
                Ok(()) => {},
                Err(e) => {
                    proof {
                        if spec_interior_wf(o) {
                            assert(false);
                        }
                    }
                    return Err(e);
                },
            }
            proof {
                pre = page@;
                if spec_interior_wf(o) {
                    lemma_interior_room(pre);
                }
            }
            let r2 = layout::try_append_cell_for_insert(page, s, cell.as_slice());
            match r2 {
                Ok(Ok(off)) => off,
                Ok(Err(se)) => {
                    proof {
                        if spec_interior_wf(o) {
                            assert(se.needed == INTERIOR_CELL_SIZE);
                            assert(se.available as int == if spec_interior_spare(o) >= 0 {
                                spec_interior_spare(o)
                            } else {
                                0
                            });
                        }
                    }
                    return Err(
                        TablePageError::PageFull { needed: se.needed, available: se.available },
                    );
                },
                Err(e) => {
                    proof {
                        if spec_interior_wf(o) {
                            assert(false);
                        }
                    }
                    return Err(e);
                },
            }
        },
        Err(e) => {
            proof {
                if spec_interior_wf(o) {
                    assert(false);
                }
            }
            return Err(e);
        },
    };
    let ghost p1 = page@;
    proof {
        if spec_interior_wf(o) {
            assert(spec_interior_wf(pre));
            assert(spec_ientries(pre) == spec_ientries(o));
            assert(spec_rightmost_child(pre) == spec_rightmost_child(o));
            assert(spec_irids(pre) =~= spec_irids(o)) by {
                assert(forall|i: int|
                    0 <= i < spec_cell_count(pre) ==> #[trigger] spec_irid(pre, i) == spec_ientry(
                        pre,
                        i,
                    ).row_id && spec_ientry(pre, i) == spec_ientries(pre)[i]);
                assert(forall|i: int|
                    0 <= i < spec_cell_count(o) ==> #[trigger] spec_irid(o, i) == spec_ientry(
                        o,
                        i,
                    ).row_id && spec_ientry(o, i) == spec_ientries(o)[i]);
            }
            assert(spec_interior_has(pre, row_id) == spec_interior_has(o, row_id)
                && spec_lower_bound(spec_irids(pre), row_id) == spec_lower_bound(
                spec_irids(o),
                row_id,
            )) by {
                let lb = spec_lower_bound(spec_irids(o), row_id);
                lemma_lower_bound_le(spec_irids(o), row_id);
                if lb < spec_cell_count(o) {
                    assert(spec_irid(pre, lb) == spec_irids(pre)[lb]);
                    assert(spec_irid(o, lb) == spec_irids(o)[lb]);
                }
            }
            assert(layout::spec_try_append_post(
                pre,
                p1,
                spec_interior_spec(),
                cell@,
                1,
                Ok(Ok(off)),
            ));
            lemma_interior_room(pre);
            assert(insertion_index <= spec_cell_count(p1));
            assert(spec_slot_dir_end(spec_interior_spec(), spec_cell_count(p1) + 1)
                <= spec_content_start(p1));
        }
    }
    match layout::insert_slot(page, s, insertion_index, off) {
        Ok(()) => {},
        Err(e) => {
            proof {
                if spec_interior_wf(o) {
                    assert(false);
                }
            }
            return Err(e);
        },
    }
    proof {
        if spec_interior_wf(o) {
            lemma_interior_insert_step(
                pre,
                p1,
                page@,
                InteriorCell { left_child, row_id },
                insertion_index as int,
                off,
            );
        }
    }
    Ok(())
}


/// Overwriting one separator cell in place keeps the page well formed and
/// replaces exactly that cell.
#[verifier::spinoff_prover]
proof fn lemma_interior_update_inplace(o: Seq<u8>, f: Seq<u8>, idx: int, cell: InteriorCell)
    requires
        spec_interior_wf(o),
        0 <= idx < spec_cell_count(o),
        cell.row_id == spec_irid(o, idx),
        f == splice(o, spec_islot(o, idx), spec_encode_icell(cell)),
    ensures
        spec_interior_wf(f),
        spec_ientries(f) == spec_ientries(o).update(idx, cell),
        spec_cell_count(f) == spec_cell_count(o),
        spec_content_start(f) == spec_content_start(o),
        spec_rightmost_child(f) == spec_rightmost_child(o),
{
    let sp = spec_interior_spec();
    let cc = spec_cell_count(o) as int;
    let off = spec_islot(o, idx);
    let enc = spec_encode_icell(cell);
    assert(spec_icell_wf(o, off));
    assert(enc.len() == INTERIOR_CELL_SIZE) by {
        vstd::bytes::lemma_auto_spec_u64_to_from_le_bytes();
    }
    assert(f.subrange(layout::CELL_COUNT_OFFSET as int, layout::CELL_COUNT_OFFSET + 2)
        =~= o.subrange(layout::CELL_COUNT_OFFSET as int, layout::CELL_COUNT_OFFSET + 2));
    assert(f.subrange(layout::CONTENT_START_OFFSET as int, layout::CONTENT_START_OFFSET + 2)
        =~= o.subrange(layout::CONTENT_START_OFFSET as int, layout::CONTENT_START_OFFSET + 2));
    assert(f.subrange(
        INTERIOR_RIGHTMOST_CHILD_OFFSET as int,
        INTERIOR_RIGHTMOST_CHILD_OFFSET + 8,
    ) =~= o.subrange(
        INTERIOR_RIGHTMOST_CHILD_OFFSET as int,
        INTERIOR_RIGHTMOST_CHILD_OFFSET + 8,
    ));
    assert forall|j: int| 0 <= j < cc implies #[trigger] spec_islot(f, j) == spec_islot(o, j) by {
        layout::lemma_slot_pos_in_bounds(o, sp, j);
        assert(f.subrange(layout::spec_slot_pos(sp, j), layout::spec_slot_pos(sp, j) + 2)
            =~= o.subrange(layout::spec_slot_pos(sp, j), layout::spec_slot_pos(sp, j) + 2));
    }
    assert(f.subrange(off, off + INTERIOR_CELL_SIZE) =~= enc);
    lemma_decode_encoded_icell(f, off, cell);
    assert forall|j: int| 0 <= j < cc && j != idx implies #[trigger] spec_icell_child(
        f,
        spec_islot(o, j),
    ) == spec_icell_child(o, spec_islot(o, j)) && spec_icell_rid(f, spec_islot(o, j))
        == spec_icell_rid(o, spec_islot(o, j)) by {
        assert(spec_icell_wf(o, spec_islot(o, j)));
        assert(spec_islot(o, j) + INTERIOR_CELL_SIZE <= spec_islot(o, idx) || spec_islot(o, idx)
            + INTERIOR_CELL_SIZE <= spec_islot(o, j));
        lemma_icell_agree(o, f, spec_islot(o, j));
    }
    assert forall|j: int| 0 <= j < cc implies #[trigger] spec_ientry(f, j) == (if j == idx {
        cell
    } else {
        spec_ientry(o, j)
    }) by {}
    assert(spec_ientries(f) =~~= spec_ientries(o).update(idx, cell));
    assert forall|j: int| 0 <= j < cc implies spec_icell_wf(f, #[trigger] spec_islot(f, j)) by {
        assert(spec_icell_wf(o, spec_islot(o, j)));
    }
    assert forall|i: int, j: int| 0 <= i < j < cc implies #[trigger] spec_irid(f, i)
        < #[trigger] spec_irid(f, j) by {
        assert(spec_irid(f, i) == spec_ientry(f, i).row_id);
        assert(spec_irid(f, j) == spec_ientry(f, j).row_id);
        assert(spec_irid(o, i) == spec_ientry(o, i).row_id);
        assert(spec_irid(o, j) == spec_ientry(o, j).row_id);
        assert(spec_irid(o, idx) == spec_ientry(o, idx).row_id);
    }
}

/// Replaces the `left_child` pointer for an existing separator key,
/// overwriting the fixed-size cell in place.
pub fn update(page: &mut Vec<u8>, row_id: RowId, left_child: PageId) -> (r: Result<
    (),
    TablePageError,
>)
    requires
        old(page)@.len() == PAGE_SIZE,
    ensures
        final(page)@.len() == PAGE_SIZE,
        !spec_layout_wf(old(page)@, spec_interior_spec()) ==> r is Err && final(page)@ == old(
            page,
        )@,
        spec_interior_wf(old(page)@) ==> {
            let o = old(page)@;
            let lb = spec_lower_bound(spec_irids(o), row_id);
            &&& !spec_interior_has(o, row_id) ==> r == Err::<(), TablePageError>(
                TablePageError::RowIdNotFound(row_id),
            ) && final(page)@ == o
            &&& spec_interior_has(o, row_id) ==> r == Ok::<(), TablePageError>(())
                && spec_interior_wf(final(page)@) && spec_ientries(final(page)@) == spec_ientries(
                o,
            ).update(lb, InteriorCell { left_child, row_id }) && spec_content_start(final(page)@)
                == spec_content_start(o) && spec_cell_count(final(page)@) == spec_cell_count(o)
                && spec_rightmost_child(final(page)@) == spec_rightmost_child(o)
        },
{
    let ghost o = old(page)@;
    match layout::validate(page, interior_spec()) {
        Ok(()) => {},
        Err(e) => {
            return Err(e);
        },
    }
    let s = interior_spec();
    let slot_index = match find_interior_slot(page, row_id)? {
        SearchResult::Found(i) => i,
        SearchResult::NotFound(_) => {
            return Err(TablePageError::RowIdNotFound(row_id));
        },
    };
    let off = layout::slot_offset(page, s, slot_index) as usize;
    let start = layout::content_start(page) as usize;
    proof {
        if spec_interior_wf(o) {
            assert(spec_icell_wf(o, spec_islot(o, slot_index as int)));
            lemma_lower_bound_le(spec_irids(o), row_id);
        }
    }
    if off < start || off >= PAGE_SIZE || off + INTERIOR_CELL_SIZE > PAGE_SIZE {
        return Err(TablePageError::CorruptCell { slot_index });
    }
    let cell = encode_icell(left_child, row_id);
    crate::byteops::copy_into(page, off, cell.as_slice());
    proof {
        if spec_interior_wf(o) {
            assert(row_id == spec_irid(o, slot_index as int)) by {
                assert(spec_irids(o)[slot_index as int] == spec_irid(o, slot_index as int));
            }
            lemma_interior_update_inplace(
                o,
                page@,
                slot_index as int,
                InteriorCell { left_child, row_id },
            );
        }
    }
    Ok(())
}

/// Removing one slot from a well-formed interior page leaves a well-formed
/// page whose separators are the old ones with that cell removed.
#[verifier::spinoff_prover]
proof fn lemma_interior_delete_step(o: Seq<u8>, f: Seq<u8>, idx: int)
    requires
        spec_interior_wf(o),
        0 <= idx < spec_cell_count(o),
        spec_layout_wf(f, spec_interior_spec()),
        spec_cell_count(f) == spec_cell_count(o) - 1,
        spec_content_start(f) == spec_content_start(o),
        forall|j: int|
            0 <= j < idx ==> #[trigger] spec_slot_offset(f, spec_interior_spec(), j)
                == spec_slot_offset(o, spec_interior_spec(), j),
        forall|j: int|
            idx <= j < spec_cell_count(o) - 1 ==> #[trigger] spec_slot_offset(
                f,
                spec_interior_spec(),
                j,
            ) == spec_slot_offset(o, spec_interior_spec(), j + 1),
        f.subrange(spec_content_start(o) as int, PAGE_SIZE as int) == o.subrange(
            spec_content_start(o) as int,
            PAGE_SIZE as int,
        ),
        forall|i: int|
            0 <= i < spec_interior_spec().header_size && !(layout::CELL_COUNT_OFFSET <= i
                < layout::CELL_COUNT_OFFSET + 2) ==> f[i] == o[i],
    ensures
        spec_interior_wf(f),
        spec_ientries(f) == spec_ientries(o).remove(idx),
        spec_rightmost_child(f) == spec_rightmost_child(o),
{
    let cc = spec_cell_count(o) as int;
    let cs = spec_content_start(o) as int;
    assert(f.subrange(
        INTERIOR_RIGHTMOST_CHILD_OFFSET as int,
        INTERIOR_RIGHTMOST_CHILD_OFFSET + 8,
    ) =~= o.subrange(
        INTERIOR_RIGHTMOST_CHILD_OFFSET as int,
        INTERIOR_RIGHTMOST_CHILD_OFFSET + 8,
    ));
    assert forall|i: int| cs <= i < PAGE_SIZE implies f[i] == o[i] by {
        assert(f.subrange(cs, PAGE_SIZE as int)[i - cs] == o.subrange(cs, PAGE_SIZE as int)[i
            - cs]);
    }
    assert forall|j: int| 0 <= j < cc implies #[trigger] spec_icell_child(f, spec_islot(o, j))
        == spec_icell_child(o, spec_islot(o, j)) && spec_icell_rid(f, spec_islot(o, j))
        == spec_icell_rid(o, spec_islot(o, j)) by {
        assert(spec_icell_wf(o, spec_islot(o, j)));
        lemma_icell_agree(o, f, spec_islot(o, j));
    }
    assert forall|j: int| 0 <= j < cc - 1 implies #[trigger] spec_ientry(f, j) == (if j < idx {
        spec_ientry(o, j)
    } else {
        spec_ientry(o, j + 1)
    }) && #[trigger] spec_islot(f, j) == (if j < idx {
        spec_islot(o, j)
    } else {
        spec_islot(o, j + 1)
    }) by {
        if j < idx {
            assert(spec_icell_wf(o, spec_islot(o, j)));
        } else {
            assert(spec_icell_wf(o, spec_islot(o, j + 1)));
        }
    }
    assert(spec_ientries(f) =~~= spec_ientries(o).remove(idx));
    assert forall|j: int| 0 <= j < cc - 1 implies spec_icell_wf(
        f,
        #[trigger] spec_islot(f, j),
    ) by {
        let pj = if j < idx {
            j
        } else {
            j + 1
        };
        assert(spec_icell_wf(o, spec_islot(o, pj)));
    }
    assert forall|i: int, j: int| 0 <= i < j < cc - 1 implies #[trigger] spec_irid(f, i)
        < #[trigger] spec_irid(f, j) by {
        let pi = if i < idx {
            i
        } else {
            i + 1
        };
        let pj = if j < idx {
            j
        } else {
            j + 1
        };
        assert(spec_irid(f, i) == spec_ientry(f, i).row_id);
        assert(spec_irid(f, j) == spec_ientry(f, j).row_id);
        assert(spec_irid(o, pi) == spec_ientry(o, pi).row_id);
        assert(spec_irid(o, pj) == spec_ientry(o, pj).row_id);
        assert(spec_irid(o, pi) < spec_irid(o, pj));
    }
    assert forall|i: int, j: int|
        0 <= i < cc - 1 && 0 <= j < cc - 1 && i != j implies #[trigger] spec_islot(f, i)
        + INTERIOR_CELL_SIZE <= #[trigger] spec_islot(f, j) || spec_islot(f, j)
        + INTERIOR_CELL_SIZE <= spec_islot(f, i) by {
        let pi = if i < idx {
            i
        } else {
            i + 1
        };
        let pj = if j < idx {
            j
        } else {
            j + 1
        };
        assert(spec_islot(o, pi) + INTERIOR_CELL_SIZE <= spec_islot(o, pj) || spec_islot(o, pj)
            + INTERIOR_CELL_SIZE <= spec_islot(o, pi));
    }
    assert(INTERIOR_CELL_SIZE * (cc - 1) + INTERIOR_CELL_SIZE == INTERIOR_CELL_SIZE * cc)
        by (nonlinear_arith);
}

/// Deletes the separator cell identified by `row_id`.
pub fn delete(page: &mut Vec<u8>, row_id: RowId) -> (r: Result<(), TablePageError>)
    requires
        old(page)@.len() == PAGE_SIZE,
    ensures
        final(page)@.len() == PAGE_SIZE,
        !spec_layout_wf(old(page)@, spec_interior_spec()) ==> r is Err && final(page)@ == old(
            page,
        )@,
        spec_interior_wf(old(page)@) ==> {
            let o = old(page)@;
            let lb = spec_lower_bound(spec_irids(o), row_id);
            &&& !spec_interior_has(o, row_id) ==> r == Err::<(), TablePageError>(
                TablePageError::RowIdNotFound(row_id),
            ) && final(page)@ == o
            &&& spec_interior_has(o, row_id) ==> r == Ok::<(), TablePageError>(())
                && spec_interior_wf(final(page)@) && spec_ientries(final(page)@) == spec_ientries(
                o,
            ).remove(lb) && spec_rightmost_child(final(page)@) == spec_rightmost_child(o)
        },
{
    let ghost o = old(page)@;
    match layout::validate(page, interior_spec()) {
        Ok(()) => {},
        Err(e) => {
            return Err(e);
        },
    }
    let slot_index = match find_interior_slot(page, row_id)? {
        SearchResult::Found(i) => i,
        SearchResult::NotFound(_) => {
            return Err(TablePageError::RowIdNotFound(row_id));
        },
    };
    match layout::remove_slot(page, interior_spec(), slot_index) {
        Ok(()) => {},
        Err(e) => {
            return Err(e);
        },
    }
    proof {
        if spec_interior_wf(o) {
            lemma_lower_bound_props(spec_irids(o), row_id);
            lemma_interior_delete_step(o, page@, slot_index as int);
        }
    }
    Ok(())
}


/// A validated, well-formed interior page keeps its separators in strictly
/// ascending row-id order: no duplicates, no inversions.
pub proof fn lemma_wf_separators_sorted(page: Seq<u8>)
    requires
        spec_interior_wf(page),
    ensures
        forall|i: int, j: int|
            0 <= i < j < spec_cell_count(page) ==> #[trigger] spec_irid(page, i)
                < #[trigger] spec_irid(page, j),
{
}

} // verus!
