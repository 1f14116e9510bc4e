//! Leaf table pages: variable-length `(rowId, payload)` cells kept in
//! ascending row-id order through the shared slotted layout.

use vstd::prelude::*;

use crate::byteops::{read_u16_at, read_u64_at, splice, subrange_to_vec};
use crate::error::TablePageError;
use crate::layout::{self, PageSpec, SearchResult, spec_cell_count,
    spec_content_start, spec_layout_wf, spec_slot_offset, spec_slot_dir_end,
    LEAF_HEADER_SIZE, LEAF_PAGE_TYPE};
use crate::types::{PAGE_SIZE, RowId};
use vstd::bytes::{spec_u16_from_le_bytes, spec_u64_from_le_bytes};

verus! {

/// Width of the payload-length field of a leaf cell.
pub const PAYLOAD_LEN_SIZE: usize = 2;

/// Width of the row-id field of a leaf cell.
pub const ROW_ID_SIZE: usize = 8;

/// Fixed prefix of every leaf cell: payload length then row id.
pub const LEAF_CELL_PREFIX_SIZE: usize = 10;

/// The page spec of a leaf page.
pub open spec fn spec_leaf_spec() -> PageSpec {
    PageSpec { page_type: LEAF_PAGE_TYPE, header_size: LEAF_HEADER_SIZE as usize }
}

/// Returns the leaf page spec.
pub fn leaf_spec() -> (s: PageSpec)
    ensures
        s == spec_leaf_spec(),
{
    PageSpec { page_type: LEAF_PAGE_TYPE, header_size: LEAF_HEADER_SIZE }
}

/// The payload length stored at the front of the cell at `off`.
pub open spec fn spec_cell_payload_len(page: Seq<u8>, off: int) -> int {
    spec_u16_from_le_bytes(page.subrange(off, off + 2)) as int
}

/// The row id stored in the cell at `off`.
pub open spec fn spec_cell_row_id(page: Seq<u8>, off: int) -> RowId {
    spec_u64_from_le_bytes(page.subrange(off + 2, off + 10))
}

/// The payload bytes of the cell at `off`.
pub open spec fn spec_cell_payload(page: Seq<u8>, off: int) -> Seq<u8> {
    page.subrange(off + 10, off + 10 + spec_cell_payload_len(page, off))
}

/// Total encoded size of the cell at `off`.
pub open spec fn spec_cell_size(page: Seq<u8>, off: int) -> int {
    LEAF_CELL_PREFIX_SIZE + spec_cell_payload_len(page, off)
}

/// Whether the cell at `off` lies wholly inside the content region.
pub open spec fn spec_cell_wf(page: Seq<u8>, off: int) -> bool {
    &&& spec_content_start(page) <= off
    &&& off + LEAF_CELL_PREFIX_SIZE <= PAGE_SIZE
    &&& off + spec_cell_size(page, off) <= PAGE_SIZE
}

/// The cell offset of slot `i` of a leaf page.
pub open spec fn spec_leaf_slot(page: Seq<u8>, i: int) -> int {
    spec_slot_offset(page, spec_leaf_spec(), i) as int
}

/// The row id keyed by slot `i`.
pub open spec fn spec_leaf_rid(page: Seq<u8>, i: int) -> RowId {
    spec_cell_row_id(page, spec_leaf_slot(page, i))
}

/// The row ids of a leaf page, in slot order.
pub open spec fn spec_leaf_rids(page: Seq<u8>) -> Seq<RowId> {
    Seq::new(spec_cell_count(page) as nat, |i: int| spec_leaf_rid(page, i))
}

/// One `(rowId, payload)` entry of a leaf page.
pub open spec fn spec_leaf_entry(page: Seq<u8>, i: int) -> (RowId, Seq<u8>) {
    (spec_leaf_rid(page, i), spec_cell_payload(page, spec_leaf_slot(page, i)))
}

/// The logical content of a leaf page: its `(rowId, payload)` pairs in slot
/// order.
pub open spec fn spec_leaf_entries(page: Seq<u8>) -> Seq<(RowId, Seq<u8>)> {
    Seq::new(spec_cell_count(page) as nat, |i: int| spec_leaf_entry(page, i))
}

/// Sum of the encoded sizes of the first `n` cells.
pub open spec fn spec_leaf_total(page: Seq<u8>, n: int) -> int
    decreases n,
{
    if n <= 0 {
        0
    } else {
        spec_leaf_total(page, n - 1) + spec_cell_size(page, spec_leaf_slot(page, n - 1))
    }
}

/// Whether the cells of slots `i` and `j` occupy disjoint byte ranges.
pub open spec fn spec_cells_disjoint(page: Seq<u8>, i: int, j: int) -> bool {
    spec_leaf_slot(page, i) + spec_cell_size(page, spec_leaf_slot(page, i)) <= spec_leaf_slot(
        page,
        j,
    ) || spec_leaf_slot(page, j) + spec_cell_size(page, spec_leaf_slot(page, j))
        <= spec_leaf_slot(page, i)
}

/// The full well-formedness invariant of a leaf page: a sound layout, every
/// cell in bounds, strictly ascending row ids, pairwise disjoint live cells,
/// and live cells that fit the content region.
pub open spec fn spec_leaf_wf(page: Seq<u8>) -> bool {
    &&& spec_layout_wf(page, spec_leaf_spec())
    &&& forall|i: int|
        0 <= i < spec_cell_count(page) ==> spec_cell_wf(page, #[trigger] spec_leaf_slot(page, i))
    &&& forall|i: int, j: int|
        0 <= i < j < spec_cell_count(page) ==> #[trigger] spec_leaf_rid(page, i)
            < #[trigger] spec_leaf_rid(page, j)
    &&& forall|i: int, j: int|
        0 <= i < spec_cell_count(page) && 0 <= j < spec_cell_count(page) && i != j
            ==> #[trigger] spec_cells_disjoint(page, i, j)
    &&& spec_leaf_total(page, spec_cell_count(page) as int) <= PAGE_SIZE - spec_content_start(
        page,
    )
}

/// The number of row ids strictly below `rid` at the front of a sorted
/// sequence: the sorted insertion index.
pub open spec fn spec_lower_bound(rids: Seq<RowId>, rid: RowId) -> int
    decreases rids.len(),
{
    if rids.len() == 0 {
        0
    } else if rids[0] < rid {
        1 + spec_lower_bound(rids.skip(1), rid)
    } else {
        0
    }
}

/// Whether a leaf page holds `rid`.
pub open spec fn spec_leaf_has(page: Seq<u8>, rid: RowId) -> bool {
    {
        let lb = spec_lower_bound(spec_leaf_rids(page), rid);
        lb < spec_cell_count(page) && spec_leaf_rid(page, lb) == rid
    }
}

/// The payload stored under `rid`, if any.
pub open spec fn spec_leaf_lookup(page: Seq<u8>, rid: RowId) -> Option<Seq<u8>> {
    if spec_leaf_has(page, rid) {
        Some(spec_leaf_entry(page, spec_lower_bound(spec_leaf_rids(page), rid)).1)
    } else {
        None
    }
}

/// The lower bound never exceeds the sequence length.
pub proof fn lemma_lower_bound_le(rids: Seq<RowId>, rid: RowId)
    ensures
        0 <= spec_lower_bound(rids, rid) <= rids.len(),
    decreases rids.len(),
{
    if rids.len() > 0 && rids[0] < rid {
        lemma_lower_bound_le(rids.skip(1), rid);
    }
}

/// On a strictly sorted sequence the lower bound splits the row ids: all
/// earlier ones are below `rid`, all later ones at or above it.
pub proof fn lemma_lower_bound_props(rids: Seq<RowId>, rid: RowId)
    requires
        forall|i: int, j: int| 0 <= i < j < rids.len() ==> rids[i] < rids[j],
    ensures
        0 <= spec_lower_bound(rids, rid) <= rids.len(),
        forall|i: int| 0 <= i < spec_lower_bound(rids, rid) ==> rids[i] < rid,
        forall|i: int| spec_lower_bound(rids, rid) <= i < rids.len() ==> rids[i] >= rid,
    decreases rids.len(),
{
    if rids.len() > 0 {
        let tail = rids.skip(1);
        assert(forall|i: int, j: int| 0 <= i < j < tail.len() ==> tail[i] < tail[j]);
        lemma_lower_bound_props(tail, rid);
        if rids[0] < rid {
            let lb = spec_lower_bound(rids, rid);
            assert(lb == 1 + spec_lower_bound(tail, rid));
            assert(forall|i: int| 1 <= i < lb ==> rids[i] == tail[i - 1]);
            assert(forall|i: int| lb <= i < rids.len() ==> rids[i] == tail[i - 1]);
        } else {
            assert(forall|i: int| 0 < i < rids.len() ==> rids[0] < #[trigger] rids[i]);
        }
    }
}

/// Any index that splits a strictly sorted sequence around `rid` is its
/// lower bound.
pub proof fn lemma_lower_bound_unique(rids: Seq<RowId>, rid: RowId, k: int)
    requires
        forall|i: int, j: int| 0 <= i < j < rids.len() ==> rids[i] < rids[j],
        0 <= k <= rids.len(),
        forall|i: int| 0 <= i < k ==> rids[i] < rid,
        forall|i: int| k <= i < rids.len() ==> rids[i] >= rid,
    ensures
        k == spec_lower_bound(rids, rid),
{
    lemma_lower_bound_props(rids, rid);
    let lb = spec_lower_bound(rids, rid);
    if k < lb {
        assert(rids[k] < rid);
        assert(rids[k] >= rid);
    }
    if lb < k {
        assert(rids[lb] < rid);
        assert(rids[lb] >= rid);
    }
}

/// Finds the slot holding `row_id`, or the sorted index where it would be
/// inserted, by binary search over the slot directory.
fn find_leaf_slot(page: &Vec<u8>, row_id: RowId) -> (r: Result<SearchResult, TablePageError>)
    requires
        spec_layout_wf(page@, spec_leaf_spec()),
    ensures
        spec_leaf_wf(page@) ==> {
            let lb = spec_lower_bound(spec_leaf_rids(page@), row_id);
            if spec_leaf_has(page@, row_id) {
                r == Ok::<SearchResult, TablePageError>(SearchResult::Found(lb as u16))
            } else {
                r == Ok::<SearchResult, TablePageError>(SearchResult::NotFound(lb as u16))
            }
        },
        forall|i: u16| r == Ok::<SearchResult, TablePageError>(SearchResult::Found(i)) ==> i
            < spec_cell_count(page@),
        forall|i: u16| r == Ok::<SearchResult, TablePageError>(SearchResult::NotFound(i)) ==> i
            <= spec_cell_count(page@),
{
    let s = leaf_spec();
    let count = layout::cell_count(page) as usize;
    let start = layout::content_start(page) as usize;
    let ghost rids = spec_leaf_rids(page@);
    proof {
        if spec_leaf_wf(page@) {
            lemma_lower_bound_props(rids, row_id);
        }
    }
    let mut left: usize = 0;
    let mut right: usize = count;
    while left < right
        invariant
            spec_layout_wf(page@, spec_leaf_spec()),
            s == spec_leaf_spec(),
            count == spec_cell_count(page@),
            start == spec_content_start(page@),
            0 <= left <= right <= count,
            rids == spec_leaf_rids(page@),
            spec_leaf_wf(page@) ==> forall|i: int| 0 <= i < left ==> rids[i] < row_id,
            spec_leaf_wf(page@) ==> forall|i: int| right <= i < count ==> rids[i] > row_id,
        decreases right - left,
    {
        let mid = left + (right - left) / 2;
        let off = layout::slot_offset(page, s, mid as u16) as usize;
        proof {
            if spec_leaf_wf(page@) {
                assert(spec_cell_wf(page@, spec_leaf_slot(page@, mid as int)));
            }
        }
        if off < start || off >= PAGE_SIZE {
            return Err(TablePageError::CorruptCell { slot_index: mid as u16 });
        }
        if off + LEAF_CELL_PREFIX_SIZE > PAGE_SIZE {
            return Err(TablePageError::CorruptCell { slot_index: mid as u16 });
        }
        let mid_rid = read_u64_at(page, off + PAYLOAD_LEN_SIZE);
        proof {
            if spec_leaf_wf(page@) {
                assert(spec_cell_wf(page@, spec_leaf_slot(page@, mid as int)));
                assert(mid_rid == spec_leaf_rid(page@, mid as int));
            }
        }
        if mid_rid < row_id {
            left = mid + 1;
        } else if mid_rid > row_id {
            right = mid;
        } else {
            proof {
                if spec_leaf_wf(page@) {
                    assert(forall|i: int, j: int|
                        0 <= i < j < count ==> #[trigger] rids[i] < #[trigger] rids[j]) by {
                        assert(forall|i: int, j: int|
                            0 <= i < j < spec_cell_count(page@) ==> #[trigger] spec_leaf_rid(
                                page@,
                                i,
                            ) < #[trigger] spec_leaf_rid(page@, j));
                    }
                    assert(forall|i: int| 0 <= i < mid ==> rids[i] < rids[mid as int]);
                    assert(forall|i: int| mid < i < count ==> rids[mid as int] < rids[i]);
                    lemma_lower_bound_unique(rids, row_id, mid as int);
                    assert(spec_leaf_has(page@, row_id));
                }
            }
            return Ok(SearchResult::Found(mid as u16));
        }
    }
    proof {
        if spec_leaf_wf(page@) {
            assert(forall|i: int, j: int| 0 <= i < j < count ==> #[trigger] rids[i]
                < #[trigger] rids[j]) by {
                assert(forall|i: int, j: int|
                    0 <= i < j < spec_cell_count(page@) ==> #[trigger] spec_leaf_rid(page@, i)
                        < #[trigger] spec_leaf_rid(page@, j));
            }
            lemma_lower_bound_unique(rids, row_id, left as int);
            if left < count {
                assert(rids[left as int] > row_id);
            }
            assert(!spec_leaf_has(page@, row_id));
        }
    }
    Ok(SearchResult::NotFound(left as u16))
}

/// Looks up `row_id`, returning an owned copy of its payload when present.
pub fn search(page: &Vec<u8>, row_id: RowId) -> (r: Result<Option<Vec<u8>>, TablePageError>)
    requires
        page@.len() == PAGE_SIZE,
    ensures
        spec_leaf_wf(page@) ==> match r {
            Ok(Some(payload)) => spec_leaf_lookup(page@, row_id) == Some(payload@),
            Ok(None) => spec_leaf_lookup(page@, row_id) is None,
            Err(_) => false,
        },
        !spec_layout_wf(page@, spec_leaf_spec()) ==> r is Err,
{
    match layout::validate(page, leaf_spec()) {
        Ok(()) => {},
        Err(e) => {
            return Err(e);
        },
    }
    let slot_index = match find_leaf_slot(page, row_id)? {
        SearchResult::Found(i) => i,
        SearchResult::NotFound(_) => {
            return Ok(None);
        },
    };
    let off = layout::slot_offset(page, leaf_spec(), slot_index) as usize;
    let start = layout::content_start(page) as usize;
    proof {
        if spec_leaf_wf(page@) {
            assert(spec_cell_wf(page@, spec_leaf_slot(page@, slot_index as int)));
        }
    }
    if off < start || off >= PAGE_SIZE || off + LEAF_CELL_PREFIX_SIZE > PAGE_SIZE {
        return Err(TablePageError::CorruptCell { slot_index });
    }
    let payload_len = read_u16_at(page, off) as usize;
    if off + LEAF_CELL_PREFIX_SIZE + payload_len > PAGE_SIZE {
        return Err(TablePageError::CorruptCell { slot_index });
    }
    let payload = subrange_to_vec(page, off + LEAF_CELL_PREFIX_SIZE, off + LEAF_CELL_PREFIX_SIZE
        + payload_len);
    proof {
        if spec_leaf_wf(page@) {
            lemma_lower_bound_le(spec_leaf_rids(page@), row_id);
            assert(payload@ == spec_cell_payload(page@, spec_leaf_slot(page@, slot_index as int)));
        }
    }
    Ok(Some(payload))
}

/// Returns the number of cells on a leaf page.
pub fn cell_count(page: &Vec<u8>) -> (r: u16)
    requires
        page@.len() == PAGE_SIZE,
    ensures
        r == spec_cell_count(page@),
{
    layout::cell_count(page)
}

/// Returns free bytes between the slot directory and the cell content.
pub fn free_space(page: &Vec<u8>) -> (r: Result<usize, TablePageError>)
    requires
        page@.len() == PAGE_SIZE,
    ensures
        r is Ok <==> spec_layout_wf(page@, spec_leaf_spec()),
        spec_layout_wf(page@, spec_leaf_spec()) ==> r == Ok::<usize, TablePageError>(
            (spec_content_start(page@) - spec_slot_dir_end(
                spec_leaf_spec(),
                spec_cell_count(page@) as int,
            )) as usize,
        ),
{
    layout::free_space(page, leaf_spec())
}

/// Initializes `page` as an empty leaf page.
pub fn init_empty(page: &mut Vec<u8>) -> (r: Result<(), TablePageError>)
    requires
        old(page)@.len() == PAGE_SIZE,
    ensures
        r == Ok::<(), TablePageError>(()),
        final(page)@ == layout::spec_init_page(spec_leaf_spec()),
        spec_leaf_wf(final(page)@),
        spec_leaf_entries(final(page)@) == Seq::<(RowId, Seq<u8>)>::empty(),
{
    let r = layout::init_empty(page, leaf_spec());
    proof {
        layout::lemma_init_page_wf(spec_leaf_spec());
        assert(spec_leaf_entries(page@) =~= Seq::<(RowId, Seq<u8>)>::empty());
    }
    r
}

/// Validates `page` as a leaf page at the layout level.
pub fn validate(page: &Vec<u8>) -> (r: Result<(), TablePageError>)
    requires
        page@.len() == PAGE_SIZE,
    ensures
        r is Ok <==> spec_layout_wf(page@, spec_leaf_spec()),
{
    layout::validate(page, leaf_spec())
}


/// The encoded form of a leaf cell: payload length, row id, payload bytes.
pub open spec fn spec_encode_leaf_cell(rid: RowId, payload: Seq<u8>) -> Seq<u8>
    recommends
        payload.len() <= u16::MAX,
{
    vstd::bytes::spec_u16_to_le_bytes(payload.len() as u16) + vstd::bytes::spec_u64_to_le_bytes(
        rid,
    ) + payload
}

/// Builds the encoded form of a leaf cell.
fn encode_leaf_cell(row_id: RowId, payload: &[u8]) -> (r: Vec<u8>)
    requires
        payload@.len() <= u16::MAX,
    ensures
        r@ == spec_encode_leaf_cell(row_id, payload@),
        r@.len() == LEAF_CELL_PREFIX_SIZE + payload@.len(),
{
    let mut cell = vstd::bytes::u16_to_le_bytes(payload.len() as u16);
    let mut rid_bytes = vstd::bytes::u64_to_le_bytes(row_id);
    cell.append(&mut rid_bytes);
    cell.extend_from_slice(payload);
    proof {
        assert(cell@ =~= spec_encode_leaf_cell(row_id, payload@));
    }
    cell
}

/// Reading a cell whose bytes are an encoded leaf cell gives back the fields
/// that were encoded.
pub proof fn lemma_decode_encoded_cell(f: Seq<u8>, off: int, rid: RowId, payload: Seq<u8>)
    requires
        f.len() == PAGE_SIZE,
        0 <= off,
        off + LEAF_CELL_PREFIX_SIZE + payload.len() <= PAGE_SIZE,
        payload.len() <= u16::MAX,
        f.subrange(off, off + LEAF_CELL_PREFIX_SIZE + payload.len()) == spec_encode_leaf_cell(
            rid,
            payload,
        ),
    ensures
        spec_cell_payload_len(f, off) == payload.len(),
        spec_cell_row_id(f, off) == rid,
        spec_cell_payload(f, off) == payload,
        spec_cell_size(f, off) == LEAF_CELL_PREFIX_SIZE + payload.len(),
{
    let enc = spec_encode_leaf_cell(rid, payload);
    let cl = LEAF_CELL_PREFIX_SIZE + payload.len();
    vstd::bytes::lemma_auto_spec_u16_to_from_le_bytes();
    vstd::bytes::lemma_auto_spec_u64_to_from_le_bytes();
    assert(f.subrange(off, off + 2) =~= enc.subrange(0, 2));
    assert(enc.subrange(0, 2) =~= vstd::bytes::spec_u16_to_le_bytes(payload.len() as u16));
    assert(f.subrange(off + 2, off + 10) =~= enc.subrange(2, 10));
    assert(enc.subrange(2, 10) =~= vstd::bytes::spec_u64_to_le_bytes(rid));
    assert(spec_cell_payload_len(f, off) == payload.len());
    assert(f.subrange(off + 10, off + 10 + payload.len()) =~= enc.subrange(10, enc.len() as int));
    assert(enc.subrange(10, enc.len() as int) =~= payload);
}

/// Two equal-length pages that agree on a cell's bytes decode it alike.
pub proof fn lemma_cell_agree(p1: Seq<u8>, p2: Seq<u8>, off: int)
    requires
        p1.len() == PAGE_SIZE,
        p2.len() == PAGE_SIZE,
        0 <= off,
        off + LEAF_CELL_PREFIX_SIZE <= PAGE_SIZE,
        off + LEAF_CELL_PREFIX_SIZE + spec_cell_payload_len(p1, off) <= PAGE_SIZE,
        forall|i: int|
            off <= i < off + LEAF_CELL_PREFIX_SIZE + spec_cell_payload_len(p1, off)
                ==> p2[i] == p1[i],
    ensures
        spec_cell_payload_len(p2, off) == spec_cell_payload_len(p1, off),
        spec_cell_row_id(p2, off) == spec_cell_row_id(p1, off),
        spec_cell_payload(p2, off) == spec_cell_payload(p1, off),
        spec_cell_size(p2, off) == spec_cell_size(p1, off),
{
    assert(p2.subrange(off, off + 2) =~= p1.subrange(off, off + 2));
    assert(p2.subrange(off + 2, off + 10) =~= p1.subrange(off + 2, off + 10));
    assert(p2.subrange(off + 10, off + 10 + spec_cell_payload_len(p1, off)) =~= p1.subrange(
        off + 10,
        off + 10 + spec_cell_payload_len(p1, off),
    ));
}

/// Under the leaf invariant there is always room for one more slot entry in
/// the directory itself.
pub proof fn lemma_leaf_room(page: Seq<u8>)
    requires
        spec_leaf_wf(page),
    ensures
        spec_slot_dir_end(spec_leaf_spec(), spec_cell_count(page) + 1) <= PAGE_SIZE,
{
    let cc = spec_cell_count(page) as int;
    if cc > 0 {
        assert(spec_cell_wf(page, spec_leaf_slot(page, 0)));
        assert(spec_content_start(page) + LEAF_CELL_PREFIX_SIZE <= PAGE_SIZE);
    }
}

/// Compacts live cells toward the page end and rewrites slot offsets; the
/// page's `(rowId, payload)` entries, and their order, are unchanged, and
/// the content start rises to leave exactly the live cells stored.
pub fn defragment(page: &mut Vec<u8>) -> (r: Result<(), TablePageError>)
    requires
        old(page)@.len() == PAGE_SIZE,
    ensures
        final(page)@.len() == PAGE_SIZE,
        !spec_layout_wf(old(page)@, spec_leaf_spec()) ==> r is Err && final(page)@ == old(page)@,
        r is Ok ==> spec_layout_wf(final(page)@, spec_leaf_spec()),
        spec_leaf_wf(old(page)@) ==> {
            &&& r == Ok::<(), TablePageError>(())
            &&& spec_leaf_wf(final(page)@)
            &&& spec_leaf_entries(final(page)@) == spec_leaf_entries(old(page)@)
            &&& spec_cell_count(final(page)@) == spec_cell_count(old(page)@)
            &&& spec_content_start(final(page)@) == PAGE_SIZE - spec_leaf_total(
                old(page)@,
                spec_cell_count(old(page)@) as int,
            )
        },
{
    let ghost o = old(page)@;
    match layout::validate(page, leaf_spec()) {
        Ok(()) => {},
        Err(e) => {
            return Err(e);
        },
    }
    let s = leaf_spec();
    let count = layout::cell_count(page) as usize;
    let start = layout::content_start(page) as usize;
    let mut cells: Vec<Vec<u8>> = Vec::new();
    let mut i: usize = 0;
    while i < count
        invariant
            o == old(page)@,
            page@ == o,
            page@.len() == PAGE_SIZE,
            spec_layout_wf(o, spec_leaf_spec()),
            s == spec_leaf_spec(),
            count == spec_cell_count(o),
            start == spec_content_start(o),
            0 <= i <= count,
            cells@.len() == i,
            forall|k: int|
                0 <= k < i ==> (#[trigger] cells@[k])@ == o.subrange(
                    spec_leaf_slot(o, k),
                    spec_leaf_slot(o, k) + spec_cell_size(o, spec_leaf_slot(o, k)),
                ),
            forall|k: int|
                0 <= k < i ==> (#[trigger] cells@[k])@.len() == spec_cell_size(
                    o,
                    spec_leaf_slot(o, k),
                ),
        decreases count - i,
    {
        let off = layout::slot_offset(page, s, i as u16) as usize;
        proof {
            if spec_leaf_wf(o) {
                assert(spec_cell_wf(o, spec_leaf_slot(o, i as int)));
            }
        }
        if off < start || off >= PAGE_SIZE || off + LEAF_CELL_PREFIX_SIZE > PAGE_SIZE {
            return Err(TablePageError::CorruptCell { slot_index: i as u16 });
        }
        let payload_len = read_u16_at(page, off) as usize;
        if off + LEAF_CELL_PREFIX_SIZE + payload_len > PAGE_SIZE {
            return Err(TablePageError::CorruptCell { slot_index: i as u16 });
        }
        let cell = subrange_to_vec(page, off, off + LEAF_CELL_PREFIX_SIZE + payload_len);
        cells.push(cell);
        i = i + 1;
    }
    let ghost collected = cells@;
    match layout::init_empty(page, s) {
        Ok(()) => {},
        Err(e) => {
            return Err(e);
        },
    }
    proof {
        layout::lemma_init_page_wf(s);
    }
    let mut k: usize = 0;
    while k < count
        invariant
            o == old(page)@,
            spec_layout_wf(page@, spec_leaf_spec()),
            s == spec_leaf_spec(),
            spec_layout_wf(o, spec_leaf_spec()),
            count == spec_cell_count(o),
            cells@ == collected,
            cells@.len() == count,
            forall|j: int|
                0 <= j < count ==> (#[trigger] cells@[j])@ == o.subrange(
                    spec_leaf_slot(o, j),
                    spec_leaf_slot(o, j) + spec_cell_size(o, spec_leaf_slot(o, j)),
                ),
            forall|j: int|
                0 <= j < count ==> (#[trigger] cells@[j])@.len() == spec_cell_size(
                    o,
                    spec_leaf_slot(o, j),
                ),
            0 <= k <= count,
            spec_cell_count(page@) == k,
            spec_leaf_wf(o) ==> {
                &&& spec_content_start(page@) == PAGE_SIZE - spec_leaf_total(o, k as int)
                &&& spec_leaf_total(page@, k as int) == spec_leaf_total(o, k as int)
                &&& forall|j: int|
                    0 <= j < k ==> #[trigger] spec_leaf_entry(page@, j) == spec_leaf_entry(o, j)
                &&& forall|j: int|
                    0 <= j < k ==> spec_cell_wf(page@, #[trigger] spec_leaf_slot(page@, j))
                &&& forall|j: int|
                    0 <= j < k ==> #[trigger] spec_cell_size(page@, spec_leaf_slot(page@, j))
                        == spec_cell_size(o, spec_leaf_slot(o, j))
                &&& forall|j1: int, j2: int|
                    0 <= j1 < k && 0 <= j2 < k && j1 != j2 ==> #[trigger] spec_cells_disjoint(
                        page@,
                        j1,
                        j2,
                    )
                &&& forall|j1: int, j2: int|
                    0 <= j1 < j2 < k ==> #[trigger] spec_leaf_slot(page@, j2)
                        + spec_cell_size(page@, spec_leaf_slot(page@, j2))
                        <= #[trigger] spec_leaf_slot(page@, j1)
            },
        decreases count - k,
    {
        proof {
            if spec_leaf_wf(o) {
                lemma_leaf_total_bounds(o, k as int, count as int);
            }
        }
        let ghost p0 = page@;
        let r1 = layout::try_append_cell_for_insert(page, s, cells[k].as_slice());
        proof {
            if spec_leaf_wf(o) {
                let sp = spec_leaf_spec();
                let cc = count as int;
                let size_k = spec_cell_size(o, spec_leaf_slot(o, k as int));
                assert(spec_cell_wf(o, spec_leaf_slot(o, k as int)));
                assert(size_k <= PAGE_SIZE);
                lemma_leaf_total_bounds(o, k as int + 1, cc);
                assert(spec_leaf_total(o, k as int + 1) == spec_leaf_total(o, k as int) + size_k);
                assert(spec_leaf_total(o, cc) <= PAGE_SIZE - spec_content_start(o));
                assert(spec_slot_dir_end(sp, cc) <= spec_content_start(o) as int);
                assert(cells@[k as int]@.len() == size_k);
                assert(spec_content_start(p0) as int - spec_slot_dir_end(sp, k as int + 1)
                    >= size_k);
            }
        }
        let off = match r1 {
            Ok(Ok(off)) => off,
            Ok(Err(_)) => {
                return Err(TablePageError::CorruptPage("cell content underflow"));
            },
            Err(e) => {
                return Err(e);
            },
        };
        let ghost p1 = page@;
        proof {
            if spec_leaf_wf(o) {
                assert(k <= spec_cell_count(p1));
                assert(spec_slot_dir_end(spec_leaf_spec(), spec_cell_count(p1) + 1)
                    <= spec_content_start(p1));
            }
        }
        match layout::insert_slot(page, s, k as u16, off) {
            Ok(()) => {},
            Err(e) => {
                return Err(e);
            },
        }
        proof {
            if spec_leaf_wf(o) {
                lemma_defrag_step(o, p0, p1, page@, collected, k as int, count as int, off);
            }
        }
        k = k + 1;
    }
    proof {
        if spec_leaf_wf(o) {
            assert(spec_leaf_entries(page@) =~= spec_leaf_entries(o));
            assert(forall|i1: int, j1: int|
                0 <= i1 < j1 < count ==> #[trigger] spec_leaf_rid(page@, i1)
                    < #[trigger] spec_leaf_rid(page@, j1)) by {
                assert(forall|j: int|
                    0 <= j < count ==> #[trigger] spec_leaf_entry(page@, j) == spec_leaf_entry(
                        o,
                        j,
                    ));
                assert(forall|j: int|
                    0 <= j < count ==> #[trigger] spec_leaf_rid(page@, j) == spec_leaf_entry(
                        page@,
                        j,
                    ).0);
            }
        }
    }
    Ok(())
}

/// A prefix sum of live-cell sizes never exceeds the total, and every
/// partial sum is non-negative.
pub proof fn lemma_leaf_total_bounds(page: Seq<u8>, k: int, n: int)
    requires
        0 <= k <= n,
        forall|i: int|
            0 <= i < n ==> spec_cell_wf(page, #[trigger] spec_leaf_slot(page, i)),
    ensures
        0 <= spec_leaf_total(page, k) <= spec_leaf_total(page, n),
    decreases n,
{
    if n > k {
        lemma_leaf_total_bounds(page, k, n - 1);
        assert(spec_cell_wf(page, spec_leaf_slot(page, n - 1)));
    } else if n > 0 {
        lemma_leaf_total_bounds(page, 0, n - 1);
        assert(spec_cell_wf(page, spec_leaf_slot(page, n - 1)));
    }
}

/// One defragment step: appending the stored copy of cell `k` and adding its
/// slot extends the rebuilt prefix by one entry, keeping everything the loop
/// invariant tracks.
#[verifier::spinoff_prover]
proof fn lemma_defrag_step(
    o: Seq<u8>,
    p0: Seq<u8>,
    p1: Seq<u8>,
    f: Seq<u8>,
    cells: Seq<Vec<u8>>,
    k: int,
    count: int,
    off: u16,
)
    requires
        spec_leaf_wf(o),
        count == spec_cell_count(o),
        0 <= k < count,
        cells.len() == count,
        forall|j: int|
            0 <= j < count ==> (#[trigger] cells[j])@ == o.subrange(
                spec_leaf_slot(o, j),
                spec_leaf_slot(o, j) + spec_cell_size(o, spec_leaf_slot(o, j)),
            ),
        forall|j: int|
            0 <= j < count ==> (#[trigger] cells[j])@.len() == spec_cell_size(
                o,
                spec_leaf_slot(o, j),
            ),
        // p0: the rebuilt page before this step
        spec_layout_wf(p0, spec_leaf_spec()),
        spec_cell_count(p0) == k,
        spec_content_start(p0) == PAGE_SIZE - spec_leaf_total(o, k),
        spec_leaf_total(p0, k) == spec_leaf_total(o, k),
        forall|j: int| 0 <= j < k ==> #[trigger] spec_leaf_entry(p0, j) == spec_leaf_entry(o, j),
        forall|j: int| 0 <= j < k ==> spec_cell_wf(p0, #[trigger] spec_leaf_slot(p0, j)),
        forall|j: int|
            0 <= j < k ==> #[trigger] spec_cell_size(p0, spec_leaf_slot(p0, j)) == spec_cell_size(
                o,
                spec_leaf_slot(o, j),
            ),
        forall|j1: int, j2: int|
            0 <= j1 < j2 < k ==> #[trigger] spec_leaf_slot(p0, j2) + spec_cell_size(
                p0,
                spec_leaf_slot(p0, j2),
            ) <= #[trigger] spec_leaf_slot(p0, j1),
        // p1: after the append succeeded
        layout::spec_try_append_post(
            p0,
            p1,
            spec_leaf_spec(),
            cells[k]@,
            1,
            Ok(Ok(off)),
        ),
        // f: after the slot insert succeeded at index k
        spec_cell_count(f) == k + 1,
        spec_content_start(f) == spec_content_start(p1),
        spec_layout_wf(f, spec_leaf_spec()),
        forall|j: int|
            0 <= j < k ==> spec_slot_offset(f, spec_leaf_spec(), j) == spec_slot_offset(
                p1,
                spec_leaf_spec(),
                j,
            ),
        spec_slot_offset(f, spec_leaf_spec(), k) == off,
        f.subrange(spec_content_start(p1) as int, PAGE_SIZE as int) == p1.subrange(
            spec_content_start(p1) as int,
            PAGE_SIZE as int,
        ),
    ensures
        spec_content_start(f) == PAGE_SIZE - spec_leaf_total(o, k + 1),
        spec_leaf_total(f, k + 1) == spec_leaf_total(o, k + 1),
        forall|j: int| 0 <= j < k + 1 ==> #[trigger] spec_leaf_entry(f, j) == spec_leaf_entry(o, j),
        forall|j: int| 0 <= j < k + 1 ==> spec_cell_wf(f, #[trigger] spec_leaf_slot(f, j)),
        forall|j: int|
            0 <= j < k + 1 ==> #[trigger] spec_cell_size(f, spec_leaf_slot(f, j)) == spec_cell_size(
                o,
                spec_leaf_slot(o, j),
            ),
        forall|j1: int, j2: int|
            0 <= j1 < k + 1 && 0 <= j2 < k + 1 && j1 != j2 ==> #[trigger] spec_cells_disjoint(
                f,
                j1,
                j2,
            ),
        forall|j1: int, j2: int|
            0 <= j1 < j2 < k + 1 ==> #[trigger] spec_leaf_slot(f, j2) + spec_cell_size(
                f,
                spec_leaf_slot(f, j2),
            ) <= #[trigger] spec_leaf_slot(f, j1),
{
    let sp = spec_leaf_spec();
    let cs0 = spec_content_start(p0) as int;
    let size_k = spec_cell_size(o, spec_leaf_slot(o, k));
    let ns = cs0 - cells[k]@.len();
    assert(spec_cell_wf(o, spec_leaf_slot(o, k)));
    assert(size_k >= LEAF_CELL_PREFIX_SIZE);
    // the append succeeded, so it placed the cell at ns
    assert(off == ns as u16);
    assert(spec_content_start(p1) == ns);
    assert(p1.subrange(ns, ns + cells[k]@.len()) == cells[k]@);
    // cell k decodes in p1/f as it did in o
    lemma_leaf_total_bounds(o, k + 1, count);
    lemma_leaf_total_bounds(o, k, k + 1);
    assert(spec_leaf_total(o, k + 1) == spec_leaf_total(o, k) + size_k);
    assert forall|i: int| ns <= i < ns + size_k implies f[i] == p1[i] by {
        assert(f.subrange(ns, PAGE_SIZE as int)[i - ns] == p1.subrange(ns, PAGE_SIZE as int)[i
            - ns]);
    }
    assert forall|i: int| ns <= i < ns + size_k implies p1[i] == cells[k]@[i - ns] by {
        assert(p1.subrange(ns, ns + size_k)[i - ns] == cells[k]@[i - ns]);
    }
    let ok = spec_leaf_slot(o, k);
    assert forall|i: int| 0 <= i < size_k implies cells[k]@[i] == o[ok + i] by {
        assert(cells[k]@[i] == o.subrange(ok, ok + size_k)[i]);
    }
    assert(spec_cell_payload_len(f, ns) == spec_cell_payload_len(o, ok)
        && spec_cell_row_id(f, ns) == spec_cell_row_id(o, ok) && spec_cell_payload(f, ns)
        == spec_cell_payload(o, ok)) by {
        assert(f.subrange(ns, ns + 2) =~= o.subrange(ok, ok + 2));
        assert(f.subrange(ns + 2, ns + 10) =~= o.subrange(ok + 2, ok + 10));
        assert(spec_cell_payload_len(f, ns) == spec_cell_payload_len(o, ok));
        assert(f.subrange(ns + 10, ns + 10 + spec_cell_payload_len(o, ok)) =~= o.subrange(
            ok + 10,
            ok + 10 + spec_cell_payload_len(o, ok),
        ));
    }
    assert(spec_leaf_entry(f, k) == spec_leaf_entry(o, k));
    assert(spec_cell_size(f, ns) == size_k);
    assert(spec_cell_wf(f, spec_leaf_slot(f, k)));
    // older cells keep their bytes: they lie at or above cs0 > ns
    assert forall|j: int| 0 <= j < k implies #[trigger] spec_leaf_entry(f, j) == spec_leaf_entry(
        o,
        j,
    ) && spec_cell_wf(f, spec_leaf_slot(f, j)) && spec_cell_size(f, spec_leaf_slot(f, j))
        == spec_cell_size(o, spec_leaf_slot(o, j)) && spec_leaf_slot(f, j) == spec_leaf_slot(
        p0,
        j,
    ) && spec_cell_size(f, spec_leaf_slot(f, j)) == spec_cell_size(p0, spec_leaf_slot(p0, j)) by {
        let oj = spec_leaf_slot(p0, j);
        assert(spec_cell_wf(p0, oj));
        assert(spec_slot_offset(p1, sp, j) == spec_slot_offset(p0, sp, j)) by {
            assert(layout::spec_slot_pos(sp, j) + 2 <= layout::spec_slot_dir_end(sp, k)) by {
                assert(layout::SLOT_WIDTH * j + 2 <= layout::SLOT_WIDTH * k) by (nonlinear_arith)
                    requires
                        j < k,
                ;
            }
            assert(layout::spec_slot_dir_end(sp, k) <= cs0 - cells[k]@.len());
        }
        assert forall|i: int| cs0 <= i < PAGE_SIZE implies p1[i] == p0[i] by {
            assert(p1.subrange(cs0, PAGE_SIZE as int)[i - cs0] == p0.subrange(
                cs0,
                PAGE_SIZE as int,
            )[i - cs0]);
        }
        assert forall|i: int| ns <= i < PAGE_SIZE implies f[i] == p1[i] by {
            assert(f.subrange(ns, PAGE_SIZE as int)[i - ns] == p1.subrange(ns, PAGE_SIZE as int)[i
                - ns]);
        }
        assert(forall|i: int| oj <= i < oj + spec_cell_size(p0, oj) ==> p1[i] == p0[i]);
        lemma_cell_agree(p0, p1, oj);
        lemma_cell_agree(p1, f, oj);
        assert(spec_leaf_slot(f, j) == oj);
        assert(spec_leaf_entry(f, j) == spec_leaf_entry(p0, j));
    }
    assert forall|j: int| 0 <= j < k implies #[trigger] spec_leaf_slot(f, j) == spec_leaf_slot(
        p0,
        j,
    ) by {
        assert(spec_leaf_entry(f, j) == spec_leaf_entry(o, j));
    }
    assert forall|j: int| 0 <= j < k implies #[trigger] spec_cell_size(f, spec_leaf_slot(f, j))
        == spec_cell_size(p0, spec_leaf_slot(p0, j)) by {
        assert(spec_leaf_entry(f, j) == spec_leaf_entry(o, j));
    }
    // totals
    assert(spec_leaf_total(f, k + 1) == spec_leaf_total(f, k) + spec_cell_size(
        f,
        spec_leaf_slot(f, k),
    ));
    lemma_total_agree(p0, f, k);
    assert(spec_leaf_total(f, k) == spec_leaf_total(p0, k));
    // packing order: cell k sits below every older cell
    assert forall|j1: int, j2: int| 0 <= j1 < j2 < k + 1 implies #[trigger] spec_leaf_slot(f, j2)
        + spec_cell_size(f, spec_leaf_slot(f, j2)) <= #[trigger] spec_leaf_slot(f, j1) by {
        if j2 == k {
            assert(spec_leaf_entry(f, j1) == spec_leaf_entry(o, j1));
            assert(spec_leaf_slot(f, k) == ns);
            assert(ns + size_k == cs0);
            assert(spec_leaf_slot(f, j1) == spec_leaf_slot(p0, j1));
            assert(spec_cell_wf(p0, spec_leaf_slot(p0, j1)));
        } else {
            assert(spec_leaf_entry(f, j1) == spec_leaf_entry(o, j1));
            assert(spec_leaf_entry(f, j2) == spec_leaf_entry(o, j2));
            assert(spec_leaf_slot(p0, j2) + spec_cell_size(p0, spec_leaf_slot(p0, j2))
                <= spec_leaf_slot(p0, j1));
            assert(spec_leaf_slot(f, j2) == spec_leaf_slot(p0, j2));
            assert(spec_leaf_slot(f, j1) == spec_leaf_slot(p0, j1));
        }
    }
    assert forall|j1: int, j2: int|
        0 <= j1 < k + 1 && 0 <= j2 < k + 1 && j1 != j2 implies #[trigger] spec_cells_disjoint(
        f,
        j1,
        j2,
    ) by {
        if j1 < j2 {
            assert(spec_leaf_slot(f, j2) + spec_cell_size(f, spec_leaf_slot(f, j2))
                <= spec_leaf_slot(f, j1));
        } else {
            assert(spec_leaf_slot(f, j1) + spec_cell_size(f, spec_leaf_slot(f, j1))
                <= spec_leaf_slot(f, j2));
        }
    }
}

/// Two pages with the same first `n` slots and agreeing cell bytes have the
/// same partial totals.
proof fn lemma_total_agree(p0: Seq<u8>, f: Seq<u8>, n: int)
    requires
        forall|j: int|
            0 <= j < n ==> #[trigger] spec_leaf_slot(f, j) == spec_leaf_slot(p0, j),
        forall|j: int|
            0 <= j < n ==> #[trigger] spec_cell_size(f, spec_leaf_slot(f, j)) == spec_cell_size(
                p0,
                spec_leaf_slot(p0, j),
            ),
    ensures
        spec_leaf_total(f, n) == spec_leaf_total(p0, n),
    decreases n,
{
    if n > 0 {
        lemma_total_agree(p0, f, n - 1);
    }
}


/// The free space an insert of a cell of `cl` bytes can count on after one
/// defragmentation: the whole page minus the header, the enlarged slot
/// directory, and the live cells.
pub open spec fn spec_leaf_spare(page: Seq<u8>) -> int {
    PAGE_SIZE - spec_leaf_total(page, spec_cell_count(page) as int) - spec_slot_dir_end(
        spec_leaf_spec(),
        spec_cell_count(page) + 1,
    )
}

/// Whether a cell of `cl` bytes fits on the page once it is compacted.
pub open spec fn spec_leaf_fits(page: Seq<u8>, cl: int) -> bool {
    cl <= spec_leaf_spare(page)
}

/// Sums under an insertion mapping: the first `n` cells of `f` are those of
/// `p` with one cell of size `cl` inserted at `idx`.
proof fn lemma_total_insert_map(p: Seq<u8>, f: Seq<u8>, idx: int, cl: int, n: int)
    requires
        0 <= idx,
        forall|j: int|
            0 <= j < idx && j < n ==> #[trigger] spec_cell_size(f, spec_leaf_slot(f, j))
                == spec_cell_size(p, spec_leaf_slot(p, j)),
        idx < n ==> spec_cell_size(f, spec_leaf_slot(f, idx)) == cl,
        forall|j: int|
            idx < j < n ==> #[trigger] spec_cell_size(f, spec_leaf_slot(f, j)) == spec_cell_size(
                p,
                spec_leaf_slot(p, j - 1),
            ),
    ensures
        spec_leaf_total(f, n) == if n <= idx {
            spec_leaf_total(p, n)
        } else {
            spec_leaf_total(p, n - 1) + cl
        },
    decreases n,
{
    if n > 0 {
        lemma_total_insert_map(p, f, idx, cl, n - 1);
    }
}

/// Sums under a removal mapping: the first `n` cells of `f` are those of `p`
/// with the cell at `idx` removed.
proof fn lemma_total_remove_map(p: Seq<u8>, f: Seq<u8>, idx: int, n: int)
    requires
        0 <= idx,
        forall|j: int|
            0 <= j < idx && j < n ==> #[trigger] spec_cell_size(f, spec_leaf_slot(f, j))
                == spec_cell_size(p, spec_leaf_slot(p, j)),
        forall|j: int|
            idx <= j < n ==> #[trigger] spec_cell_size(f, spec_leaf_slot(f, j)) == spec_cell_size(
                p,
                spec_leaf_slot(p, j + 1),
            ),
    ensures
        spec_leaf_total(f, n) == if n <= idx {
            spec_leaf_total(p, n)
        } else {
            spec_leaf_total(p, n + 1) - spec_cell_size(p, spec_leaf_slot(p, idx))
        },
    decreases n,
{
    if n > 0 {
        lemma_total_remove_map(p, f, idx, n - 1);
        assert(spec_leaf_total(p, n + 1) == spec_leaf_total(p, n) + spec_cell_size(
            p,
            spec_leaf_slot(p, n),
        ));
        assert(spec_leaf_total(p, n) == spec_leaf_total(p, n - 1) + spec_cell_size(
            p,
            spec_leaf_slot(p, n - 1),
        ));
        assert(spec_leaf_total(f, n) == spec_leaf_total(f, n - 1) + spec_cell_size(
            f,
            spec_leaf_slot(f, n - 1),
        ));
    }
}

/// One successful cell append plus slot insert turns a well-formed leaf page
/// `p` into a well-formed page `f` whose entries are those of `p` with
/// `(rid, payload)` inserted at `idx`.
#[verifier::spinoff_prover]
#[verifier::rlimit(30)]
proof fn lemma_leaf_insert_step(
    p: Seq<u8>,
    p1: Seq<u8>,
    f: Seq<u8>,
    rid: RowId,
    payload: Seq<u8>,
    idx: int,
    off: u16,
)
    requires
        spec_leaf_wf(p),
        payload.len() <= u16::MAX,
        LEAF_CELL_PREFIX_SIZE + payload.len() <= u16::MAX,
        idx == spec_lower_bound(spec_leaf_rids(p), rid),
        !spec_leaf_has(p, rid),
        layout::spec_try_append_post(
            p,
            p1,
            spec_leaf_spec(),
            spec_encode_leaf_cell(rid, payload),
            1,
            Ok(Ok(off)),
        ),
        spec_slot_dir_end(spec_leaf_spec(), spec_cell_count(p) + 1) <= PAGE_SIZE,
        spec_cell_count(f) == spec_cell_count(p) + 1,
        spec_content_start(f) == spec_content_start(p1),
        spec_layout_wf(f, spec_leaf_spec()),
        forall|j: int|
            0 <= j < idx ==> #[trigger] spec_slot_offset(f, spec_leaf_spec(), j)
                == spec_slot_offset(p1, spec_leaf_spec(), j),
        spec_slot_offset(f, spec_leaf_spec(), idx) == off,
        forall|j: int|
            idx < j <= spec_cell_count(p) ==> #[trigger] spec_slot_offset(f, spec_leaf_spec(), j)
                == spec_slot_offset(p1, spec_leaf_spec(), j - 1),
        f.subrange(spec_content_start(p1) as int, PAGE_SIZE as int) == p1.subrange(
            spec_content_start(p1) as int,
            PAGE_SIZE as int,
        ),
    ensures
        spec_leaf_wf(f),
        spec_leaf_entries(f) == spec_leaf_entries(p).insert(idx, (rid, payload)),
{
    let sp = spec_leaf_spec();
    let cc = spec_cell_count(p) as int;
    let cs = spec_content_start(p) as int;
    let cl = LEAF_CELL_PREFIX_SIZE + payload.len() as int;
    let ns = cs - cl;
    let enc = spec_encode_leaf_cell(rid, payload);
    lemma_lower_bound_props(spec_leaf_rids(p), rid);
    assert(enc.len() == cl) by {
        vstd::bytes::lemma_auto_spec_u16_to_from_le_bytes();
        vstd::bytes::lemma_auto_spec_u64_to_from_le_bytes();
    }
    assert(spec_content_start(p1) == ns);
    assert(off == ns as u16);
    // bytes of p preserved into p1 above cs, and into f above ns
    assert forall|i: int| cs <= i < PAGE_SIZE implies p1[i] == p[i] by {
        assert(p1.subrange(cs, PAGE_SIZE as int)[i - cs] == p.subrange(cs, PAGE_SIZE as int)[i
            - cs]);
    }
    assert forall|i: int| ns <= i < PAGE_SIZE implies f[i] == p1[i] by {
        assert(f.subrange(ns, PAGE_SIZE as int)[i - ns] == p1.subrange(ns, PAGE_SIZE as int)[i
            - ns]);
    }
    // the new cell decodes to (rid, payload)
    assert(f.subrange(ns, ns + cl) =~= enc) by {
        assert(p1.subrange(ns, ns + cl) == enc);
        assert(forall|i: int| ns <= i < ns + cl ==> #[trigger] f[i] == p1[i]);
        assert(f.subrange(ns, ns + cl) =~= p1.subrange(ns, ns + cl));
    }
    lemma_decode_encoded_cell(f, ns, rid, payload);
    // old slots keep their offsets end to end
    assert forall|j: int| 0 <= j < idx implies #[trigger] spec_leaf_slot(f, j) == spec_leaf_slot(
        p,
        j,
    ) by {
        assert(layout::spec_slot_pos(sp, j) + 2 <= ns) by {
            assert(layout::SLOT_WIDTH * j + 2 <= layout::SLOT_WIDTH * (cc + 1)) by (nonlinear_arith)
                requires
                    j < cc + 1,
            ;
        }
    }
    assert forall|j: int| idx < j <= cc implies #[trigger] spec_leaf_slot(f, j) == spec_leaf_slot(
        p,
        j - 1,
    ) by {
        assert(layout::spec_slot_pos(sp, j - 1) + 2 <= ns) by {
            assert(layout::SLOT_WIDTH * (j - 1) + 2 <= layout::SLOT_WIDTH * (cc + 1))
                by (nonlinear_arith)
                requires
                    j - 1 < cc + 1,
            ;
        }
    }
    // old cells decode alike in f
    assert forall|j: int| 0 <= j < cc implies #[trigger] spec_cell_size(f, spec_leaf_slot(p, j))
        == spec_cell_size(p, spec_leaf_slot(p, j)) && spec_cell_row_id(f, spec_leaf_slot(p, j))
        == spec_cell_row_id(p, spec_leaf_slot(p, j)) && spec_cell_payload(f, spec_leaf_slot(p, j))
        == spec_cell_payload(p, spec_leaf_slot(p, j)) && spec_cell_payload_len(
        f,
        spec_leaf_slot(p, j),
    ) == spec_cell_payload_len(p, spec_leaf_slot(p, j)) by {
        assert(spec_cell_wf(p, spec_leaf_slot(p, j)));
        lemma_cell_agree(p, f, spec_leaf_slot(p, j));
    }
    // entries line up with the inserted sequence
    assert(spec_leaf_entry(f, idx) == (rid, payload));
    assert forall|j: int| 0 <= j < idx implies #[trigger] spec_leaf_entry(f, j) == spec_leaf_entry(
        p,
        j,
    ) by {
        assert(spec_cell_wf(p, spec_leaf_slot(p, j)));
        assert(spec_cell_size(f, spec_leaf_slot(p, j)) == spec_cell_size(p, spec_leaf_slot(p, j)));
        assert(spec_leaf_slot(f, j) == spec_leaf_slot(p, j));
    }
    assert forall|j: int| idx < j <= cc implies #[trigger] spec_leaf_entry(f, j)
        == spec_leaf_entry(p, j - 1) by {
        assert(spec_cell_wf(p, spec_leaf_slot(p, j - 1)));
        assert(spec_cell_size(f, spec_leaf_slot(p, j - 1)) == spec_cell_size(
            p,
            spec_leaf_slot(p, j - 1),
        ));
        assert(spec_leaf_slot(f, j) == spec_leaf_slot(p, j - 1));
    }
    assert(spec_leaf_entries(f) =~~= spec_leaf_entries(p).insert(idx, (rid, payload)));
    // well-formedness of f
    assert forall|j: int| 0 <= j < cc + 1 implies spec_cell_wf(
        f,
        #[trigger] spec_leaf_slot(f, j),
    ) by {
        if j < idx {
            assert(spec_cell_wf(p, spec_leaf_slot(p, j)));
        } else if j == idx {
            assert(spec_cell_wf(f, ns));
        } else {
            assert(spec_cell_wf(p, spec_leaf_slot(p, j - 1)));
        }
    }
    assert forall|i: int, j: int| 0 <= i < j < cc + 1 implies #[trigger] spec_leaf_rid(f, i)
        < #[trigger] spec_leaf_rid(f, j) by {
        assert(forall|a: int| 0 <= a < cc ==> #[trigger] spec_leaf_rids(p)[a] == spec_leaf_rid(
            p,
            a,
        ));
        assert forall|a: int| 0 <= a < idx implies #[trigger] spec_leaf_rid(p, a) < rid by {
            assert(spec_leaf_rids(p)[a] == spec_leaf_rid(p, a));
        }
        assert forall|a: int| idx <= a < cc implies #[trigger] spec_leaf_rid(p, a) >= rid by {
            assert(spec_leaf_rids(p)[a] == spec_leaf_rid(p, a));
        }
        assert forall|a: int| idx <= a < cc implies #[trigger] spec_leaf_rid(p, a) != rid by {
            assert(spec_leaf_rids(p)[a] == spec_leaf_rid(p, a));
            assert(spec_leaf_rids(p)[idx] == spec_leaf_rid(p, idx));
            if a > idx {
                assert(spec_leaf_rid(p, idx) < spec_leaf_rid(p, a));
                assert(spec_leaf_rid(p, idx) >= rid);
            }
        }
        assert(spec_leaf_rid(f, i) == spec_leaf_entry(f, i).0);
        assert(spec_leaf_rid(f, j) == spec_leaf_entry(f, j).0);
        if i < idx {
            assert(spec_leaf_entry(f, i) == spec_leaf_entry(p, i));
        } else if i == idx {
            assert(spec_leaf_entry(f, idx) == (rid, payload));
        } else {
            assert(spec_leaf_entry(f, i) == spec_leaf_entry(p, i - 1));
        }
        if j < idx {
            assert(spec_leaf_entry(f, j) == spec_leaf_entry(p, j));
        } else if j == idx {
            assert(spec_leaf_entry(f, idx) == (rid, payload));
        } else {
            assert(spec_leaf_entry(f, j) == spec_leaf_entry(p, j - 1));
        }
    }
    assert forall|i: int, j: int|
        0 <= i < cc + 1 && 0 <= j < cc + 1 && i != j implies #[trigger] spec_cells_disjoint(
        f,
        i,
        j,
    ) by {
        let oi = spec_leaf_slot(f, i);
        let oj = spec_leaf_slot(f, j);
        if i != idx && j != idx {
            let pi = if i < idx { i } else { i - 1 };
            let pj = if j < idx { j } else { j - 1 };
            assert(spec_cells_disjoint(p, pi, pj));
            assert(spec_cell_wf(p, spec_leaf_slot(p, pi)));
            assert(spec_cell_wf(p, spec_leaf_slot(p, pj)));
        } else if i == idx {
            assert(oi == ns && oi + spec_cell_size(f, oi) == cs);
            let pj = if j < idx { j } else { j - 1 };
            assert(spec_cell_wf(p, spec_leaf_slot(p, pj)));
        } else {
            assert(oj == ns && oj + spec_cell_size(f, oj) == cs);
            let pi = if i < idx { i } else { i - 1 };
            assert(spec_cell_wf(p, spec_leaf_slot(p, pi)));
        }
    }
    assert(spec_leaf_total(f, cc + 1) == spec_leaf_total(p, cc) + cl) by {
        lemma_total_insert_map(p, f, idx, cl, cc + 1);
    }
}

/// Inserts a new cell keyed by `row_id`, preserving sorted slot order,
/// defragmenting once if the first placement attempt finds no room.
///
/// On a well-formed page: a present key fails with `DuplicateRowId` and a
/// payload longer than `u16::MAX` with `CellTooLarge`, both leaving the
/// page untouched; a fitting insert adds exactly `(row_id, payload)` at the
/// sorted position; any other non-fitting one fails with `PageFull` naming
/// the needed and available byte counts, with the page compacted but its
/// entries unchanged.
pub fn insert(page: &mut Vec<u8>, row_id: RowId, payload: &[u8]) -> (r: Result<(), TablePageError>)
    requires
        old(page)@.len() == PAGE_SIZE,
    ensures
        final(page)@.len() == PAGE_SIZE,
        !spec_layout_wf(old(page)@, spec_leaf_spec()) ==> r is Err && final(page)@ == old(page)@,
        spec_leaf_wf(old(page)@) ==> {
            let o = old(page)@;
            let lb = spec_lower_bound(spec_leaf_rids(o), row_id);
            let cl = LEAF_CELL_PREFIX_SIZE + payload@.len();
            &&& spec_leaf_has(o, row_id) ==> r == Err::<(), TablePageError>(
                TablePageError::DuplicateRowId(row_id),
            ) && final(page)@ == o
            &&& !spec_leaf_has(o, row_id) && payload@.len() > u16::MAX ==> r == Err::<
                (),
                TablePageError,
            >(TablePageError::CellTooLarge { len: payload@.len() as usize }) && final(page)@ == o
            &&& !spec_leaf_has(o, row_id) && payload@.len() <= u16::MAX && spec_leaf_fits(
                o,
                cl as int,
            ) ==> r == Ok::<(), TablePageError>(()) && spec_leaf_wf(final(page)@)
                && spec_leaf_entries(final(page)@) == spec_leaf_entries(o).insert(
                lb,
                (row_id, payload@),
            )
            &&& !spec_leaf_has(o, row_id) && payload@.len() <= u16::MAX && !spec_leaf_fits(
                o,
                cl as int,
            ) ==> r == Err::<(), TablePageError>(
                TablePageError::PageFull {
                    needed: cl as usize,
                    available: if spec_leaf_spare(o) >= 0 {
                        spec_leaf_spare(o) as usize
                    } else {
                        0
                    },
                },
            ) && spec_leaf_wf(final(page)@) && spec_leaf_entries(final(page)@)
                == spec_leaf_entries(o)
        },
{
    let ghost o = old(page)@;
    match layout::validate(page, leaf_spec()) {
        Ok(()) => {},
        Err(e) => {
            return Err(e);
        },
    }
    let s = leaf_spec();
    let insertion_index = match find_leaf_slot(page, row_id)? {
        SearchResult::Found(_) => {
            return Err(TablePageError::DuplicateRowId(row_id));
        },
        SearchResult::NotFound(i) => i,
    };
    if payload.len() > u16::MAX as usize {
        return Err(TablePageError::CellTooLarge { len: payload.len() });
    }
    let cell = encode_leaf_cell(row_id, payload);
    proof {
        if spec_leaf_wf(o) {
            lemma_leaf_room(o);
            lemma_lower_bound_props(spec_leaf_rids(o), row_id);
        }
    }
    let ghost mut pre = o;
    let r1 = layout::try_append_cell_for_insert(page, s, cell.as_slice());
    let off = match r1 {
        Ok(Ok(off)) => {
            proof {
                if spec_leaf_wf(o) {
                    lemma_append_means_fits(o, cell@.len() as int);
                }
            }
            off
        },
        Ok(Err(_)) => {
            match defragment(page) {
                Ok(()) => {},
                Err(e) => {
                    proof {
                        if spec_leaf_wf(o) {
                            assert(false);
                        }
                    }
                    return Err(e);
                },
            }
            proof {
                pre = page@;
                if spec_leaf_wf(o) {
                    lemma_leaf_room(pre);
                    lemma_entries_total(o, pre);
                }
            }
            let r2 = layout::try_append_cell_for_insert(page, s, cell.as_slice());
            match r2 {
                Ok(Ok(off)) => off,
                Ok(Err(se)) => {
                    proof {
                        if spec_leaf_wf(o) {
                            assert(!spec_leaf_fits(o, cell@.len() as int));
                            assert(se.needed == cell@.len());
                            assert(se.available as int == if spec_leaf_spare(o) >= 0 {
                                spec_leaf_spare(o)
                            } else {
                                0
                            });
                        }
                    }
                    return Err(
                        TablePageError::PageFull { needed: se.needed, available: se.available },
                    );
                },
                Err(e) => {
                    proof {
                        if spec_leaf_wf(o) {
                            assert(false);
                        }
                    }
                    return Err(e);
                },
            }
        },
        Err(e) => {
            proof {
                if spec_leaf_wf(o) {
                    assert(false);
                }
            }
            return Err(e);
        },
    };
    let ghost p1 = page@;
    proof {
        if spec_leaf_wf(o) {
            assert(spec_leaf_wf(pre));
            assert(spec_leaf_entries(pre) == spec_leaf_entries(o));
            assert(spec_leaf_rids(pre) =~= spec_leaf_rids(o)) by {
                assert(forall|i: int|
                    0 <= i < spec_cell_count(pre) ==> #[trigger] spec_leaf_rid(pre, i)
                        == spec_leaf_entry(pre, i).0 && spec_leaf_entry(pre, i)
                        == spec_leaf_entries(pre)[i]);
                assert(forall|i: int|
                    0 <= i < spec_cell_count(o) ==> #[trigger] spec_leaf_rid(o, i)
                        == spec_leaf_entry(o, i).0 && spec_leaf_entry(o, i) == spec_leaf_entries(
                        o,
                    )[i]);
            }
            assert(spec_leaf_has(pre, row_id) == spec_leaf_has(o, row_id)
                && spec_lower_bound(spec_leaf_rids(pre), row_id) == spec_lower_bound(
                spec_leaf_rids(o),
                row_id,
            )) by {
                let lb = spec_lower_bound(spec_leaf_rids(o), row_id);
                lemma_lower_bound_le(spec_leaf_rids(o), row_id);
                if lb < spec_cell_count(o) {
                    assert(spec_leaf_rid(pre, lb) == spec_leaf_rids(pre)[lb]);
                    assert(spec_leaf_rid(o, lb) == spec_leaf_rids(o)[lb]);
                }
            }
            assert(layout::spec_try_append_post(pre, p1, spec_leaf_spec(), cell@, 1, Ok(Ok(off))));
            lemma_leaf_room(pre);
            assert(insertion_index <= spec_cell_count(p1));
            assert(spec_slot_dir_end(spec_leaf_spec(), spec_cell_count(p1) + 1)
                <= spec_content_start(p1));
        }
    }
    match layout::insert_slot(page, s, insertion_index, off) {
        Ok(()) => {},
        Err(e) => {
            proof {
                if spec_leaf_wf(o) {
                    assert(false);
                }
            }
            return Err(e);
        },
    }
    proof {
        if spec_leaf_wf(o) {
            lemma_leaf_insert_step(
                pre,
                p1,
                page@,
                row_id,
                payload@,
                insertion_index as int,
                off,
            );
            assert(spec_leaf_entries(page@) == spec_leaf_entries(o).insert(
                insertion_index as int,
                (row_id, payload@),
            ));
            lemma_append_means_fits(pre, cell@.len() as int);
            lemma_entries_total(o, pre);
            assert(spec_leaf_fits(o, cell@.len() as int));
        }
    }
    Ok(())
}

/// A successful first placement attempt implies the cell also fits after
/// compaction.
proof fn lemma_append_means_fits(page: Seq<u8>, cl: int)
    requires
        spec_leaf_wf(page),
        cl <= spec_content_start(page) as int - spec_slot_dir_end(
            spec_leaf_spec(),
            spec_cell_count(page) + 1,
        ),
    ensures
        spec_leaf_fits(page, cl),
{
    let cc = spec_cell_count(page) as int;
    assert(spec_leaf_total(page, cc) <= PAGE_SIZE - spec_content_start(page));
}

/// Two well-formed pages with equal entries have equal live-cell totals.
proof fn lemma_entries_total(a: Seq<u8>, b: Seq<u8>)
    requires
        spec_leaf_wf(a),
        spec_leaf_wf(b),
        spec_leaf_entries(a) == spec_leaf_entries(b),
    ensures
        spec_leaf_total(a, spec_cell_count(a) as int) == spec_leaf_total(
            b,
            spec_cell_count(b) as int,
        ),
{
    assert(spec_cell_count(a) == spec_leaf_entries(a).len());
    assert(spec_cell_count(b) == spec_leaf_entries(b).len());
    lemma_entries_total_rec(a, b, spec_cell_count(a) as int);
}

proof fn lemma_entries_total_rec(a: Seq<u8>, b: Seq<u8>, n: int)
    requires
        spec_leaf_wf(a),
        spec_leaf_wf(b),
        spec_leaf_entries(a) == spec_leaf_entries(b),
        n <= spec_cell_count(a) as int,
        spec_cell_count(a) == spec_cell_count(b),
    ensures
        spec_leaf_total(a, n) == spec_leaf_total(b, n),
    decreases n,
{
    if n > 0 {
        lemma_entries_total_rec(a, b, n - 1);
        assert(spec_leaf_entries(a)[n - 1] == spec_leaf_entries(b)[n - 1]);
        assert(spec_cell_wf(a, spec_leaf_slot(a, n - 1)));
        assert(spec_cell_wf(b, spec_leaf_slot(b, n - 1)));
        assert(spec_cell_payload(a, spec_leaf_slot(a, n - 1)) == spec_cell_payload(
            b,
            spec_leaf_slot(b, n - 1),
        ));
        assert(spec_cell_payload(a, spec_leaf_slot(a, n - 1)).len() == spec_cell_payload_len(
            a,
            spec_leaf_slot(a, n - 1),
        ));
        assert(spec_cell_payload(b, spec_leaf_slot(b, n - 1)).len() == spec_cell_payload_len(
            b,
            spec_leaf_slot(b, n - 1),
        ));
    }
}


/// Removing one slot from a well-formed leaf page leaves a well-formed page
/// whose entries are the old ones with that entry removed.
#[verifier::spinoff_prover]
proof fn lemma_leaf_delete_step(o: Seq<u8>, f: Seq<u8>, idx: int)
    requires
        spec_leaf_wf(o),
        0 <= idx < spec_cell_count(o),
        spec_layout_wf(f, spec_leaf_spec()),
        spec_cell_count(f) == spec_cell_count(o) - 1,
        spec_content_start(f) == spec_content_start(o),
        forall|j: int|
            0 <= j < idx ==> #[trigger] spec_slot_offset(f, spec_leaf_spec(), j)
                == spec_slot_offset(o, spec_leaf_spec(), j),
        forall|j: int|
            idx <= j < spec_cell_count(o) - 1 ==> #[trigger] spec_slot_offset(
                f,
                spec_leaf_spec(),
                j,
            ) == spec_slot_offset(o, spec_leaf_spec(), j + 1),
        f.subrange(spec_content_start(o) as int, PAGE_SIZE as int) == o.subrange(
            spec_content_start(o) as int,
            PAGE_SIZE as int,
        ),
    ensures
        spec_leaf_wf(f),
        spec_leaf_entries(f) == spec_leaf_entries(o).remove(idx),
{
    let cc = spec_cell_count(o) as int;
    let cs = spec_content_start(o) as int;
    assert forall|i: int| cs <= i < PAGE_SIZE implies f[i] == o[i] by {
        assert(f.subrange(cs, PAGE_SIZE as int)[i - cs] == o.subrange(cs, PAGE_SIZE as int)[i
            - cs]);
    }
    assert forall|j: int| 0 <= j < cc implies #[trigger] spec_cell_size(f, spec_leaf_slot(o, j))
        == spec_cell_size(o, spec_leaf_slot(o, j)) && spec_cell_row_id(f, spec_leaf_slot(o, j))
        == spec_cell_row_id(o, spec_leaf_slot(o, j)) && spec_cell_payload(f, spec_leaf_slot(o, j))
        == spec_cell_payload(o, spec_leaf_slot(o, j)) && spec_cell_payload_len(
        f,
        spec_leaf_slot(o, j),
    ) == spec_cell_payload_len(o, spec_leaf_slot(o, j)) by {
        assert(spec_cell_wf(o, spec_leaf_slot(o, j)));
        lemma_cell_agree(o, f, spec_leaf_slot(o, j));
    }
    assert forall|j: int| 0 <= j < cc - 1 implies #[trigger] spec_leaf_entry(f, j) == (if j < idx {
        spec_leaf_entry(o, j)
    } else {
        spec_leaf_entry(o, j + 1)
    }) && #[trigger] spec_leaf_slot(f, j) == (if j < idx {
        spec_leaf_slot(o, j)
    } else {
        spec_leaf_slot(o, j + 1)
    }) by {
        if j < idx {
            assert(spec_cell_wf(o, spec_leaf_slot(o, j)));
            assert(spec_cell_size(f, spec_leaf_slot(o, j)) == spec_cell_size(
                o,
                spec_leaf_slot(o, j),
            ));
        } else {
            assert(spec_cell_wf(o, spec_leaf_slot(o, j + 1)));
            assert(spec_cell_size(f, spec_leaf_slot(o, j + 1)) == spec_cell_size(
                o,
                spec_leaf_slot(o, j + 1),
            ));
        }
    }
    assert(spec_leaf_entries(f) =~~= spec_leaf_entries(o).remove(idx));
    assert forall|j: int| 0 <= j < cc - 1 implies spec_cell_wf(
        f,
        #[trigger] spec_leaf_slot(f, j),
    ) by {
        let pj = if j < idx {
            j
        } else {
            j + 1
        };
        assert(spec_cell_wf(o, spec_leaf_slot(o, pj)));
        assert(spec_cell_size(f, spec_leaf_slot(o, pj)) == spec_cell_size(o, spec_leaf_slot(o, pj)));
    }
    assert forall|i: int, j: int| 0 <= i < j < cc - 1 implies #[trigger] spec_leaf_rid(f, i)
        < #[trigger] spec_leaf_rid(f, j) by {
        let pi = if i < idx {
            i
        } else {
            i + 1
        };
        let pj = if j < idx {
            j
        } else {
            j + 1
        };
        assert(spec_leaf_rid(f, i) == spec_leaf_entry(f, i).0);
        assert(spec_leaf_rid(f, j) == spec_leaf_entry(f, j).0);
        assert(spec_leaf_rid(o, pi) == spec_leaf_entry(o, pi).0);
        assert(spec_leaf_rid(o, pj) == spec_leaf_entry(o, pj).0);
        assert(spec_leaf_rid(o, pi) < spec_leaf_rid(o, pj));
    }
    assert forall|i: int, j: int|
        0 <= i < cc - 1 && 0 <= j < cc - 1 && i != j implies #[trigger] spec_cells_disjoint(
        f,
        i,
        j,
    ) by {
        let pi = if i < idx {
            i
        } else {
            i + 1
        };
        let pj = if j < idx {
            j
        } else {
            j + 1
        };
        assert(spec_cells_disjoint(o, pi, pj));
        assert(spec_cell_size(f, spec_leaf_slot(o, pi)) == spec_cell_size(o, spec_leaf_slot(o, pi)));
        assert(spec_cell_size(f, spec_leaf_slot(o, pj)) == spec_cell_size(o, spec_leaf_slot(o, pj)));
    }
    assert(spec_leaf_total(f, cc - 1) == spec_leaf_total(o, cc) - spec_cell_size(
        o,
        spec_leaf_slot(o, idx),
    )) by {
        lemma_total_remove_map(o, f, idx, cc - 1);
    }
    assert(spec_cell_size(o, spec_leaf_slot(o, idx)) >= 0);
}

/// Deletes the cell for `row_id`.
///
/// On a well-formed page: fails with `RowIdNotFound` and leaves the page
/// untouched when the key is absent; otherwise removes exactly that entry.
/// The cell bytes are not zeroed.
pub fn delete(page: &mut Vec<u8>, row_id: RowId) -> (r: Result<(), TablePageError>)
    requires
        old(page)@.len() == PAGE_SIZE,
    ensures
        final(page)@.len() == PAGE_SIZE,
        !spec_layout_wf(old(page)@, spec_leaf_spec()) ==> r is Err && final(page)@ == old(page)@,
        spec_leaf_wf(old(page)@) ==> {
            let o = old(page)@;
            let lb = spec_lower_bound(spec_leaf_rids(o), row_id);
            &&& !spec_leaf_has(o, row_id) ==> r == Err::<(), TablePageError>(
                TablePageError::RowIdNotFound(row_id),
            ) && final(page)@ == o
            &&& spec_leaf_has(o, row_id) ==> r == Ok::<(), TablePageError>(()) && spec_leaf_wf(
                final(page)@,
            ) && spec_leaf_entries(final(page)@) == spec_leaf_entries(o).remove(lb)
        },
{
    let ghost o = old(page)@;
    match layout::validate(page, leaf_spec()) {
        Ok(()) => {},
        Err(e) => {
            return Err(e);
        },
    }
    let slot_index = match find_leaf_slot(page, row_id)? {
        SearchResult::Found(i) => i,
        SearchResult::NotFound(_) => {
            return Err(TablePageError::RowIdNotFound(row_id));
        },
    };
    match layout::remove_slot(page, leaf_spec(), slot_index) {
        Ok(()) => {},
        Err(e) => {
            return Err(e);
        },
    }
    proof {
        if spec_leaf_wf(o) {
            lemma_lower_bound_props(spec_leaf_rids(o), row_id);
            lemma_leaf_delete_step(o, page@, slot_index as int);
        }
    }
    Ok(())
}


/// Sums under an update mapping: the first `n` cells of `f` match those of
/// `p` except at `idx`, where the size is `cl`.
proof fn lemma_total_update_map(p: Seq<u8>, f: Seq<u8>, idx: int, cl: int, n: int)
    requires
        0 <= idx,
        forall|j: int|
            0 <= j < n && j != idx ==> #[trigger] spec_cell_size(f, spec_leaf_slot(f, j))
                == spec_cell_size(p, spec_leaf_slot(p, j)),
        idx < n ==> spec_cell_size(f, spec_leaf_slot(f, idx)) == cl,
    ensures
        spec_leaf_total(f, n) == if n <= idx {
            spec_leaf_total(p, n)
        } else {
            spec_leaf_total(p, n) - spec_cell_size(p, spec_leaf_slot(p, idx)) + cl
        },
    decreases n,
{
    if n > 0 {
        lemma_total_update_map(p, f, idx, cl, n - 1);
    }
}

/// Overwriting one cell in place with an equal-sized encoding keeps the page
/// well formed and replaces exactly that entry.
#[verifier::spinoff_prover]
proof fn lemma_leaf_update_inplace(o: Seq<u8>, f: Seq<u8>, idx: int, rid: RowId, payload: Seq<u8>)
    requires
        spec_leaf_wf(o),
        0 <= idx < spec_cell_count(o),
        rid == spec_leaf_rid(o, idx),
        payload.len() == spec_cell_payload_len(o, spec_leaf_slot(o, idx)),
        payload.len() <= u16::MAX,
        f == splice(
            o,
            spec_leaf_slot(o, idx),
            spec_encode_leaf_cell(rid, payload),
        ),
    ensures
        spec_leaf_wf(f),
        spec_leaf_entries(f) == spec_leaf_entries(o).update(idx, (rid, payload)),
        spec_cell_count(f) == spec_cell_count(o),
        spec_content_start(f) == spec_content_start(o),
{
    let sp = spec_leaf_spec();
    let cc = spec_cell_count(o) as int;
    let cs = spec_content_start(o) as int;
    let off = spec_leaf_slot(o, idx);
    let cl = LEAF_CELL_PREFIX_SIZE + payload.len() as int;
    let enc = spec_encode_leaf_cell(rid, payload);
    assert(spec_cell_wf(o, off));
    assert(enc.len() == cl) by {
        vstd::bytes::lemma_auto_spec_u16_to_from_le_bytes();
        vstd::bytes::lemma_auto_spec_u64_to_from_le_bytes();
    }
    assert(spec_cell_size(o, off) == cl);
    // header fields and slots keep their bytes
    assert(f.subrange(layout::CELL_COUNT_OFFSET as int, layout::CELL_COUNT_OFFSET + 2)
        =~= o.subrange(layout::CELL_COUNT_OFFSET as int, layout::CELL_COUNT_OFFSET + 2));
    assert(f.subrange(layout::CONTENT_START_OFFSET as int, layout::CONTENT_START_OFFSET + 2)
        =~= o.subrange(layout::CONTENT_START_OFFSET as int, layout::CONTENT_START_OFFSET + 2));
    assert forall|j: int| 0 <= j < cc implies #[trigger] spec_leaf_slot(f, j) == spec_leaf_slot(
        o,
        j,
    ) by {
        layout::lemma_slot_pos_in_bounds(o, sp, j);
        assert(f.subrange(layout::spec_slot_pos(sp, j), layout::spec_slot_pos(sp, j) + 2)
            =~= o.subrange(layout::spec_slot_pos(sp, j), layout::spec_slot_pos(sp, j) + 2));
    }
    // the overwritten cell decodes to the new fields
    assert(f.subrange(off, off + cl) =~= enc);
    lemma_decode_encoded_cell(f, off, rid, payload);
    // every other cell keeps its bytes
    assert forall|j: int| 0 <= j < cc && j != idx implies #[trigger] spec_cell_size(
        f,
        spec_leaf_slot(o, j),
    ) == spec_cell_size(o, spec_leaf_slot(o, j)) && spec_cell_row_id(f, spec_leaf_slot(o, j))
        == spec_cell_row_id(o, spec_leaf_slot(o, j)) && spec_cell_payload(f, spec_leaf_slot(o, j))
        == spec_cell_payload(o, spec_leaf_slot(o, j)) by {
        assert(spec_cell_wf(o, spec_leaf_slot(o, j)));
        assert(spec_cells_disjoint(o, j, idx));
        lemma_cell_agree(o, f, spec_leaf_slot(o, j));
    }
    assert forall|j: int| 0 <= j < cc implies #[trigger] spec_leaf_entry(f, j) == (if j == idx {
        (rid, payload)
    } else {
        spec_leaf_entry(o, j)
    }) by {
        if j != idx {
            assert(spec_cell_size(f, spec_leaf_slot(o, j)) == spec_cell_size(
                o,
                spec_leaf_slot(o, j),
            ));
        }
    }
    assert(spec_leaf_entries(f) =~~= spec_leaf_entries(o).update(idx, (rid, payload)));
    assert forall|j: int| 0 <= j < cc implies spec_cell_wf(f, #[trigger] spec_leaf_slot(f, j)) by {
        assert(spec_cell_wf(o, spec_leaf_slot(o, j)));
        if j != idx {
            assert(spec_cell_size(f, spec_leaf_slot(o, j)) == spec_cell_size(
                o,
                spec_leaf_slot(o, j),
            ));
        }
    }
    assert forall|i: int, j: int| 0 <= i < j < cc implies #[trigger] spec_leaf_rid(f, i)
        < #[trigger] spec_leaf_rid(f, j) by {
        assert(spec_leaf_rid(f, i) == spec_leaf_entry(f, i).0);
        assert(spec_leaf_rid(f, j) == spec_leaf_entry(f, j).0);
        assert(spec_leaf_rid(o, i) == spec_leaf_entry(o, i).0);
        assert(spec_leaf_rid(o, j) == spec_leaf_entry(o, j).0);
    }
    assert forall|i: int, j: int|
        0 <= i < cc && 0 <= j < cc && i != j implies #[trigger] spec_cells_disjoint(f, i, j) by {
        assert(spec_cells_disjoint(o, i, j));
        if i != idx {
            assert(spec_cell_size(f, spec_leaf_slot(o, i)) == spec_cell_size(
                o,
                spec_leaf_slot(o, i),
            ));
        }
        if j != idx {
            assert(spec_cell_size(f, spec_leaf_slot(o, j)) == spec_cell_size(
                o,
                spec_leaf_slot(o, j),
            ));
        }
    }
    assert(spec_leaf_total(f, cc) == spec_leaf_total(o, cc)) by {
        lemma_total_update_map(o, f, idx, cl, cc);
    }
}

/// Appending a replacement cell and repointing one slot keeps the page well
/// formed and replaces exactly that entry.
#[verifier::spinoff_prover]
#[verifier::rlimit(30)]
proof fn lemma_leaf_update_realloc(
    p: Seq<u8>,
    p1: Seq<u8>,
    f: Seq<u8>,
    rid: RowId,
    payload: Seq<u8>,
    idx: int,
    off: u16,
)
    requires
        spec_leaf_wf(p),
        payload.len() <= u16::MAX,
        LEAF_CELL_PREFIX_SIZE + payload.len() <= u16::MAX,
        0 <= idx < spec_cell_count(p),
        rid == spec_leaf_rid(p, idx),
        layout::spec_try_append_post(
            p,
            p1,
            spec_leaf_spec(),
            spec_encode_leaf_cell(rid, payload),
            0,
            Ok(Ok(off)),
        ),
        f == splice(
            p1,
            layout::spec_slot_pos(spec_leaf_spec(), idx),
            vstd::bytes::spec_u16_to_le_bytes(off),
        ),
        spec_layout_wf(f, spec_leaf_spec()),
    ensures
        spec_leaf_wf(f),
        spec_leaf_entries(f) == spec_leaf_entries(p).update(idx, (rid, payload)),
    decreases 0int,
{
    let sp = spec_leaf_spec();
    let cc = spec_cell_count(p) as int;
    let cs = spec_content_start(p) as int;
    let cl = LEAF_CELL_PREFIX_SIZE + payload.len() as int;
    let ns = cs - cl;
    let enc = spec_encode_leaf_cell(rid, payload);
    let pos = layout::spec_slot_pos(sp, idx);
    assert(enc.len() == cl) by {
        vstd::bytes::lemma_auto_spec_u16_to_from_le_bytes();
        vstd::bytes::lemma_auto_spec_u64_to_from_le_bytes();
    }
    assert(spec_content_start(p1) == ns);
    assert(off == ns as u16);
    assert(layout::spec_slot_dir_end(sp, cc) <= ns);
    layout::lemma_slot_pos_in_bounds(p, sp, idx);
    // fields of f
    vstd::bytes::lemma_auto_spec_u16_to_from_le_bytes();
    assert(spec_cell_count(f) == cc && spec_content_start(f) == ns) by {
        assert(f.subrange(layout::CELL_COUNT_OFFSET as int, layout::CELL_COUNT_OFFSET + 2)
            =~= p1.subrange(layout::CELL_COUNT_OFFSET as int, layout::CELL_COUNT_OFFSET + 2));
        assert(f.subrange(layout::CONTENT_START_OFFSET as int, layout::CONTENT_START_OFFSET + 2)
            =~= p1.subrange(
            layout::CONTENT_START_OFFSET as int,
            layout::CONTENT_START_OFFSET + 2,
        ));
    }
    assert(spec_slot_offset(f, sp, idx) == off) by {
        assert(f.subrange(pos, pos + 2) =~= vstd::bytes::spec_u16_to_le_bytes(off));
    }
    assert forall|j: int| 0 <= j < cc && j != idx implies #[trigger] spec_leaf_slot(f, j)
        == spec_leaf_slot(p, j) by {
        layout::lemma_slot_pos_in_bounds(p, sp, j);
        assert(layout::spec_slot_pos(sp, j) + 2 <= ns);
        if j < idx {
            assert(layout::SLOT_WIDTH * j + 2 <= layout::SLOT_WIDTH * idx) by (nonlinear_arith)
                requires
                    j < idx,
            ;
        } else {
            assert(layout::SLOT_WIDTH * idx + 2 <= layout::SLOT_WIDTH * j) by (nonlinear_arith)
                requires
                    idx < j,
            ;
        }
        assert(f.subrange(layout::spec_slot_pos(sp, j), layout::spec_slot_pos(sp, j) + 2)
            =~= p1.subrange(layout::spec_slot_pos(sp, j), layout::spec_slot_pos(sp, j) + 2));
        assert(spec_slot_offset(p1, sp, j) == spec_slot_offset(p, sp, j));
    }
    // bytes of the content region survive from p through p1 to f
    assert forall|i: int| cs <= i < PAGE_SIZE implies p1[i] == p[i] by {
        assert(p1.subrange(cs, PAGE_SIZE as int)[i - cs] == p.subrange(cs, PAGE_SIZE as int)[i
            - cs]);
    }
    assert forall|i: int| ns <= i < PAGE_SIZE implies f[i] == p1[i] by {
        assert(pos + 2 <= ns);
    }
    // the replacement cell decodes to the new fields
    assert(f.subrange(ns, ns + cl) =~= enc) by {
        assert(p1.subrange(ns, ns + cl) == enc);
        assert(forall|i: int| ns <= i < ns + cl ==> #[trigger] f[i] == p1[i]);
        assert(f.subrange(ns, ns + cl) =~= p1.subrange(ns, ns + cl));
    }
    lemma_decode_encoded_cell(f, ns, rid, payload);
    // other cells decode alike
    assert forall|j: int| 0 <= j < cc && j != idx implies #[trigger] spec_cell_size(
        f,
        spec_leaf_slot(p, j),
    ) == spec_cell_size(p, spec_leaf_slot(p, j)) && spec_cell_row_id(f, spec_leaf_slot(p, j))
        == spec_cell_row_id(p, spec_leaf_slot(p, j)) && spec_cell_payload(f, spec_leaf_slot(p, j))
        == spec_cell_payload(p, spec_leaf_slot(p, j)) by {
        assert(spec_cell_wf(p, spec_leaf_slot(p, j)));
        lemma_cell_agree(p, f, spec_leaf_slot(p, j));
    }
    assert forall|j: int| 0 <= j < cc implies #[trigger] spec_leaf_entry(f, j) == (if j == idx {
        (rid, payload)
    } else {
        spec_leaf_entry(p, j)
    }) by {
        if j != idx {
            assert(spec_leaf_slot(f, j) == spec_leaf_slot(p, j));
            assert(spec_cell_size(f, spec_leaf_slot(p, j)) == spec_cell_size(
                p,
                spec_leaf_slot(p, j),
            ));
        }
    }
    assert(spec_leaf_entries(f) =~~= spec_leaf_entries(p).update(idx, (rid, payload)));
    // well-formedness
    assert forall|j: int| 0 <= j < cc implies spec_cell_wf(f, #[trigger] spec_leaf_slot(f, j)) by {
        if j == idx {
            assert(spec_cell_wf(f, ns));
        } else {
            assert(spec_cell_wf(p, spec_leaf_slot(p, j)));
            assert(spec_cell_size(f, spec_leaf_slot(p, j)) == spec_cell_size(
                p,
                spec_leaf_slot(p, j),
            ));
        }
    }
    assert forall|i: int, j: int| 0 <= i < j < cc implies #[trigger] spec_leaf_rid(f, i)
        < #[trigger] spec_leaf_rid(f, j) by {
        assert(spec_leaf_rid(f, i) == spec_leaf_entry(f, i).0);
        assert(spec_leaf_rid(f, j) == spec_leaf_entry(f, j).0);
        assert(spec_leaf_rid(p, i) == spec_leaf_entry(p, i).0);
        assert(spec_leaf_rid(p, j) == spec_leaf_entry(p, j).0);
        assert(spec_leaf_rid(p, idx) == spec_leaf_entry(p, idx).0);
    }
    assert forall|i: int, j: int|
        0 <= i < cc && 0 <= j < cc && i != j implies #[trigger] spec_cells_disjoint(f, i, j) by {
        if i != idx && j != idx {
            assert(spec_cells_disjoint(p, i, j));
            assert(spec_cell_size(f, spec_leaf_slot(p, i)) == spec_cell_size(
                p,
                spec_leaf_slot(p, i),
            ));
            assert(spec_cell_size(f, spec_leaf_slot(p, j)) == spec_cell_size(
                p,
                spec_leaf_slot(p, j),
            ));
        } else if i == idx {
            assert(spec_leaf_slot(f, i) == ns && ns + spec_cell_size(f, ns) == cs);
            assert(spec_cell_wf(p, spec_leaf_slot(p, j)));
            assert(spec_cell_size(f, spec_leaf_slot(p, j)) == spec_cell_size(
                p,
                spec_leaf_slot(p, j),
            ));
        } else {
            assert(spec_leaf_slot(f, j) == ns && ns + spec_cell_size(f, ns) == cs);
            assert(spec_cell_wf(p, spec_leaf_slot(p, i)));
            assert(spec_cell_size(f, spec_leaf_slot(p, i)) == spec_cell_size(
                p,
                spec_leaf_slot(p, i),
            ));
        }
    }
    assert(spec_leaf_total(f, cc) == spec_leaf_total(p, cc) - spec_cell_size(
        p,
        spec_leaf_slot(p, idx),
    ) + cl) by {
        lemma_total_update_map(p, f, idx, cl, cc);
    }
    assert(spec_cell_size(p, spec_leaf_slot(p, idx)) >= 0);
}

/// The free space an update's replacement cell can count on after one
/// defragmentation: the old cell stays live until the slot is repointed.
pub open spec fn spec_leaf_update_spare(page: Seq<u8>) -> int {
    PAGE_SIZE - spec_leaf_total(page, spec_cell_count(page) as int) - spec_slot_dir_end(
        spec_leaf_spec(),
        spec_cell_count(page) as int,
    )
}

/// Replaces the payload for an existing row id.
///
/// On a well-formed page: an absent key fails with `RowIdNotFound` and a
/// payload longer than `u16::MAX` with `CellTooLarge`, both leaving the
/// page untouched. A
/// same-size payload is overwritten in place, leaving the free space
/// unchanged. A different-size payload allocates a new cell, defragmenting
/// once if needed; on success the entry is replaced, and when even the
/// compacted page has no room the update fails with `PageFull`, the page
/// compacted but its entries unchanged.
pub fn update(page: &mut Vec<u8>, row_id: RowId, payload: &[u8]) -> (r: Result<(), TablePageError>)
    requires
        old(page)@.len() == PAGE_SIZE,
    ensures
        final(page)@.len() == PAGE_SIZE,
        !spec_layout_wf(old(page)@, spec_leaf_spec()) ==> r is Err && final(page)@ == old(page)@,
        spec_leaf_wf(old(page)@) ==> {
            let o = old(page)@;
            let lb = spec_lower_bound(spec_leaf_rids(o), row_id);
            let plen_old = spec_cell_payload_len(o, spec_leaf_slot(o, lb));
            let cl = LEAF_CELL_PREFIX_SIZE + payload@.len();
            &&& !spec_leaf_has(o, row_id) ==> r == Err::<(), TablePageError>(
                TablePageError::RowIdNotFound(row_id),
            ) && final(page)@ == o
            &&& spec_leaf_has(o, row_id) && payload@.len() > u16::MAX ==> r == Err::<
                (),
                TablePageError,
            >(TablePageError::CellTooLarge { len: payload@.len() as usize }) && final(page)@ == o
            &&& spec_leaf_has(o, row_id) && payload@.len() <= u16::MAX && payload@.len()
                == plen_old ==> r == Ok::<(), TablePageError>(()) && spec_leaf_wf(final(page)@)
                && spec_leaf_entries(final(page)@) == spec_leaf_entries(o).update(
                lb,
                (row_id, payload@),
            ) && spec_content_start(final(page)@) == spec_content_start(o) && spec_cell_count(
                final(page)@,
            ) == spec_cell_count(o)
            &&& spec_leaf_has(o, row_id) && payload@.len() <= u16::MAX && payload@.len()
                != plen_old && cl <= spec_leaf_update_spare(o) ==> r == Ok::<
                (),
                TablePageError,
            >(()) && spec_leaf_wf(final(page)@) && spec_leaf_entries(final(page)@)
                == spec_leaf_entries(o).update(lb, (row_id, payload@))
            &&& spec_leaf_has(o, row_id) && payload@.len() <= u16::MAX && payload@.len()
                != plen_old && cl > spec_leaf_update_spare(o) ==> r == Err::<
                (),
                TablePageError,
            >(
                TablePageError::PageFull {
                    needed: cl as usize,
                    available: if spec_leaf_update_spare(o) >= 0 {
                        spec_leaf_update_spare(o) as usize
                    } else {
                        0
                    },
                },
            ) && spec_leaf_wf(final(page)@) && spec_leaf_entries(final(page)@)
                == spec_leaf_entries(o)
        },
{
    let ghost o = old(page)@;
    match layout::validate(page, leaf_spec()) {
        Ok(()) => {},
        Err(e) => {
            return Err(e);
        },
    }
    let s = leaf_spec();
    let slot_index = match find_leaf_slot(page, row_id)? {
        SearchResult::Found(i) => i,
        SearchResult::NotFound(_) => {
            return Err(TablePageError::RowIdNotFound(row_id));
        },
    };
    let off = layout::slot_offset(page, s, slot_index) as usize;
    let start = layout::content_start(page) as usize;
    proof {
        if spec_leaf_wf(o) {
            assert(spec_cell_wf(o, spec_leaf_slot(o, slot_index as int)));
            lemma_lower_bound_props(spec_leaf_rids(o), row_id);
            lemma_lower_bound_le(spec_leaf_rids(o), row_id);
        }
    }
    if off < start || off >= PAGE_SIZE || off + LEAF_CELL_PREFIX_SIZE > PAGE_SIZE {
        return Err(TablePageError::CorruptCell { slot_index });
    }
    let plen_old = read_u16_at(page, off) as usize;
    if off + LEAF_CELL_PREFIX_SIZE + plen_old > PAGE_SIZE {
        return Err(TablePageError::CorruptCell { slot_index });
    }
    if payload.len() > u16::MAX as usize {
        return Err(TablePageError::CellTooLarge { len: payload.len() });
    }
    if plen_old == payload.len() {
        let cell = encode_leaf_cell(row_id, payload);
        crate::byteops::copy_into(page, off, cell.as_slice());
        proof {
            if spec_leaf_wf(o) {
                assert(row_id == spec_leaf_rid(o, slot_index as int)) by {
                    assert(spec_leaf_rids(o)[slot_index as int] == spec_leaf_rid(
                        o,
                        slot_index as int,
                    ));
                }
                lemma_leaf_update_inplace(o, page@, slot_index as int, row_id, payload@);
            }
        }
        return Ok(());
    }
    let cell = encode_leaf_cell(row_id, payload);
    proof {
        if spec_leaf_wf(o) {
            assert(spec_slot_dir_end(spec_leaf_spec(), spec_cell_count(o) as int)
                <= spec_content_start(o) as int);
        }
    }
    let ghost mut pre = o;
    let r1 = layout::try_append_cell(page, s, cell.as_slice());
    let new_off = match r1 {
        Ok(Ok(new_off)) => {
            proof {
                if spec_leaf_wf(o) {
                    assert(spec_leaf_total(o, spec_cell_count(o) as int) <= PAGE_SIZE
                        - spec_content_start(o));
                }
            }
            new_off
        },
        Ok(Err(_)) => {
            match defragment(page) {
                Ok(()) => {},
                Err(e) => {
                    proof {
                        if spec_leaf_wf(o) {
                            assert(false);
                        }
                    }
                    return Err(e);
                },
            }
            proof {
                pre = page@;
                if spec_leaf_wf(o) {
                    lemma_entries_total(o, pre);
                }
            }
            let r2 = layout::try_append_cell(page, s, cell.as_slice());
            match r2 {
                Ok(Ok(new_off)) => new_off,
                Ok(Err(se)) => {
                    proof {
                        if spec_leaf_wf(o) {
                            assert(se.needed == cell@.len());
                            assert(se.available as int == if spec_leaf_update_spare(o) >= 0 {
                                spec_leaf_update_spare(o)
                            } else {
                                0
                            });
                        }
                    }
                    return Err(
                        TablePageError::PageFull { needed: se.needed, available: se.available },
                    );
                },
                Err(e) => {
                    proof {
                        if spec_leaf_wf(o) {
                            assert(false);
                        }
                    }
                    return Err(e);
                },
            }
        },
        Err(e) => {
            proof {
                if spec_leaf_wf(o) {
                    assert(false);
                }
            }
            return Err(e);
        },
    };
    let ghost p1 = page@;
    proof {
        if spec_leaf_wf(o) {
            assert(spec_leaf_wf(pre));
            assert(spec_leaf_entries(pre) == spec_leaf_entries(o));
            assert(spec_leaf_rids(pre) =~= spec_leaf_rids(o)) by {
                assert(forall|i: int|
                    0 <= i < spec_cell_count(pre) ==> #[trigger] spec_leaf_rid(pre, i)
                        == spec_leaf_entry(pre, i).0 && spec_leaf_entry(pre, i)
                        == spec_leaf_entries(pre)[i]);
                assert(forall|i: int|
                    0 <= i < spec_cell_count(o) ==> #[trigger] spec_leaf_rid(o, i)
                        == spec_leaf_entry(o, i).0 && spec_leaf_entry(o, i) == spec_leaf_entries(
                        o,
                    )[i]);
            }
            assert(layout::spec_try_append_post(
                pre,
                p1,
                spec_leaf_spec(),
                cell@,
                0,
                Ok(Ok(new_off)),
            ));
            assert(slot_index < spec_cell_count(p1));
        }
    }
    match layout::set_slot_offset(page, s, slot_index, new_off) {
        Ok(()) => {},
        Err(e) => {
            proof {
                if spec_leaf_wf(o) {
                    assert(false);
                }
            }
            return Err(e);
        },
    }
    proof {
        if spec_leaf_wf(o) {
            assert(row_id == spec_leaf_rid(pre, slot_index as int)) by {
                assert(spec_leaf_rids(pre)[slot_index as int] == spec_leaf_rid(
                    pre,
                    slot_index as int,
                ));
                assert(spec_leaf_rids(o)[slot_index as int] == spec_leaf_rid(o, slot_index as int));
            }
            lemma_leaf_update_realloc(
                pre,
                p1,
                page@,
                row_id,
                payload@,
                slot_index as int,
                new_off,
            );
            lemma_entries_total(o, pre);
            assert(spec_leaf_entries(page@) == spec_leaf_entries(o).update(
                slot_index as int,
                (row_id, payload@),
            ));
        }
    }
    Ok(())
}


/// An insert that succeeds is visible: on any well-formed page whose
/// entries are those of a well-formed page `o` with `(rid, payload)`
/// inserted at its sorted position -- exactly what a successful `insert`
/// leaves behind -- looking `rid` up yields that payload.
pub proof fn lemma_insert_then_lookup(o: Seq<u8>, f: Seq<u8>, rid: RowId, payload: Seq<u8>)
    requires
        spec_leaf_wf(o),
        spec_leaf_wf(f),
        !spec_leaf_has(o, rid),
        spec_leaf_entries(f) == spec_leaf_entries(o).insert(
            spec_lower_bound(spec_leaf_rids(o), rid),
            (rid, payload),
        ),
    ensures
        spec_leaf_lookup(f, rid) == Some(payload),
{
    let lb = spec_lower_bound(spec_leaf_rids(o), rid);
    let cc = spec_cell_count(o) as int;
    lemma_lower_bound_props(spec_leaf_rids(o), rid);
    assert(spec_cell_count(f) == spec_leaf_entries(f).len() == cc + 1);
    assert(forall|i: int|
        0 <= i < cc ==> #[trigger] spec_leaf_rids(o)[i] == spec_leaf_entry(o, i).0
            && spec_leaf_entry(o, i) == spec_leaf_entries(o)[i]);
    assert(forall|i: int|
        0 <= i < cc + 1 ==> #[trigger] spec_leaf_rids(f)[i] == spec_leaf_entry(f, i).0
            && spec_leaf_entry(f, i) == spec_leaf_entries(f)[i]);
    assert(forall|i: int|
        0 <= i < lb ==> #[trigger] spec_leaf_rids(f)[i] == spec_leaf_rids(o)[i]);
    assert(spec_leaf_rids(f)[lb] == rid);
    assert(forall|i: int|
        lb < i < cc + 1 ==> #[trigger] spec_leaf_rids(f)[i] == spec_leaf_rids(o)[i - 1]);
    assert(forall|i: int, j: int|
        0 <= i < j < cc + 1 ==> #[trigger] spec_leaf_rids(f)[i] < #[trigger] spec_leaf_rids(
            f,
        )[j]) by {
        assert(forall|i: int, j: int|
            0 <= i < j < spec_cell_count(f) ==> #[trigger] spec_leaf_rid(f, i)
                < #[trigger] spec_leaf_rid(f, j));
        assert(forall|i: int|
            0 <= i < cc + 1 ==> #[trigger] spec_leaf_rids(f)[i] == spec_leaf_rid(f, i));
    }
    lemma_lower_bound_unique(spec_leaf_rids(f), rid, lb);
    assert(spec_leaf_has(f, rid)) by {
        assert(spec_leaf_rid(f, lb) == spec_leaf_rids(f)[lb]);
    }
    assert(spec_leaf_entry(f, lb) == (rid, payload));
}


/// A validated, well-formed leaf page keeps its slots in strictly
/// ascending row-id order: no duplicates, no inversions.
pub proof fn lemma_wf_slots_sorted(page: Seq<u8>)
    requires
        spec_leaf_wf(page),
    ensures
        forall|i: int, j: int|
            0 <= i < j < spec_cell_count(page) ==> #[trigger] spec_leaf_rid(page, i)
                < #[trigger] spec_leaf_rid(page, j),
{
}

} // verus!
