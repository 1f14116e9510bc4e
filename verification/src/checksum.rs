//! Per-page CRC-32 checksums: the trailing four bytes of every page hold the
//! little-endian CRC-32 of the bytes before them.

use vstd::prelude::*;

use crate::byteops::{read_u32_at, splice, write_u32_at};
use crate::types::PAGE_SIZE;
use vstd::bytes::{spec_u32_from_le_bytes, spec_u32_to_le_bytes};
use vstd::slice::slice_subrange;

verus! {

/// Width of the trailing checksum field.
pub const PAGE_CHECKSUM_SIZE: usize = 4;

/// First byte of the trailing checksum field; the checksummed data region is
/// everything before it.
pub const PAGE_DATA_END: usize = PAGE_SIZE - PAGE_CHECKSUM_SIZE;

/// The CRC-32 of `bytes` continued from `start`, as `crc32_v2::crc32`
/// computes it: a pure function of its two arguments.
pub uninterp spec fn crc32_of(start: u32, bytes: Seq<u8>) -> u32;

/// Relies on `crc32_v2::crc32`: the reflected IEEE 802.3 CRC-32 of `buf`
/// continued from `start_crc`, a deterministic function of its arguments.
#[verifier::external_body]
fn crc32(start_crc: u32, buf: &[u8]) -> (r: u32)
    ensures
        r == crc32_of(start_crc, buf@),
{
    crc32_v2::crc32(start_crc, buf)
}

/// The checksum a page's data region computes to.
pub open spec fn spec_computed_checksum(page: Seq<u8>) -> u32 {
    crc32_of(0, page.take(PAGE_DATA_END as int))
}

/// The checksum stored in a page's trailing field.
pub open spec fn spec_stored_checksum(page: Seq<u8>) -> u32 {
    spec_u32_from_le_bytes(page.subrange(PAGE_DATA_END as int, PAGE_SIZE as int))
}

/// Whether the stored and computed checksums of a page agree.
pub open spec fn spec_checksum_ok(page: Seq<u8>) -> bool {
    spec_stored_checksum(page) == spec_computed_checksum(page)
}

/// A page with its trailing field overwritten by the checksum of its data
/// region. The data region is untouched, and the result always satisfies
/// [`spec_checksum_ok`].
pub open spec fn spec_with_checksum(page: Seq<u8>) -> Seq<u8> {
    splice(
        page,
        PAGE_DATA_END as int,
        spec_u32_to_le_bytes(spec_computed_checksum(page)),
    )
}

/// Computes CRC-32 across the data region of one page.
pub fn compute_page_checksum(page: &Vec<u8>) -> (r: u32)
    requires
        page@.len() == PAGE_SIZE,
    ensures
        r == spec_computed_checksum(page@),
{
    let data = slice_subrange(page.as_slice(), 0, PAGE_DATA_END);
    proof {
        assert(data@ =~= page@.take(PAGE_DATA_END as int));
    }
    crc32(0, data)
}

/// Reads the checksum stored in the trailing checksum field.
pub fn stored_page_checksum(page: &Vec<u8>) -> (r: u32)
    requires
        page@.len() == PAGE_SIZE,
    ensures
        r == spec_stored_checksum(page@),
{
    read_u32_at(page, PAGE_DATA_END)
}

/// Writes the computed checksum into the trailing checksum field.
pub fn write_page_checksum(page: &mut Vec<u8>)
    requires
        old(page)@.len() == PAGE_SIZE,
    ensures
        final(page)@ == spec_with_checksum(old(page)@),
        final(page)@.len() == PAGE_SIZE,
        spec_checksum_ok(final(page)@),
        final(page)@.take(PAGE_DATA_END as int) == old(page)@.take(PAGE_DATA_END as int),
{
    let checksum = compute_page_checksum(page);
    write_u32_at(page, PAGE_DATA_END, checksum);
    proof {
        lemma_with_checksum_ok(old(page)@);
        assert(page@ =~= spec_with_checksum(old(page)@));
    }
}

/// Returns whether the stored and computed checksums match.
pub fn checksum_matches(page: &Vec<u8>) -> (r: bool)
    requires
        page@.len() == PAGE_SIZE,
    ensures
        r == spec_checksum_ok(page@),
{
    stored_page_checksum(page) == compute_page_checksum(page)
}

/// Stamping a page's checksum field leaves the data region alone and makes
/// the page pass verification.
pub proof fn lemma_with_checksum_ok(page: Seq<u8>)
    requires
        page.len() == PAGE_SIZE,
    ensures
        spec_with_checksum(page).len() == PAGE_SIZE,
        spec_with_checksum(page).take(PAGE_DATA_END as int) == page.take(PAGE_DATA_END as int),
        spec_checksum_ok(spec_with_checksum(page)),
{
    let w = spec_with_checksum(page);
    vstd::bytes::lemma_auto_spec_u32_to_from_le_bytes();
    assert(w.take(PAGE_DATA_END as int) =~= page.take(PAGE_DATA_END as int));
    assert(w.subrange(PAGE_DATA_END as int, PAGE_SIZE as int) =~= spec_u32_to_le_bytes(
        spec_computed_checksum(page),
    ));
}

} // verus!
