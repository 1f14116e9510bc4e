//! Byte-level helpers shared by the page formats: little-endian reads and
//! writes into a page buffer, in-place byte splices, and subrange copies.

use vstd::prelude::*;

use vstd::bytes::{
    spec_u16_from_le_bytes, spec_u16_to_le_bytes, spec_u32_from_le_bytes, spec_u32_to_le_bytes,
    spec_u64_from_le_bytes, spec_u64_to_le_bytes, u16_from_le_bytes, u16_to_le_bytes,
    u32_from_le_bytes, u32_to_le_bytes, u64_from_le_bytes, u64_to_le_bytes,
};
use vstd::slice::slice_subrange;

verus! {

/// `s` with the bytes at `off..off + c.len()` replaced by `c`. The length is
/// always that of `s`; positions outside the replaced window keep their old
/// bytes.
pub open spec fn splice(s: Seq<u8>, off: int, c: Seq<u8>) -> Seq<u8> {
    Seq::new(
        s.len(),
        |i: int|
            if off <= i < off + c.len() {
                c[i - off]
            } else {
                s[i]
            },
    )
}

/// Copies `src` into `dst` starting at `off`.
pub fn copy_into(dst: &mut Vec<u8>, off: usize, src: &[u8])
    requires
        off + src@.len() <= old(dst)@.len(),
    ensures
        final(dst)@ == splice(old(dst)@, off as int, src@),
{
    let mut i: usize = 0;
    while i < src.len()
        invariant
            off + src@.len() <= dst@.len(),
            dst@.len() == old(dst)@.len(),
            i <= src@.len(),
            forall|j: int|
                0 <= j < dst@.len() ==> dst@[j] == (if off <= j < off + i {
                    src@[j - off]
                } else {
                    old(dst)@[j]
                }),
        decreases src@.len() - i,
    {
        let _n = dst.len();
        dst[off + i] = src[i];
        i = i + 1;
    }
    assert(dst@ =~= splice(old(dst)@, off as int, src@));
}

/// Sets every byte of `dst` to zero.
pub fn zero_fill(dst: &mut Vec<u8>)
    ensures
        final(dst)@ == Seq::new(old(dst)@.len(), |i: int| 0u8),
{
    let n = dst.len();
    let mut i: usize = 0;
    while i < n
        invariant
            dst@.len() == n == old(dst)@.len(),
            i <= n,
            forall|j: int| 0 <= j < i ==> dst@[j] == 0u8,
            forall|j: int| i <= j < n ==> dst@[j] == old(dst)@[j],
        decreases n - i,
    {
        dst[i] = 0;
        i = i + 1;
    }
    assert(dst@ =~= Seq::new(old(dst)@.len(), |i: int| 0u8));
}

/// Returns an owned copy of `src[start..end]`.
pub fn subrange_to_vec(src: &Vec<u8>, start: usize, end: usize) -> (r: Vec<u8>)
    requires
        start <= end <= src@.len(),
    ensures
        r@ == src@.subrange(start as int, end as int),
{
    let mut out: Vec<u8> = Vec::new();
    let mut i: usize = start;
    while i < end
        invariant
            start <= i <= end <= src@.len(),
            out@ =~= src@.subrange(start as int, i as int),
        decreases end - i,
    {
        out.push(src[i]);
        assert(out@ =~= src@.subrange(start as int, i + 1));
        i = i + 1;
    }
    out
}

/// Reads the little-endian `u16` stored at `page[off..off + 2]`.
pub fn read_u16_at(page: &Vec<u8>, off: usize) -> (r: u16)
    requires
        off + 2 <= page@.len(),
    ensures
        r == spec_u16_from_le_bytes(page@.subrange(off as int, off + 2)),
{
    let _n = page.len();
    u16_from_le_bytes(slice_subrange(page.as_slice(), off, off + 2))
}

/// Writes `v` as little-endian into `page[off..off + 2]`.
pub fn write_u16_at(page: &mut Vec<u8>, off: usize, v: u16)
    requires
        off + 2 <= old(page)@.len(),
    ensures
        final(page)@ == splice(old(page)@, off as int, spec_u16_to_le_bytes(v)),
{
    let bytes = u16_to_le_bytes(v);
    copy_into(page, off, bytes.as_slice());
}

/// Reads the little-endian `u32` stored at `page[off..off + 4]`.
pub fn read_u32_at(page: &Vec<u8>, off: usize) -> (r: u32)
    requires
        off + 4 <= page@.len(),
    ensures
        r == spec_u32_from_le_bytes(page@.subrange(off as int, off + 4)),
{
    let _n = page.len();
    u32_from_le_bytes(slice_subrange(page.as_slice(), off, off + 4))
}

/// Writes `v` as little-endian into `page[off..off + 4]`.
pub fn write_u32_at(page: &mut Vec<u8>, off: usize, v: u32)
    requires
        off + 4 <= old(page)@.len(),
    ensures
        final(page)@ == splice(old(page)@, off as int, spec_u32_to_le_bytes(v)),
{
    let bytes = u32_to_le_bytes(v);
    copy_into(page, off, bytes.as_slice());
}

/// Reads the little-endian `u64` stored at `page[off..off + 8]`.
pub fn read_u64_at(page: &Vec<u8>, off: usize) -> (r: u64)
    requires
        off + 8 <= page@.len(),
    ensures
        r == spec_u64_from_le_bytes(page@.subrange(off as int, off + 8)),
{
    let _n = page.len();
    u64_from_le_bytes(slice_subrange(page.as_slice(), off, off + 8))
}

/// Writes `v` as little-endian into `page[off..off + 8]`.
pub fn write_u64_at(page: &mut Vec<u8>, off: usize, v: u64)
    requires
        off + 8 <= old(page)@.len(),
    ensures
        final(page)@ == splice(old(page)@, off as int, spec_u64_to_le_bytes(v)),
{
    let bytes = u64_to_le_bytes(v);
    copy_into(page, off, bytes.as_slice());
}


/// Returns an owned copy of `src[start..end]` from a slice.
pub fn subrange_to_vec_slice(src: &[u8], start: usize, end: usize) -> (r: Vec<u8>)
    requires
        start <= end <= src@.len(),
    ensures
        r@ == src@.subrange(start as int, end as int),
{
    let mut out: Vec<u8> = Vec::new();
    let mut i: usize = start;
    while i < end
        invariant
            start <= i <= end <= src@.len(),
            out@ =~= src@.subrange(start as int, i as int),
        decreases end - i,
    {
        out.push(src[i]);
        assert(out@ =~= src@.subrange(start as int, i + 1));
        i = i + 1;
    }
    out
}

} // verus!
