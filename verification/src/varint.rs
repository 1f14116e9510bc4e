//! LEB128 little-endian unsigned varints of up to 10 encoded bytes, and the
//! zig-zag signed form built on top of them.

use vstd::prelude::*;

use crate::record::SerializationError;

verus! {

/// One more than the largest value an encoded `u64` can take.
pub open spec fn u64_mod() -> nat {
    0x1_0000_0000_0000_0000
}

/// Encoded form of `v`: low seven-bit groups first, the high bit set on every
/// byte but the last.
pub open spec fn varint_bytes(v: nat) -> Seq<u8>
    decreases v,
{
    if v < 128 {
        seq![v as u8]
    } else {
        seq![(v % 128 + 128) as u8] + varint_bytes(v / 128)
    }
}

/// Number of bytes in the encoded form of `v`.
pub open spec fn varint_len(v: nat) -> nat
    decreases v,
{
    if v < 128 {
        1
    } else {
        1 + varint_len(v / 128)
    }
}

/// Whether a varint read from the front of `s` terminates within `k` bytes.
pub open spec fn vdec_ok(s: Seq<u8>, k: nat) -> bool
    decreases k,
{
    k > 0 && s.len() > 0 && (s[0] < 128 || vdec_ok(s.skip(1), (k - 1) as nat))
}

/// Whether a varint read from the front of `s` runs out of input within `k`
/// bytes (every present byte carries the continuation bit).
pub open spec fn vdec_eof(s: Seq<u8>, k: nat) -> bool
    decreases k,
{
    k > 0 && (s.len() == 0 || (s[0] >= 128 && vdec_eof(s.skip(1), (k - 1) as nat)))
}

/// The unbounded value of the varint at the front of `s`. The decoder returns
/// this value reduced modulo 2^64.
pub open spec fn vdec_raw(s: Seq<u8>) -> nat
    decreases s.len(),
{
    if s.len() == 0 {
        0
    } else if s[0] < 128 {
        s[0] as nat
    } else {
        (s[0] - 128) as nat + 128 * vdec_raw(s.skip(1))
    }
}

/// Number of bytes the varint at the front of `s` occupies.
pub open spec fn vdec_len(s: Seq<u8>) -> nat
    decreases s.len(),
{
    if s.len() == 0 {
        0
    } else if s[0] < 128 {
        1
    } else {
        1 + vdec_len(s.skip(1))
    }
}

/// The zig-zag image of a signed value: non-negative values map to even
/// naturals, negative values to odd ones.
pub open spec fn zigzag(x: int) -> nat {
    if x >= 0 {
        (2 * x) as nat
    } else {
        (-2 * x - 1) as nat
    }
}

/// Inverse of [`zigzag`].
pub open spec fn unzigzag(n: nat) -> int {
    if n % 2 == 0 {
        (n / 2) as int
    } else {
        -((n / 2) as int) - 1
    }
}

/// Appends the LEB128 encoding of `value` to `buf` and returns the number of
/// bytes written.
pub fn varint_encode(value: u64, buf: &mut Vec<u8>) -> (n: usize)
    ensures
        final(buf)@ == old(buf)@ + varint_bytes(value as nat),
        n == varint_len(value as nat),
        1 <= n <= 10,
        final(buf)@.len() == old(buf)@.len() + n,
    decreases value,
{
    proof {
        lemma_varint_len_le_10(value as nat);
    }
    if value < 128 {
        buf.push(value as u8);
        assert(buf@ =~= old(buf)@ + varint_bytes(value as nat));
        1
    } else {
        buf.push((value % 128 + 128) as u8);
        let rest = varint_encode(value / 128, buf);
        assert(buf@ =~= old(buf)@ + varint_bytes(value as nat));
        rest + 1
    }
}

/// Returns the encoded byte length of `value` without encoding it.
pub fn varint_size(value: u64) -> (n: usize)
    ensures
        n == varint_len(value as nat),
        1 <= n <= 10,
    decreases value,
{
    proof {
        lemma_varint_len_le_10(value as nat);
    }
    if value < 128 {
        1
    } else {
        1 + varint_size(value / 128)
    }
}

/// Internal outcome of one decoding attempt.
enum DecodeStep {
    Done(u64, usize),
    Eof,
    TooLong,
}

/// Reads the varint at `buf[pos..]`, spending at most `fuel` bytes.
fn decode_step(buf: &[u8], pos: usize, fuel: u8) -> (r: DecodeStep)
    requires
        pos <= buf@.len(),
    ensures
        match r {
            DecodeStep::Done(v, n) => {
                &&& vdec_ok(buf@.skip(pos as int), fuel as nat)
                &&& v as nat == vdec_raw(buf@.skip(pos as int)) % u64_mod()
                &&& n == vdec_len(buf@.skip(pos as int))
                &&& 1 <= n <= fuel
                &&& pos + n <= buf@.len()
            },
            DecodeStep::Eof => {
                &&& !vdec_ok(buf@.skip(pos as int), fuel as nat)
                &&& vdec_eof(buf@.skip(pos as int), fuel as nat)
            },
            DecodeStep::TooLong => {
                &&& !vdec_ok(buf@.skip(pos as int), fuel as nat)
                &&& !vdec_eof(buf@.skip(pos as int), fuel as nat)
            },
        },
    decreases fuel,
{
    let ghost s = buf@.skip(pos as int);
    if fuel == 0 {
        return DecodeStep::TooLong;
    }
    if pos >= buf.len() {
        return DecodeStep::Eof;
    }
    let b = buf[pos];
    if b < 128 {
        proof {
            assert(s[0] == b);
        }
        return DecodeStep::Done(b as u64, 1);
    }
    let step = decode_step(buf, pos + 1, fuel - 1);
    proof {
        assert(s.skip(1) =~= buf@.skip(pos + 1));
    }
    match step {
        DecodeStep::Done(v, n) => {
            let low: u64 = (b - 128) as u64;
            let high: u64 = v % 0x200_0000_0000_0000;
            let value: u64 = low + 128 * high;
            proof {
                lemma_decode_recombine(b, vdec_raw(s.skip(1)), v, low, high, value);
                assert(vdec_raw(s) == (b - 128) as nat + 128 * vdec_raw(s.skip(1)));
            }
            DecodeStep::Done(value, n + 1)
        },
        DecodeStep::Eof => DecodeStep::Eof,
        DecodeStep::TooLong => DecodeStep::TooLong,
    }
}

/// Combining a low seven-bit group with the modulo-reduced tail value gives
/// the modulo-reduced whole value.
proof fn lemma_decode_recombine(b: u8, raw: nat, v: u64, low: u64, high: u64, value: u64)
    requires
        b >= 128,
        v as nat == raw % u64_mod(),
        low == b - 128,
        high == v as nat % 0x200_0000_0000_0000 as nat,
        value == low + 128 * high,
    ensures
        value as nat == ((b - 128) as nat + 128 * raw) % u64_mod(),
{
    let m57: int = 0x200_0000_0000_0000;
    let c: int = b - 128;
    let t: int = raw as int;
    let x: int = c + 128 * t;
    // 2^64 = 128 * 2^57, so reducing the tail mod 2^57 keeps exactly the bits
    // that survive the final reduction mod 2^64.
    assert(m57 * 128 == u64_mod());
    vstd::arithmetic::div_mod::lemma_mod_mod(t, m57, 128);
    assert(high as int == t % m57);
    vstd::arithmetic::div_mod::lemma_mod_breakdown(x, 128, m57);
    assert(x % (128 * m57) == 128 * ((x / 128) % m57) + x % 128);
    vstd::arithmetic::div_mod::lemma_fundamental_div_mod_converse(x, 128, t, c);
    assert(x % 128 == c && x / 128 == t);
    assert(x % (128 * m57) == 128 * (t % m57) + c);
    assert(128 * m57 == u64_mod());
}

/// Reads the varint stored at `buf[pos..]`, returning the decoded value and
/// the number of bytes consumed.
pub fn varint_decode(buf: &[u8], pos: usize) -> (r: Result<(u64, usize), SerializationError>)
    requires
        pos <= buf@.len(),
    ensures
        vdec_ok(buf@.skip(pos as int), 10) ==> r == Ok::<(u64, usize), SerializationError>(
            (
                (vdec_raw(buf@.skip(pos as int)) % u64_mod()) as u64,
                vdec_len(buf@.skip(pos as int)) as usize,
            ),
        ),
        !vdec_ok(buf@.skip(pos as int), 10) && vdec_eof(buf@.skip(pos as int), 10) ==> r == Err::<
            (u64, usize),
            SerializationError,
        >(SerializationError::VarIntBufferTooSmall { available: (buf@.len() - pos) as usize }),
        !vdec_ok(buf@.skip(pos as int), 10) && !vdec_eof(buf@.skip(pos as int), 10) ==> r == Err::<
            (u64, usize),
            SerializationError,
        >(SerializationError::InvalidVarInt),
        r is Ok ==> pos + r.unwrap().1 <= buf@.len() && 1 <= r.unwrap().1 <= 10,
{
    match decode_step(buf, pos, 10) {
        DecodeStep::Done(v, n) => Ok((v, n)),
        DecodeStep::Eof => Err(
            SerializationError::VarIntBufferTooSmall { available: buf.len() - pos },
        ),
        DecodeStep::TooLong => Err(SerializationError::InvalidVarInt),
    }
}

/// Appends the zig-zag LEB128 encoding of `value` to `buf` and returns the
/// number of bytes written.
pub fn varint_encode_signed(value: i64, buf: &mut Vec<u8>) -> (n: usize)
    ensures
        final(buf)@ == old(buf)@ + varint_bytes(zigzag(value as int)),
        n == varint_len(zigzag(value as int)),
        1 <= n <= 10,
        final(buf)@.len() == old(buf)@.len() + n,
{
    varint_encode(zigzag_encode_i64(value), buf)
}

/// Returns the encoded byte length of the zig-zag form of `value`.
pub fn varint_size_signed(value: i64) -> (n: usize)
    ensures
        n == varint_len(zigzag(value as int)),
        1 <= n <= 10,
{
    varint_size(zigzag_encode_i64(value))
}

/// Reads the zig-zag varint stored at `buf[pos..]`.
pub fn varint_decode_signed(buf: &[u8], pos: usize) -> (r: Result<
    (i64, usize),
    SerializationError,
>)
    requires
        pos <= buf@.len(),
    ensures
        vdec_ok(buf@.skip(pos as int), 10) ==> r == Ok::<(i64, usize), SerializationError>(
            (
                unzigzag_as_i64(vdec_raw(buf@.skip(pos as int)) % u64_mod()),
                vdec_len(buf@.skip(pos as int)) as usize,
            ),
        ),
        !vdec_ok(buf@.skip(pos as int), 10) && vdec_eof(buf@.skip(pos as int), 10) ==> r == Err::<
            (i64, usize),
            SerializationError,
        >(SerializationError::VarIntBufferTooSmall { available: (buf@.len() - pos) as usize }),
        !vdec_ok(buf@.skip(pos as int), 10) && !vdec_eof(buf@.skip(pos as int), 10) ==> r == Err::<
            (i64, usize),
            SerializationError,
        >(SerializationError::InvalidVarInt),
        r matches Ok(p) ==> pos + p.1 <= buf@.len() && 1 <= p.1 <= 10,
{
    match varint_decode(buf, pos) {
        Ok((v, n)) => Ok((zigzag_decode_i64(v), n)),
        Err(e) => Err(e),
    }
}

/// The signed value whose zig-zag image is `n`, as an `i64`.
pub open spec fn unzigzag_as_i64(n: nat) -> i64
    recommends
        n < u64_mod(),
{
    unzigzag(n) as i64
}

/// Maps a signed value onto its zig-zag image.
pub fn zigzag_encode_i64(value: i64) -> (r: u64)
    ensures
        r as nat == zigzag(value as int),
{
    if value >= 0 {
        (value as u64) * 2
    } else {
        let magnitude: i64 = -(value + 1);
        (magnitude as u64) * 2 + 1
    }
}

/// Maps a zig-zag image back onto its signed value.
pub fn zigzag_decode_i64(value: u64) -> (r: i64)
    ensures
        r as int == unzigzag(value as nat),
{
    if value % 2 == 0 {
        (value / 2) as i64
    } else {
        -((value / 2) as i64) - 1
    }
}

/// A `u64` encodes in at most ten bytes.
pub proof fn lemma_varint_len_le_10(v: nat)
    requires
        v < u64_mod(),
    ensures
        varint_len(v) <= 10,
    decreases v,
{
    assert(pow128(0) == 1);
    assert(pow128(1) == 0x80);
    assert(pow128(2) == 0x4000);
    assert(pow128(3) == 0x20_0000);
    assert(pow128(4) == 0x1000_0000);
    assert(pow128(5) == 0x8_0000_0000);
    assert(pow128(6) == 0x400_0000_0000);
    assert(pow128(7) == 0x2_0000_0000_0000);
    assert(pow128(8) == 0x100_0000_0000_0000);
    assert(pow128(9) == 0x8000_0000_0000_0000);
    assert(pow128(10) == 0x40_0000_0000_0000_0000);
    lemma_varint_len_le_10_rec(v, 10);
}

proof fn lemma_varint_len_le_10_rec(v: nat, k: nat)
    requires
        k >= 1,
        v < pow128(k),
    ensures
        varint_len(v) <= k,
    decreases k,
{
    if v >= 128 {
        assert(pow128(k) == 128 * pow128((k - 1) as nat));
        assert(v / 128 < pow128((k - 1) as nat)) by (nonlinear_arith)
            requires
                v < 128 * pow128((k - 1) as nat),
        ;
        lemma_varint_len_le_10_rec(v / 128, (k - 1) as nat);
    }
}

/// 128 raised to `k`.
pub open spec fn pow128(k: nat) -> nat
    decreases k,
{
    if k == 0 {
        1
    } else {
        128 * pow128((k - 1) as nat)
    }
}

/// Decoding an encoded value, with anything at all after it, terminates,
/// consumes exactly the encoded bytes, and yields the value back: the varint
/// round trip.
pub proof fn lemma_varint_round_trip(x: u64, rest: Seq<u8>)
    ensures
        vdec_ok(varint_bytes(x as nat) + rest, 10),
        vdec_len(varint_bytes(x as nat) + rest) == varint_len(x as nat),
        vdec_raw(varint_bytes(x as nat) + rest) == x as nat,
{
    lemma_varint_len_le_10(x as nat);
    lemma_varint_round_trip_rec(x as nat, rest, 10);
}

proof fn lemma_varint_round_trip_rec(v: nat, rest: Seq<u8>, k: nat)
    requires
        varint_len(v) <= k,
    ensures
        vdec_ok(varint_bytes(v) + rest, k),
        vdec_len(varint_bytes(v) + rest) == varint_len(v),
        vdec_raw(varint_bytes(v) + rest) == v,
    decreases v,
{
    let s = varint_bytes(v) + rest;
    if v < 128 {
        assert(s[0] == v as u8);
    } else {
        assert(s[0] == (v % 128 + 128) as u8);
        assert(s.skip(1) =~= varint_bytes(v / 128) + rest);
        lemma_varint_round_trip_rec(v / 128, rest, (k - 1) as nat);
        assert(vdec_raw(s) == v % 128 + 128 * (v / 128));
        vstd::arithmetic::div_mod::lemma_fundamental_div_mod(v as int, 128);
    }
}

/// The zig-zag round trip: decoding an encoded signed value gives it back,
/// and its image always fits in a `u64`.
pub proof fn lemma_zigzag_round_trip(x: i64)
    ensures
        zigzag(x as int) < u64_mod(),
        unzigzag(zigzag(x as int)) == x as int,
{
}


/// The encoded form is exactly `varint_len` bytes long.
pub proof fn lemma_varint_bytes_len(v: nat)
    ensures
        varint_bytes(v).len() == varint_len(v),
    decreases v,
{
    if v >= 128 {
        lemma_varint_bytes_len(v / 128);
    }
}


/// A varint that terminates within `k` bytes occupies between one and `k`
/// of them, and no more than the input holds.
pub proof fn lemma_vdec_len_bound(s: Seq<u8>, k: nat)
    ensures
        vdec_ok(s, k) ==> 1 <= vdec_len(s) <= k && vdec_len(s) <= s.len(),
    decreases k,
{
    if k > 0 && s.len() > 0 && s[0] >= 128 {
        lemma_vdec_len_bound(s.skip(1), (k - 1) as nat);
    }
}

} // verus!
