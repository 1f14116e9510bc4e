//! Record serialization: tagged variant values and record framing for
//! leaf-cell payloads. A value serializes as a one-byte tag followed by its
//! payload; a record is a varint-prefixed length followed by its values.

use vstd::prelude::*;

use crate::varint::{self, u64_mod, unzigzag, varint_bytes, varint_len, vdec_eof, vdec_len,
    vdec_ok, vdec_raw, zigzag};
use vstd::bytes::{spec_u64_from_le_bytes, spec_u64_to_le_bytes, u64_from_le_bytes,
    u64_to_le_bytes};
use vstd::slice::slice_subrange;
use vstd::utf8::{decode_utf8, encode_utf8, valid_utf8};

verus! {

/// Errors raised by the varint and record codecs.
#[derive(Debug, PartialEq)]
pub enum SerializationError {
    /// Decoded bytes are structurally valid but carry illegal data
    /// (a string that is not UTF-8).
    InvalidData,
    /// A value tag byte outside the known range.
    InvalidTag(u8),
    /// The input ends before a complete value could be read.
    BufferTooSmall { required: usize, available: usize },
    /// The input ends in the middle of a varint.
    VarIntBufferTooSmall { available: usize },
    /// A varint ran for more than ten bytes without terminating.
    InvalidVarInt,
    /// A string longer than the length prefix can carry.
    StringTooLong,
}

/// A tagged variant value. Floats are carried as their IEEE 754 bit
/// patterns, which serialize as the same eight bytes the number itself
/// would; round trips are therefore exact, bit for bit.
#[derive(Debug, PartialEq, Clone)]
pub enum Value {
    /// Tag 1: an unsigned varint.
    UnsignedInteger(u64),
    /// Tag 2: a zig-zag signed varint.
    Integer(i64),
    /// Tag 3: eight raw little-endian bytes of an `f64` bit pattern.
    Float(u64),
    /// Tag 4: a varint byte length followed by UTF-8 bytes.
    String(String),
    /// Tag 5: one byte, zero or one.
    Boolean(bool),
    /// Tag 6: no payload.
    Null,
}

/// The mathematical shadow of a [`Value`]: strings as character sequences.
pub enum ValueModel {
    /// Shadow of `Value::UnsignedInteger`.
    UnsignedInteger(u64),
    /// Shadow of `Value::Integer`.
    Integer(i64),
    /// Shadow of `Value::Float`.
    Float(u64),
    /// Shadow of `Value::String`.
    String(Seq<char>),
    /// Shadow of `Value::Boolean`.
    Boolean(bool),
    /// Shadow of `Value::Null`.
    Null,
}

impl View for Value {
    type V = ValueModel;

    closed spec fn view(&self) -> ValueModel {
        match self {
            Value::UnsignedInteger(u) => ValueModel::UnsignedInteger(*u),
            Value::Integer(i) => ValueModel::Integer(*i),
            Value::Float(bits) => ValueModel::Float(*bits),
            Value::String(s) => ValueModel::String(s@),
            Value::Boolean(b) => ValueModel::Boolean(*b),
            Value::Null => ValueModel::Null,
        }
    }
}

/// Whether a value can be serialized: a string's byte length must fit the
/// `u32` the length prefix is narrowed to.
pub open spec fn spec_val_ser_ok(v: ValueModel) -> bool {
    match v {
        ValueModel::String(s) => encode_utf8(s).len() <= u32::MAX,
        _ => true,
    }
}

/// The serialized bytes of one value: its tag, then its payload.
pub open spec fn spec_val_bytes(v: ValueModel) -> Seq<u8> {
    match v {
        ValueModel::UnsignedInteger(u) => seq![1u8] + varint_bytes(u as nat),
        ValueModel::Integer(i) => seq![2u8] + varint_bytes(zigzag(i as int)),
        ValueModel::Float(bits) => seq![3u8] + spec_u64_to_le_bytes(bits),
        ValueModel::String(s) => seq![4u8] + varint_bytes(encode_utf8(s).len()) + encode_utf8(s),
        ValueModel::Boolean(b) => seq![
            5u8,
            if b {
                1u8
            } else {
                0u8
            },
        ],
        ValueModel::Null => seq![6u8],
    }
}

/// The serialized size of one value; always at least one byte.
pub open spec fn spec_val_size(v: ValueModel) -> int {
    match v {
        ValueModel::UnsignedInteger(u) => 1 + varint_len(u as nat) as int,
        ValueModel::Integer(i) => 1 + varint_len(zigzag(i as int)) as int,
        ValueModel::Float(_) => 9,
        ValueModel::String(s) => 1 + varint_len(encode_utf8(s).len()) as int + encode_utf8(
            s,
        ).len() as int,
        ValueModel::Boolean(_) => 2,
        ValueModel::Null => 1,
    }
}

/// What decoding the value at the front of `s` yields: the decoded value
/// model and the number of bytes consumed, or the error the decoder
/// reports. This mirrors the decoder exactly, non-canonical varints
/// included.
pub open spec fn spec_val_decode(s: Seq<u8>) -> Result<(ValueModel, int), SerializationError> {
    if s.len() == 0 {
        Err(SerializationError::BufferTooSmall { required: 1, available: 0 })
    } else {
        let tag = s[0];
        let rest = s.skip(1);
        if tag == 1 {
            match spec_varint_step(rest) {
                Ok((v, n)) => Ok((ValueModel::UnsignedInteger(v), 1 + n)),
                Err(e) => Err(e),
            }
        } else if tag == 2 {
            match spec_varint_step(rest) {
                Ok((v, n)) => Ok((ValueModel::Integer(unzigzag(v as nat) as i64), 1 + n)),
                Err(e) => Err(e),
            }
        } else if tag == 3 {
            if rest.len() < 8 {
                Err(
                    SerializationError::BufferTooSmall {
                        required: 8,
                        available: rest.len() as usize,
                    },
                )
            } else {
                Ok((ValueModel::Float(spec_u64_from_le_bytes(rest.subrange(0, 8))), 9))
            }
        } else if tag == 4 {
            match spec_varint_step(rest) {
                Ok((v, n)) => {
                    let body = rest.skip(n);
                    if v > usize::MAX {
                        Err(SerializationError::StringTooLong)
                    } else if body.len() < v {
                        Err(
                            SerializationError::BufferTooSmall {
                                required: v as usize,
                                available: body.len() as usize,
                            },
                        )
                    } else if !valid_utf8(body.subrange(0, v as int)) {
                        Err(SerializationError::InvalidData)
                    } else {
                        Ok((ValueModel::String(decode_utf8(body.subrange(0, v as int))), 1 + n + v))
                    }
                },
                Err(e) => Err(e),
            }
        } else if tag == 5 {
            if rest.len() < 1 {
                Err(SerializationError::BufferTooSmall { required: 1, available: 0 })
            } else {
                Ok((ValueModel::Boolean(rest[0] != 0), 2))
            }
        } else if tag == 6 {
            Ok((ValueModel::Null, 1))
        } else {
            Err(SerializationError::InvalidTag(tag))
        }
    }
}

/// One varint read at the front of `s`, as the decoder performs it.
pub open spec fn spec_varint_step(s: Seq<u8>) -> Result<(u64, int), SerializationError> {
    if vdec_ok(s, 10) {
        Ok(((vdec_raw(s) % u64_mod()) as u64, vdec_len(s) as int))
    } else if vdec_eof(s, 10) {
        Err(SerializationError::VarIntBufferTooSmall { available: s.len() as usize })
    } else {
        Err(SerializationError::InvalidVarInt)
    }
}

impl Value {
    /// The serialized size of this value, without encoding it. A size too
    /// large for `usize` (possible only for a pathological string) reports
    /// `usize::MAX`.
    pub fn serialized_size(&self) -> (n: usize)
        ensures
            spec_val_size(self@) <= usize::MAX ==> n == spec_val_size(self@),
            1 <= n,
            n <= spec_val_size(self@),
    {
        match self {
            Value::UnsignedInteger(u) => 1 + varint::varint_size(*u),
            Value::Integer(i) => 1 + varint::varint_size_signed(*i),
            Value::Float(_) => 9,
            Value::String(s) => {
                let len = s.as_str().as_bytes().len();
                proof {
                    varint::lemma_varint_len_le_10(len as nat);
                }
                let vs = varint::varint_size(len as u64);
                if len <= usize::MAX - 1 - vs {
                    1 + vs + len
                } else {
                    usize::MAX
                }
            },
            Value::Boolean(_) => 2,
            Value::Null => 1,
        }
    }

    /// Appends the serialized form of this value to `buf`.
    ///
    /// Fails with `StringTooLong`, after the tag byte, exactly when a
    /// string's byte length does not fit in `u32`.
    pub fn serialize(&self, buf: &mut Vec<u8>) -> (r: Result<(), SerializationError>)
        ensures
            spec_val_ser_ok(self@) ==> r == Ok::<(), SerializationError>(()) && final(buf)@ == old(
                buf,
            )@ + spec_val_bytes(self@),
            !spec_val_ser_ok(self@) ==> r == Err::<(), SerializationError>(
                SerializationError::StringTooLong,
            ) && final(buf)@ == old(buf)@ + seq![4u8],
    {
        match self {
            Value::UnsignedInteger(u) => {
                buf.push(1);
                varint::varint_encode(*u, buf);
                proof {
                    assert(buf@ =~= old(buf)@ + spec_val_bytes(self@));
                }
            },
            Value::Integer(i) => {
                buf.push(2);
                varint::varint_encode_signed(*i, buf);
                proof {
                    assert(buf@ =~= old(buf)@ + spec_val_bytes(self@));
                }
            },
            Value::Float(bits) => {
                buf.push(3);
                let mut le = u64_to_le_bytes(*bits);
                buf.append(&mut le);
                proof {
                    assert(buf@ =~= old(buf)@ + spec_val_bytes(self@));
                }
            },
            Value::String(s) => {
                buf.push(4);
                let bytes = s.as_str().as_bytes();
                let len = bytes.len();
                if len > u32::MAX as usize {
                    proof {
                        assert(buf@ =~= old(buf)@ + seq![4u8]);
                    }
                    return Err(SerializationError::StringTooLong);
                }
                varint::varint_encode(len as u64, buf);
                buf.extend_from_slice(bytes);
                proof {
                    assert(buf@ =~= old(buf)@ + spec_val_bytes(self@));
                }
            },
            Value::Boolean(b) => {
                buf.push(5);
                buf.push(
                    if *b {
                        1
                    } else {
                        0
                    },
                );
                proof {
                    assert(buf@ =~= old(buf)@ + spec_val_bytes(self@));
                }
            },
            Value::Null => {
                buf.push(6);
                proof {
                    assert(buf@ =~= old(buf)@ + spec_val_bytes(self@));
                }
            },
        }
        Ok(())
    }

    /// Reads one serialized value at `buf[pos..]`, returning the value and
    /// the number of bytes consumed: exactly what [`spec_val_decode`] says.
    pub fn deserialize(buf: &[u8], pos: usize) -> (r: Result<
        (Value, usize),
        SerializationError,
    >)
        requires
            pos <= buf@.len(),
        ensures
            match r {
                Ok((v, n)) => spec_val_decode(buf@.skip(pos as int)) == Ok::<
                    (ValueModel, int),
                    SerializationError,
                >((v@, n as int)) && pos + n <= buf@.len() && n >= 1,
                Err(e) => spec_val_decode(buf@.skip(pos as int)) == Err::<
                    (ValueModel, int),
                    SerializationError,
                >(e),
            },
    {
        let ghost s = buf@.skip(pos as int);
        if pos >= buf.len() {
            return Err(SerializationError::BufferTooSmall { required: 1, available: 0 });
        }
        let tag = buf[pos];
        proof {
            assert(s[0] == tag);
            assert(s.skip(1) =~= buf@.skip(pos + 1));
            varint::lemma_vdec_len_bound(s.skip(1), 10);
        }
        if tag == 1 {
            match varint::varint_decode(buf, pos + 1) {
                Ok((v, n)) => {
                    proof {
                        assert(spec_val_decode(s) == Ok::<(ValueModel, int), SerializationError>(
                            (ValueModel::UnsignedInteger(v), 1 + n as int),
                        ));
                    }
                    Ok((Value::UnsignedInteger(v), 1 + n))
                },
                Err(e) => {
                    proof {
                        assert(spec_val_decode(s) == Err::<(ValueModel, int), SerializationError>(
                            e,
                        ));
                    }
                    Err(e)
                },
            }
        } else if tag == 2 {
            match varint::varint_decode_signed(buf, pos + 1) {
                Ok((v, n)) => {
                    proof {
                        assert(spec_val_decode(s) == Ok::<(ValueModel, int), SerializationError>(
                            (ValueModel::Integer(v), 1 + n as int),
                        ));
                    }
                    Ok((Value::Integer(v), 1 + n))
                },
                Err(e) => {
                    proof {
                        assert(spec_val_decode(s) == Err::<(ValueModel, int), SerializationError>(
                            e,
                        ));
                    }
                    Err(e)
                },
            }
        } else if tag == 3 {
            if buf.len() - (pos + 1) < 8 {
                return Err(
                    SerializationError::BufferTooSmall {
                        required: 8,
                        available: buf.len() - (pos + 1),
                    },
                );
            }
            let bits = u64_from_le_bytes(slice_subrange(buf, pos + 1, pos + 9));
            proof {
                assert(buf@.subrange(pos + 1, pos + 9) =~= s.skip(1).subrange(0, 8));
            }
            Ok((Value::Float(bits), 9))
        } else if tag == 4 {
            let (len64, n) = match varint::varint_decode(buf, pos + 1) {
                Ok(pair) => pair,
                Err(e) => {
                    return Err(e);
                },
            };
            if len64 > usize::MAX as u64 {
                return Err(SerializationError::StringTooLong);
            }
            let len = len64 as usize;
            let body_start = pos + 1 + n;
            proof {
                assert(s.skip(1).skip(n as int) =~= buf@.skip(body_start as int));
            }
            if buf.len() - body_start < len {
                return Err(
                    SerializationError::BufferTooSmall {
                        required: len,
                        available: buf.len() - body_start,
                    },
                );
            }
            let body = crate::byteops::subrange_to_vec_slice(buf, body_start, body_start + len);
            proof {
                assert(body@ =~= buf@.skip(body_start as int).subrange(0, len64 as int));
            }
            match string_from_utf8(body) {
                Some(text) => {
                    proof {
                        assert(spec_val_decode(s) == Ok::<(ValueModel, int), SerializationError>(
                            (ValueModel::String(text@), 1 + n + len64 as int),
                        ));
                    }
                    Ok((Value::String(text), 1 + n + len))
                },
                None => {
                    proof {
                        assert(spec_val_decode(s) == Err::<(ValueModel, int), SerializationError>(
                            SerializationError::InvalidData,
                        ));
                    }
                    Err(SerializationError::InvalidData)
                },
            }
        } else if tag == 5 {
            if pos + 1 >= buf.len() {
                return Err(SerializationError::BufferTooSmall { required: 1, available: 0 });
            }
            let b = buf[pos + 1];
            proof {
                assert(s.skip(1)[0] == b);
            }
            Ok((Value::Boolean(b != 0), 2))
        } else if tag == 6 {
            Ok((Value::Null, 1))
        } else {
            Err(SerializationError::InvalidTag(tag))
        }
    }
}

/// Relies on `String::from_utf8`: succeeds exactly on valid UTF-8 input,
/// returning the string those bytes encode, as `vstd`'s UTF-8 model
/// (`valid_utf8`, `decode_utf8`) describes it.
#[verifier::external_body]
fn string_from_utf8(bytes: Vec<u8>) -> (r: Option<String>)
    ensures
        r is Some <==> valid_utf8(bytes@),
        r matches Some(s) ==> s@ == decode_utf8(bytes@),
{
    String::from_utf8(bytes).ok()
}

/// Serializing any value and deserializing the result, with anything at all
/// after it, gives the value back and consumes exactly its serialized size:
/// the value round trip.
pub proof fn lemma_value_round_trip(v: ValueModel, rest: Seq<u8>)
    requires
        spec_val_ser_ok(v),
    ensures
        spec_val_decode(spec_val_bytes(v) + rest) == Ok::<(ValueModel, int), SerializationError>(
            (v, spec_val_size(v)),
        ),
{
    let s = spec_val_bytes(v) + rest;
    let tail = s.skip(1);
    match v {
        ValueModel::UnsignedInteger(u) => {
            varint::lemma_varint_bytes_len(u as nat);
            assert(tail =~= varint_bytes(u as nat) + rest);
            varint::lemma_varint_round_trip(u, rest);
            vstd::arithmetic::div_mod::lemma_small_mod(u as nat, u64_mod());
        },
        ValueModel::Integer(i) => {
            varint::lemma_varint_bytes_len(zigzag(i as int));
            assert(tail =~= varint_bytes(zigzag(i as int)) + rest);
            varint::lemma_zigzag_round_trip(i);
            lemma_varint_round_trip_nat(zigzag(i as int), rest);
            vstd::arithmetic::div_mod::lemma_small_mod(zigzag(i as int), u64_mod());
        },
        ValueModel::Float(bits) => {
            vstd::bytes::lemma_auto_spec_u64_to_from_le_bytes();
            assert(tail =~= spec_u64_to_le_bytes(bits) + rest);
            assert(tail.subrange(0, 8) =~= spec_u64_to_le_bytes(bits));
        },
        ValueModel::String(text) => {
            let bytes = encode_utf8(text);
            let blen = bytes.len();
            varint::lemma_varint_bytes_len(blen);
            assert(tail =~= varint_bytes(blen) + (bytes + rest));
            lemma_varint_round_trip_nat(blen, bytes + rest);
            vstd::arithmetic::div_mod::lemma_small_mod(blen, u64_mod());
            let body = tail.skip(vdec_len(tail) as int);
            assert(body =~= bytes + rest);
            assert(body.subrange(0, blen as int) =~= bytes);
            vstd::utf8::encode_utf8_valid_utf8(text);
            vstd::utf8::encode_utf8_decode_utf8(text);
        },
        ValueModel::Boolean(b) => {
            assert(s[0] == 5);
            assert(tail[0] == (if b {
                1u8
            } else {
                0u8
            }));
        },
        ValueModel::Null => {
            assert(s[0] == 6);
        },
    }
}

/// The varint round trip restated for a `nat` already known to fit `u64`.
proof fn lemma_varint_round_trip_nat(x: nat, rest: Seq<u8>)
    requires
        x < u64_mod(),
    ensures
        vdec_ok(varint_bytes(x) + rest, 10),
        vdec_len(varint_bytes(x) + rest) == varint_len(x),
        vdec_raw(varint_bytes(x) + rest) == x,
{
    varint::lemma_varint_round_trip(x as u64, rest);
}


/// The serialized sizes of the first `n` values, summed.
pub open spec fn spec_vals_size_to(vs: Seq<ValueModel>, n: int) -> int
    decreases n,
{
    if n <= 0 {
        0
    } else {
        spec_vals_size_to(vs, n - 1) + spec_val_size(vs[n - 1])
    }
}

/// The summed serialized size of a record's values.
pub open spec fn spec_vals_size(vs: Seq<ValueModel>) -> int {
    spec_vals_size_to(vs, vs.len() as int)
}

/// The concatenated serialized bytes of the first `n` values.
pub open spec fn spec_vals_bytes_to(vs: Seq<ValueModel>, n: int) -> Seq<u8>
    decreases n,
{
    if n <= 0 {
        Seq::empty()
    } else {
        spec_vals_bytes_to(vs, n - 1) + spec_val_bytes(vs[n - 1])
    }
}

/// Whether every value of a record can be serialized.
pub open spec fn spec_vals_ser_ok(vs: Seq<ValueModel>) -> bool {
    forall|i: int| 0 <= i < vs.len() ==> spec_val_ser_ok(#[trigger] vs[i])
}

/// The serialized bytes of a whole record: the varint payload size, then
/// the values.
pub open spec fn spec_record_bytes(vs: Seq<ValueModel>) -> Seq<u8> {
    varint_bytes(spec_vals_size(vs) as nat) + spec_vals_bytes_to(vs, vs.len() as int)
}

/// What decoding values until `need` payload bytes are accounted for
/// yields: the decoded models and the bytes consumed. The count charged
/// against `need` is each value's canonical size, as the decoder does it.
pub open spec fn spec_vals_decode(s: Seq<u8>, need: int) -> Result<
    (Seq<ValueModel>, int),
    SerializationError,
>
    decreases need,
{
    if need <= 0 {
        Ok((Seq::empty(), 0))
    } else {
        match spec_val_decode(s) {
            Err(e) => Err(e),
            Ok((v, m)) => {
                if need - spec_val_size(v) <= 0 {
                    Ok((seq![v], m))
                } else {
                    match spec_vals_decode(s.skip(m), need - spec_val_size(v)) {
                        Err(e) => Err(e),
                        Ok((vs, m2)) => Ok((seq![v] + vs, m + m2)),
                    }
                }
            },
        }
    }
}

/// What decoding a whole record at the front of `s` yields.
pub open spec fn spec_record_decode(s: Seq<u8>) -> Result<
    (Seq<ValueModel>, int),
    SerializationError,
> {
    match spec_varint_step(s) {
        Err(e) => Err(e),
        Ok((size, n)) => match spec_vals_decode(s.skip(n), size as int) {
            Err(e) => Err(e),
            Ok((vs, m)) => Ok((vs, n + m)),
        },
    }
}

/// A record: a sequence of values framed by their summed serialized size.
#[derive(Debug, PartialEq)]
pub struct Record(pub Vec<Value>);

impl View for Record {
    type V = Seq<ValueModel>;

    closed spec fn view(&self) -> Seq<ValueModel> {
        Seq::new(self.0@.len(), |i: int| self.0@[i]@)
    }
}

/// Partial sums of value sizes are non-negative and at most the total.
pub proof fn lemma_vals_size_bounds(vs: Seq<ValueModel>, k: int, n: int)
    requires
        0 <= k <= n,
    ensures
        0 <= spec_vals_size_to(vs, k) <= spec_vals_size_to(vs, n),
    decreases n,
{
    if n > k {
        lemma_vals_size_bounds(vs, k, n - 1);
    } else if n > 0 {
        lemma_vals_size_bounds(vs, 0, n - 1);
    }
}

impl Record {
    /// The summed serialized size of the record's values; saturates at
    /// `usize::MAX` like the value sizes it sums.
    pub fn serialized_size(&self) -> (n: usize)
        ensures
            spec_vals_size(self@) <= usize::MAX ==> n == spec_vals_size(self@),
    {
        let mut total: usize = 0;
        let mut i: usize = 0;
        let count = self.0.len();
        while i < count
            invariant
                count == self.0@.len(),
                i <= count,
                spec_vals_size_to(self@, i as int) <= usize::MAX ==> total == spec_vals_size_to(
                    self@,
                    i as int,
                ),
                total <= spec_vals_size_to(self@, i as int),
                0 <= total,
            decreases count - i,
        {
            proof {
                assert(self@[i as int] == self.0@[i as int]@);
            }
            let vsize = self.0[i].serialized_size();
            if total <= usize::MAX - vsize {
                total = total + vsize;
            } else {
                total = usize::MAX;
            }
            i = i + 1;
        }
        total
    }

    /// Appends the serialized form of the record to `buf`: the varint
    /// payload size, then the values in order.
    ///
    /// Fails with `StringTooLong` exactly when some value cannot be
    /// serialized; the buffer is then partially extended.
    pub fn serialize(&self, buf: &mut Vec<u8>) -> (r: Result<(), SerializationError>)
        requires
            spec_vals_size(self@) <= usize::MAX,
        ensures
            spec_vals_ser_ok(self@) ==> r == Ok::<(), SerializationError>(()) && final(buf)@
                == old(buf)@ + spec_record_bytes(self@),
            !spec_vals_ser_ok(self@) ==> r == Err::<(), SerializationError>(
                SerializationError::StringTooLong,
            ),
    {
        let total = self.serialized_size();
        varint::varint_encode(total as u64, buf);
        let ghost after_len = buf@;
        let count = self.0.len();
        let mut i: usize = 0;
        while i < count
            invariant
                count == self.0@.len() == self@.len(),
                i <= count,
                forall|j: int| 0 <= j < count ==> self@[j] == self.0@[j]@,
                forall|j: int| 0 <= j < i ==> spec_val_ser_ok(#[trigger] self@[j]),
                buf@ == after_len + spec_vals_bytes_to(self@, i as int),
            decreases count - i,
        {
            match self.0[i].serialize(buf) {
                Ok(()) => {},
                Err(e) => {
                    proof {
                        assert(!spec_val_ser_ok(self@[i as int]));
                    }
                    return Err(e);
                },
            }
            proof {
                assert(buf@ =~= after_len + spec_vals_bytes_to(self@, i + 1));
            }
            i = i + 1;
        }
        proof {
            assert(buf@ =~= old(buf)@ + spec_record_bytes(self@)) by {
                assert(total == spec_vals_size(self@));
                vstd::arithmetic::div_mod::lemma_small_mod(
                    spec_vals_size(self@) as nat,
                    u64_mod(),
                );
            }
        }
        Ok(())
    }

    /// Reads one serialized record at `buf[pos..]`, returning the record and
    /// the number of bytes consumed: what [`spec_record_decode`] says, for
    /// every buffer a machine can hold.
    pub fn deserialize(buf: &[u8], pos: usize) -> (r: Result<(Record, usize), SerializationError>)
        requires
            pos <= buf@.len(),
            buf@.len() + 32 <= usize::MAX,
        ensures
            match r {
                Ok((rec, n)) => spec_record_decode(buf@.skip(pos as int)) == Ok::<
                    (Seq<ValueModel>, int),
                    SerializationError,
                >((rec@, n as int)) && pos + n <= buf@.len(),
                Err(e) => spec_record_decode(buf@.skip(pos as int)) == Err::<
                    (Seq<ValueModel>, int),
                    SerializationError,
                >(e),
            },
    {
        let ghost s = buf@.skip(pos as int);
        let (size64, n0) = match varint::varint_decode(buf, pos) {
            Ok(pair) => pair,
            Err(e) => {
                return Err(e);
            },
        };
        let mut values: Vec<Value> = Vec::new();
        let mut cur: usize = pos + n0;
        let ghost need0 = size64 as int;
        let mut remaining: u64 = size64;
        proof {
            varint::lemma_vdec_len_bound(s, 10);
            assert(s.skip(n0 as int) =~= buf@.skip(cur as int));
            assert(spec_varint_step(s) == Ok::<(u64, int), SerializationError>(
                (size64, n0 as int),
            ));
        }
        while remaining > 0
            invariant
                pos + n0 <= cur <= buf@.len(),
                buf@.len() + 32 <= usize::MAX,
                remaining <= size64,
                s == buf@.skip(pos as int),
                need0 == size64 as int,
                spec_varint_step(s) == Ok::<(u64, int), SerializationError>((size64, n0 as int)),
                match spec_vals_decode(buf@.skip(cur as int), remaining as int) {
                    Ok((vs, m)) => spec_vals_decode(s.skip(n0 as int), need0) == Ok::<
                        (Seq<ValueModel>, int),
                        SerializationError,
                    >((Seq::new(values@.len(), |i: int| values@[i]@) + vs, cur - (pos + n0) + m)),
                    Err(e) => spec_vals_decode(s.skip(n0 as int), need0) == Err::<
                        (Seq<ValueModel>, int),
                        SerializationError,
                    >(e),
                },
            decreases remaining,
        {
            let ghost cur0 = cur;
            let ghost rem0 = remaining;
            let ghost prefix0 = Seq::new(values@.len(), |i: int| values@[i]@);
            let (v, consumed) = match Value::deserialize(buf, cur) {
                Ok(pair) => pair,
                Err(e) => {
                    proof {
                        assert(spec_vals_decode(buf@.skip(cur as int), remaining as int) == Err::<
                            (Seq<ValueModel>, int),
                            SerializationError,
                        >(e));
                        assert(spec_record_decode(s) == Err::<
                            (Seq<ValueModel>, int),
                            SerializationError,
                        >(e));
                    }
                    return Err(e);
                },
            };
            let vsize = v.serialized_size();
            proof {
                lemma_val_size_within(buf@.skip(cur as int), v@, consumed as int);
            }
            values.push(v);
            cur = cur + consumed;
            if (vsize as u64) >= remaining {
                remaining = 0;
            } else {
                remaining = remaining - (vsize as u64);
            }
            proof {
                let size = spec_val_size(v@);
                let prefix1 = Seq::new(values@.len(), |i: int| values@[i]@);
                assert(prefix1 =~= prefix0.push(v@));
                assert(buf@.skip(cur0 as int).skip(consumed as int) =~= buf@.skip(cur as int));
                if rem0 as int - size <= 0 {
                    assert(spec_vals_decode(buf@.skip(cur0 as int), rem0 as int) == Ok::<
                        (Seq<ValueModel>, int),
                        SerializationError,
                    >((seq![v@], consumed as int)));
                    assert(prefix0 + seq![v@] =~= prefix1);
                    assert(spec_vals_decode(buf@.skip(cur as int), 0) == Ok::<
                        (Seq<ValueModel>, int),
                        SerializationError,
                    >((Seq::empty(), 0)));
                    assert(prefix1 + Seq::<ValueModel>::empty() =~= prefix1);
                } else {
                    match spec_vals_decode(buf@.skip(cur as int), remaining as int) {
                        Ok((vs2, m2)) => {
                            assert(spec_vals_decode(buf@.skip(cur0 as int), rem0 as int) == Ok::<
                                (Seq<ValueModel>, int),
                                SerializationError,
                            >((seq![v@] + vs2, consumed + m2)));
                            assert(prefix0 + (seq![v@] + vs2) =~= prefix1 + vs2);
                        },
                        Err(_) => {},
                    }
                }
            }
        }
        let rec = Record(values);
        proof {
            assert(rec@ =~= Seq::new(values@.len(), |i: int| values@[i]@));
            assert(spec_vals_decode(buf@.skip(cur as int), 0) == Ok::<
                (Seq<ValueModel>, int),
                SerializationError,
            >((Seq::empty(), 0)));
            assert(rec@ + Seq::<ValueModel>::empty() =~= rec@);
            assert(spec_vals_decode(s.skip(n0 as int), need0) == Ok::<
                (Seq<ValueModel>, int),
                SerializationError,
            >((rec@, cur - (pos + n0))));
            assert(spec_record_decode(s) == Ok::<(Seq<ValueModel>, int), SerializationError>(
                (rec@, cur - pos as int),
            ));
        }
        Ok((rec, cur - pos))
    }
}

/// A decoded value's canonical size is bounded by the bytes that held it
/// plus the slack a non-canonical varint can add, and always fits `usize`
/// when the buffer does.
proof fn lemma_val_size_within(s: Seq<u8>, v: ValueModel, n: int)
    requires
        spec_val_decode(s) == Ok::<(ValueModel, int), SerializationError>((v, n)),
        s.len() + 32 <= usize::MAX,
    ensures
        spec_val_size(v) <= usize::MAX,
        1 <= spec_val_size(v),
{
    assert(usize::MAX >= 32);
    match v {
        ValueModel::UnsignedInteger(u) => {
            varint::lemma_varint_len_le_10(u as nat);
            assert(spec_val_size(v) <= 11);
        },
        ValueModel::Integer(i) => {
            varint::lemma_zigzag_round_trip(i);
            varint::lemma_varint_len_le_10(zigzag(i as int));
            assert(spec_val_size(v) <= 11);
        },
        ValueModel::Float(_) => {
            assert(spec_val_size(v) == 9);
        },
        ValueModel::String(text) => {
            let rest = s.skip(1);
            assert(vdec_ok(rest, 10));
            varint::lemma_vdec_len_bound(rest, 10);
            let blen0 = (vdec_raw(rest) % u64_mod()) as u64;
            let m = vdec_len(rest) as int;
            let body = rest.skip(m);
            assert(text == decode_utf8(body.subrange(0, blen0 as int)));
            vstd::utf8::decode_utf8_encode_utf8(body.subrange(0, blen0 as int));
            assert(encode_utf8(text).len() == blen0);
            assert(blen0 <= body.len());
            varint::lemma_varint_len_le_10(blen0 as nat);
            assert(spec_val_size(v) <= 11 + s.len());
        },
        ValueModel::Boolean(_) => {
            assert(spec_val_size(v) == 2);
        },
        ValueModel::Null => {
            assert(spec_val_size(v) == 1);
        },
    }
}

/// Serializing a record and deserializing the result gives back values with
/// the same models and consumes exactly the serialized bytes: the record
/// round trip.
pub proof fn lemma_record_round_trip(vs: Seq<ValueModel>, rest: Seq<u8>)
    requires
        spec_vals_ser_ok(vs),
        spec_vals_size(vs) <= u32::MAX,
    ensures
        spec_record_decode(spec_record_bytes(vs) + rest) == Ok::<
            (Seq<ValueModel>, int),
            SerializationError,
        >((vs, spec_record_bytes(vs).len() as int)),
{
    lemma_vals_size_bounds(vs, 0, vs.len() as int);
    let total = spec_vals_size(vs) as nat;
    let body = spec_vals_bytes_to(vs, vs.len() as int);
    let s = spec_record_bytes(vs) + rest;
    varint::lemma_varint_bytes_len(total);
    assert(s =~= varint_bytes(total) + (body + rest));
    lemma_varint_round_trip_nat(total, body + rest);
    vstd::arithmetic::div_mod::lemma_small_mod(total, u64_mod());
    assert(s.skip(vdec_len(s) as int) =~= body + rest);
    lemma_vals_round_trip(vs, rest);
    assert(spec_record_bytes(vs).len() - varint_len(total) == body.len()) by {
        lemma_vals_bytes_size(vs, vs.len() as int);
    }
    assert(spec_varint_step(s) == Ok::<(u64, int), SerializationError>(
        (total as u64, varint_len(total) as int),
    ));
    if vs.len() == 0 {
        assert(total == 0);
        assert(body =~= Seq::<u8>::empty());
        assert(body + rest =~= rest);
        assert(spec_vals_decode(body + rest, 0) == Ok::<
            (Seq<ValueModel>, int),
            SerializationError,
        >((Seq::empty(), 0)));
        assert(vs =~= Seq::<ValueModel>::empty());
    } else {
        assert(spec_vals_decode(body + rest, total as int) == Ok::<
            (Seq<ValueModel>, int),
            SerializationError,
        >((vs, body.len() as int)));
    }
}

/// Bytes of a value prefix are as long as the summed sizes say.
proof fn lemma_vals_bytes_size(vs: Seq<ValueModel>, n: int)
    ensures
        spec_vals_bytes_to(vs, n).len() == if n >= 0 {
            spec_vals_size_to(vs, n)
        } else {
            0
        },
    decreases n,
{
    if n > 0 {
        lemma_vals_bytes_size(vs, n - 1);
        lemma_val_bytes_size(vs[n - 1]);
    }
}

/// One value's bytes are as long as its size says.
proof fn lemma_val_bytes_size(v: ValueModel)
    ensures
        spec_val_bytes(v).len() == spec_val_size(v),
{
    vstd::bytes::lemma_auto_spec_u64_to_from_le_bytes();
    match v {
        ValueModel::UnsignedInteger(u) => {
            varint::lemma_varint_bytes_len(u as nat);
        },
        ValueModel::Integer(i) => {
            varint::lemma_varint_bytes_len(zigzag(i as int));
        },
        ValueModel::String(text) => {
            varint::lemma_varint_bytes_len(encode_utf8(text).len());
        },
        _ => {},
    }
}

/// Decoding the concatenated values consumes them all in order.
proof fn lemma_vals_round_trip(vs: Seq<ValueModel>, rest: Seq<u8>)
    requires
        spec_vals_ser_ok(vs),
    ensures
        vs.len() > 0 ==> spec_vals_decode(
            spec_vals_bytes_to(vs, vs.len() as int) + rest,
            spec_vals_size(vs),
        ) == Ok::<(Seq<ValueModel>, int), SerializationError>(
            (vs, spec_vals_bytes_to(vs, vs.len() as int).len() as int),
        ),
        vs.len() == 0 ==> spec_vals_decode(rest, 0) == Ok::<
            (Seq<ValueModel>, int),
            SerializationError,
        >((Seq::empty(), 0)),
    decreases vs.len(),
{
    if vs.len() > 0 {
        let head = vs[0];
        let tail = vs.skip(1);
        lemma_front_decomp(vs);
        let tail_bytes = spec_vals_bytes_to(tail, tail.len() as int);
        assert(spec_vals_bytes_to(vs, vs.len() as int) + rest =~= spec_val_bytes(head) + (
        tail_bytes + rest));
        lemma_value_round_trip(head, tail_bytes + rest);
        lemma_val_bytes_size(head);
        lemma_vals_bytes_size(tail, tail.len() as int);
        lemma_vals_size_front(vs);
        lemma_vals_round_trip(tail, rest);
        let s = spec_vals_bytes_to(vs, vs.len() as int) + rest;
        assert(s.skip(spec_val_size(head)) =~= tail_bytes + rest);
        if tail.len() > 0 {
            lemma_vals_size_bounds(tail, 0, tail.len() as int);
            assert(spec_vals_size(tail) > 0) by {
                lemma_val_size_pos(tail[0]);
                lemma_vals_size_front(tail);
                lemma_vals_size_bounds(tail.skip(1), 0, tail.skip(1).len() as int);
            }
            assert(seq![head] + tail =~= vs);
        } else {
            assert(spec_vals_size(vs) - spec_val_size(head) == 0);
            assert(seq![head] =~= vs);
        }
    }
}

/// Every value occupies at least one byte.
proof fn lemma_val_size_pos(v: ValueModel)
    ensures
        spec_val_size(v) >= 1,
{
}

/// The summed size of a non-empty sequence splits off its head.
proof fn lemma_vals_size_front(vs: Seq<ValueModel>)
    requires
        vs.len() > 0,
    ensures
        spec_vals_size(vs) == spec_val_size(vs[0]) + spec_vals_size(vs.skip(1)),
        spec_vals_bytes_to(vs, vs.len() as int) == spec_val_bytes(vs[0]) + spec_vals_bytes_to(
            vs.skip(1),
            vs.len() - 1,
        ),
    decreases vs.len(),
{
    lemma_front_decomp(vs);
}

/// Prefix sums and bytes of `vs` agree with those of its tail shifted by
/// one.
proof fn lemma_front_decomp(vs: Seq<ValueModel>)
    requires
        vs.len() > 0,
    ensures
        forall|n: int|
            1 <= n <= vs.len() ==> #[trigger] spec_vals_size_to(vs, n) == spec_val_size(vs[0])
                + spec_vals_size_to(vs.skip(1), n - 1),
        forall|n: int|
            1 <= n <= vs.len() ==> #[trigger] spec_vals_bytes_to(vs, n) == spec_val_bytes(vs[0])
                + spec_vals_bytes_to(vs.skip(1), n - 1),
{
    assert forall|n: int| 1 <= n <= vs.len() implies #[trigger] spec_vals_size_to(vs, n)
        == spec_val_size(vs[0]) + spec_vals_size_to(vs.skip(1), n - 1) by {
        lemma_front_decomp_one(vs, n);
    }
    assert forall|n: int| 1 <= n <= vs.len() implies #[trigger] spec_vals_bytes_to(vs, n)
        == spec_val_bytes(vs[0]) + spec_vals_bytes_to(vs.skip(1), n - 1) by {
        lemma_front_decomp_one(vs, n);
    }
}

proof fn lemma_front_decomp_one(vs: Seq<ValueModel>, n: int)
    requires
        vs.len() > 0,
        1 <= n <= vs.len(),
    ensures
        spec_vals_size_to(vs, n) == spec_val_size(vs[0]) + spec_vals_size_to(vs.skip(1), n - 1),
        spec_vals_bytes_to(vs, n) == spec_val_bytes(vs[0]) + spec_vals_bytes_to(
            vs.skip(1),
            n - 1,
        ),
    decreases n,
{
    if n == 1 {
        assert(spec_vals_bytes_to(vs, 0) == Seq::<u8>::empty());
        assert(spec_vals_size_to(vs, 0) == 0);
        assert(spec_vals_bytes_to(vs.skip(1), 0) == Seq::<u8>::empty());
        assert(spec_vals_size_to(vs.skip(1), 0) == 0);
        assert(spec_vals_bytes_to(vs, 1) =~= spec_val_bytes(vs[0]) + spec_vals_bytes_to(
            vs.skip(1),
            0,
        ));
    } else {
        lemma_front_decomp_one(vs, n - 1);
        assert(vs.skip(1)[n - 2] == vs[n - 1]);
        assert(spec_vals_bytes_to(vs, n) =~= spec_val_bytes(vs[0]) + spec_vals_bytes_to(
            vs.skip(1),
            n - 1,
        ));
    }
}

} // verus!
