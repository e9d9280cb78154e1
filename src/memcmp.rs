//! Memcomparable encodings of scalar values, from the `memcomparable` crate.
//! Byte-wise order of two encodings follows the order of the values; with
//! `reverse` every byte is complemented, which reverses that order.
use vstd::prelude::*;
use crate::byte_order::lex_lt;

verus! {

/// The memcomparable encoding of a string (complemented when `reverse`).
pub uninterp spec fn memcmp_str_of(s: Seq<char>, reverse: bool) -> Seq<u8>;

/// The string that memcomparable's decoder reads from a complete frame, or
/// `None` where it rejects the bytes (a bad marker, or not UTF-8).
pub uninterp spec fn memcmp_str_decoded(b: Seq<u8>) -> Option<Seq<char>>;

/// `a` sorts strictly before `b` by code points, lexicographically (the
/// order of their UTF-8 bytes).
pub open spec fn str_lt(a: Seq<char>, b: Seq<char>) -> bool
    decreases a.len(),
{
    if a.len() == 0 {
        b.len() > 0
    } else if b.len() == 0 {
        false
    } else if a[0] != b[0] {
        (a[0] as u32) < (b[0] as u32)
    } else {
        str_lt(a.drop_first(), b.drop_first())
    }
}

/// A byte, complemented when `reverse`.
pub open spec fn flip_byte(b: u8, reverse: bool) -> u8 {
    if reverse {
        !b
    } else {
        b
    }
}

/// The memcomparable encoding of an `i64`: its eight big-endian bytes with
/// the sign bit flipped, each complemented when `reverse`.
pub open spec fn i64_key_bytes(v: i64, reverse: bool) -> Seq<u8> {
    let u = (v as u64) ^ 0x8000_0000_0000_0000u64;
    Seq::new(8, |i: int| flip_byte((u >> ((56 - 8 * i) as u64)) as u8, reverse))
}

/// The memcomparable encoding of a `bool`: one byte, 1 or 0.
pub open spec fn bool_key_bytes(v: bool, reverse: bool) -> Seq<u8> {
    seq![flip_byte(if v { 1u8 } else { 0u8 }, reverse)]
}

/// Groups of nine bytes (eight of data and a marker) as the decoder reads
/// them: each marker 9 announces one more group.
pub open spec fn chunks_complete(b: Seq<u8>) -> bool
    decreases b.len(),
{
    b.len() >= 9 && (b[8] == 9 ==> chunks_complete(b.skip(9)))
}

/// Enough bytes are present for the decoder to read a whole byte string:
/// a leading 1 announces groups, any other byte ends or rejects at once.
pub open spec fn bytes_frame_complete(b: Seq<u8>) -> bool {
    b.len() >= 1 && (b[0] == 1 ==> chunks_complete(b.skip(1)))
}

/// Relies on memcomparable's `Serializer::serialize_str` (with
/// `set_reverse`): the encoding depends on the string and the flag alone,
/// and without the flag it is a complete frame (a flag byte, then groups
/// of eight bytes each closed by a marker, 9 where more follows). Byte
/// order of two encodings is the order of the strings, reversed with the
/// flag (no encoding is a prefix of another, so complementing reverses it).
#[verifier::external_body]
pub(crate) fn encode_str(s: &str, reverse: bool) -> (r: Vec<u8>)
    ensures
        r@ == memcmp_str_of(s@, reverse),
        !reverse ==> bytes_frame_complete(r@),
        forall|t: Seq<char>|
            #[trigger] lex_lt(r@, memcmp_str_of(t, reverse)) <==> (if reverse {
                str_lt(t, s@)
            } else {
                str_lt(s@, t)
            }),
{
    let mut ser = memcomparable::Serializer::new(Vec::new());
    ser.set_reverse(reverse);
    let _ = serde::Serializer::serialize_str(&mut ser, s);
    ser.into_inner()
}

/// Relies on memcomparable's `Serializer::serialize_i64` (with
/// `set_reverse`): sign bit flipped, written big-endian.
#[verifier::external_body]
pub(crate) fn encode_i64(v: i64, reverse: bool) -> (r: Vec<u8>)
    ensures
        r@ == i64_key_bytes(v, reverse),
{
    let mut ser = memcomparable::Serializer::new(Vec::new());
    ser.set_reverse(reverse);
    let _ = serde::Serializer::serialize_i64(&mut ser, v);
    ser.into_inner()
}

/// Relies on memcomparable's `Serializer::serialize_bool` (with
/// `set_reverse`): one byte.
#[verifier::external_body]
pub(crate) fn encode_bool(v: bool, reverse: bool) -> (r: Vec<u8>)
    ensures
        r@ == bool_key_bytes(v, reverse),
{
    let mut ser = memcomparable::Serializer::new(Vec::new());
    ser.set_reverse(reverse);
    let _ = serde::Serializer::serialize_bool(&mut ser, v);
    ser.into_inner()
}

/// Relies on memcomparable's `Deserializer` read into a `String`: the
/// result depends on the bytes alone, and it gives back the string whose
/// (unreversed) encoding the bytes are. It
/// reads past the end of the input, and panics, unless the frame is
/// complete, which the caller establishes.
#[verifier::external_body]
pub(crate) fn decode_str(b: &[u8]) -> (r: Option<String>)
    requires
        bytes_frame_complete(b@),
    ensures
        match r {
            Some(s) => memcmp_str_decoded(b@) == Some(s@),
            None => memcmp_str_decoded(b@) is None,
        },
        forall|s: Seq<char>| #[trigger] memcmp_str_of(s, false) == b@ ==> (r is Some && r->0@ == s),
{
    let mut de = memcomparable::Deserializer::new(b);
    <String as serde::Deserialize>::deserialize(&mut de).ok()
}

/// Tells whether the decoder can read a whole byte string from `b`.
pub fn frame_complete(b: &[u8]) -> (r: bool)
    ensures
        r == bytes_frame_complete(b@),
{
    if b.len() == 0 {
        return false;
    }
    if b[0] != 1 {
        return true;
    }
    let mut pos: usize = 1;
    while pos < b.len()
        invariant
            1 <= pos <= b@.len(),
            b@[0] == 1,
            bytes_frame_complete(b@) == chunks_complete(b@.skip(pos as int)),
        decreases b@.len() - pos,
    {
        if b.len() - pos < 9 {
            return false;
        }
        if b[pos + 8] != 9 {
            return true;
        }
        proof {
            assert(b@.skip(pos as int).skip(9) =~= b@.skip(pos + 9));
        }
        pos = pos + 9;
    }
    false
}

} // verus!
