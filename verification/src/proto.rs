//! Protobuf wire primitives, specified byte for byte.
//!
//! The schema-driven record encoder emits length-delimited protobuf. The
//! emitting calls go to the wire library; each call's effect on the
//! output buffer is stated exactly over the varint specification below.

use vstd::prelude::*;

verus! {

/// LEB128 encoding of an unsigned value: low seven bits first, high bit
/// marking continuation.
pub open spec fn varint_of(v: u64) -> Seq<u8>
    decreases v,
    via varint_of_dec
{
    if v < 0x80 {
        seq![v as u8]
    } else {
        seq![((v & 0x7f) | 0x80) as u8] + varint_of(v >> 7)
    }
}

#[via_fn]
proof fn varint_of_dec(v: u64) {
    assert(v >= 0x80 ==> v >> 7 < v) by (bit_vector);
}

/// A protobuf field key: the tag and the wire type in one varint.
pub open spec fn key_of(tag: u32, wire: u64) -> Seq<u8> {
    varint_of(((tag as u64) << 3) | wire)
}

/// The three wire shapes the record encoder emits.
#[derive(Clone, Copy, Debug, PartialEq, Eq, Structural)]
pub enum WireKind {
    Varint,
    SixtyFourBit,
    LengthDelimited,
}

pub open spec fn wire_val(w: WireKind) -> u64 {
    match w {
        WireKind::Varint => 0,
        WireKind::SixtyFourBit => 1,
        WireKind::LengthDelimited => 2,
    }
}

/// Relies on `prost::encoding::encode_varint`: appends the LEB128
/// encoding of the value.
#[verifier::external_body]
pub fn append_varint(buf: &mut Vec<u8>, v: u64)
    ensures
        final(buf)@ == old(buf)@ + varint_of(v),
{
    prost::encoding::encode_varint(v, buf);
}

/// Relies on `prost::encoding::encode_key`: appends the varint of
/// `(tag << 3) | wire_type`; the tag must be a legal field number.
#[verifier::external_body]
pub fn append_key(buf: &mut Vec<u8>, tag: u32, wire: WireKind)
    requires
        1 <= tag <= 0x1fff_ffff,
    ensures
        final(buf)@ == old(buf)@ + key_of(tag, wire_val(wire)),
{
    let wt = match wire {
        WireKind::Varint => prost::encoding::WireType::Varint,
        WireKind::SixtyFourBit => prost::encoding::WireType::SixtyFourBit,
        WireKind::LengthDelimited => prost::encoding::WireType::LengthDelimited,
    };
    prost::encoding::encode_key(tag, wt, buf);
}

/// Relies on `prost::encoding::int64::encode`: a key of wire type 0, then
/// the varint of the value's two's-complement bits.
#[verifier::external_body]
pub fn append_int64(buf: &mut Vec<u8>, tag: u32, v: i64)
    requires
        1 <= tag <= 0x1fff_ffff,
    ensures
        final(buf)@ == old(buf)@ + key_of(tag, 0) + varint_of(v as u64),
{
    prost::encoding::int64::encode(tag, &v, buf);
}

/// Relies on `prost::encoding::bool::encode`: a key of wire type 0, then
/// a one-byte varint 0 or 1.
#[verifier::external_body]
pub fn append_bool(buf: &mut Vec<u8>, tag: u32, v: bool)
    requires
        1 <= tag <= 0x1fff_ffff,
    ensures
        final(buf)@ == old(buf)@ + key_of(tag, 0) + varint_of(
            if v {
                1
            } else {
                0
            },
        ),
{
    prost::encoding::bool::encode(tag, &v, buf);
}

/// Relies on `prost::encoding::bytes::encode`: a key of wire type 2, the
/// varint of the length, then the bytes. Strings are emitted through the
/// same call; on the wire a string field is its UTF-8 bytes.
#[verifier::external_body]
pub fn append_len_delimited(buf: &mut Vec<u8>, tag: u32, data: &Vec<u8>)
    requires
        1 <= tag <= 0x1fff_ffff,
    ensures
        final(buf)@ == old(buf)@ + key_of(tag, 2) + varint_of(data@.len() as u64) + data@,
{
    prost::encoding::bytes::encode(tag, data, buf);
}

/// The eight bytes of a 64-bit value, least significant first — the wire
/// form of a double given its bits.
pub open spec fn le8(b: u64) -> Seq<u8> {
    seq![
        (b & 0xff) as u8,
        ((b >> 8) & 0xff) as u8,
        ((b >> 16) & 0xff) as u8,
        ((b >> 24) & 0xff) as u8,
        ((b >> 32) & 0xff) as u8,
        ((b >> 40) & 0xff) as u8,
        ((b >> 48) & 0xff) as u8,
        ((b >> 56) & 0xff) as u8,
    ]
}

/// Append the eight little-endian bytes of a 64-bit value: with the bits
/// of a double, exactly the payload its wire encoding carries.
pub fn append_le8(buf: &mut Vec<u8>, b: u64)
    ensures
        final(buf)@ == old(buf)@ + le8(b),
{
    buf.push((b & 0xff) as u8);
    buf.push(((b >> 8) & 0xff) as u8);
    buf.push(((b >> 16) & 0xff) as u8);
    buf.push(((b >> 24) & 0xff) as u8);
    buf.push(((b >> 32) & 0xff) as u8);
    buf.push(((b >> 40) & 0xff) as u8);
    buf.push(((b >> 48) & 0xff) as u8);
    buf.push(((b >> 56) & 0xff) as u8);
    proof {
        assert(buf@ =~= old(buf)@ + le8(b));
    }
}

} // verus!
