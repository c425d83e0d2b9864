//! The calls into `bincode`, each with the bytes that its fixed-width,
//! little-endian encoding is trusted to write or to read.
use vstd::bytes::*;
use vstd::prelude::*;
use vstd::utf8::*;

verus! {

/// `bincode::serialize` on a `u8`: the byte itself.
#[verifier::external_body]
pub(crate) fn serialize_u8(value: u8) -> (bytes: Vec<u8>)
    ensures
        bytes@ == seq![value],
{
    bincode::serialize(&value).unwrap_or_default()
}

/// `bincode::deserialize` to a `u8`: the first byte; an error on empty input.
#[verifier::external_body]
pub(crate) fn deserialize_u8(bytes: &[u8]) -> (r: Option<u8>)
    ensures
        bytes@.len() < 1 ==> r is None,
        bytes@.len() >= 1 ==> r == Some(bytes@[0]),
{
    bincode::deserialize(bytes).ok()
}

/// `bincode::serialize` on an `i8`: one byte, the value in two's complement.
#[verifier::external_body]
pub(crate) fn serialize_i8(value: i8) -> (bytes: Vec<u8>)
    ensures
        bytes@ == seq![value as u8],
{
    bincode::serialize(&value).unwrap_or_default()
}

/// `bincode::deserialize` to an `i8`: the first byte read as two's complement;
/// an error on empty input.
#[verifier::external_body]
pub(crate) fn deserialize_i8(bytes: &[u8]) -> (r: Option<i8>)
    ensures
        bytes@.len() < 1 ==> r is None,
        bytes@.len() >= 1 ==> r == Some(bytes@[0] as i8),
{
    bincode::deserialize(bytes).ok()
}

/// `bincode::serialize` on a `u16`: its two bytes, least significant first.
#[verifier::external_body]
pub(crate) fn serialize_u16(value: u16) -> (bytes: Vec<u8>)
    ensures
        bytes@ == spec_u16_to_le_bytes(value),
{
    bincode::serialize(&value).unwrap_or_default()
}

/// `bincode::deserialize` to a `u16`: the first two bytes, least significant
/// first; bytes after them are ignored; an error where fewer are given.
#[verifier::external_body]
pub(crate) fn deserialize_u16(bytes: &[u8]) -> (r: Option<u16>)
    ensures
        bytes@.len() < 2 ==> r is None,
        bytes@.len() >= 2 ==> r == Some(spec_u16_from_le_bytes(bytes@.subrange(0, 2))),
{
    bincode::deserialize(bytes).ok()
}

/// `bincode::serialize` on a `u32`: its four bytes, least significant first.
#[verifier::external_body]
pub(crate) fn serialize_u32(value: u32) -> (bytes: Vec<u8>)
    ensures
        bytes@ == spec_u32_to_le_bytes(value),
{
    bincode::serialize(&value).unwrap_or_default()
}

/// `bincode::deserialize` to a `u32`: the first four bytes, least significant
/// first; bytes after them are ignored; an error where fewer are given.
#[verifier::external_body]
pub(crate) fn deserialize_u32(bytes: &[u8]) -> (r: Option<u32>)
    ensures
        bytes@.len() < 4 ==> r is None,
        bytes@.len() >= 4 ==> r == Some(spec_u32_from_le_bytes(bytes@.subrange(0, 4))),
{
    bincode::deserialize(bytes).ok()
}

/// `bincode::serialize` on a `u64`: its eight bytes, least significant first.
#[verifier::external_body]
pub(crate) fn serialize_u64(value: u64) -> (bytes: Vec<u8>)
    ensures
        bytes@ == spec_u64_to_le_bytes(value),
{
    bincode::serialize(&value).unwrap_or_default()
}

/// `bincode::deserialize` to a `u64`: the first eight bytes, least significant
/// first; bytes after them are ignored; an error where fewer are given.
#[verifier::external_body]
pub(crate) fn deserialize_u64(bytes: &[u8]) -> (r: Option<u64>)
    ensures
        bytes@.len() < 8 ==> r is None,
        bytes@.len() >= 8 ==> r == Some(spec_u64_from_le_bytes(bytes@.subrange(0, 8))),
{
    bincode::deserialize(bytes).ok()
}

/// `bincode::serialize` on a `u128`: its sixteen bytes, least significant first.
#[verifier::external_body]
pub(crate) fn serialize_u128(value: u128) -> (bytes: Vec<u8>)
    ensures
        bytes@ == spec_u128_to_le_bytes(value),
{
    bincode::serialize(&value).unwrap_or_default()
}

/// `bincode::deserialize` to a `u128`: the first sixteen bytes, least significant
/// first; bytes after them are ignored; an error where fewer are given.
#[verifier::external_body]
pub(crate) fn deserialize_u128(bytes: &[u8]) -> (r: Option<u128>)
    ensures
        bytes@.len() < 16 ==> r is None,
        bytes@.len() >= 16 ==> r == Some(spec_u128_from_le_bytes(bytes@.subrange(0, 16))),
{
    bincode::deserialize(bytes).ok()
}

/// `bincode::serialize` on an `i16`: the two bytes of its two's complement,
/// least significant first.
#[verifier::external_body]
pub(crate) fn serialize_i16(value: i16) -> (bytes: Vec<u8>)
    ensures
        bytes@ == spec_u16_to_le_bytes(value as u16),
{
    bincode::serialize(&value).unwrap_or_default()
}

/// `bincode::deserialize` to an `i16`: the first two bytes, least significant
/// first, read as two's complement; an error where fewer are given.
#[verifier::external_body]
pub(crate) fn deserialize_i16(bytes: &[u8]) -> (r: Option<i16>)
    ensures
        bytes@.len() < 2 ==> r is None,
        bytes@.len() >= 2 ==> r == Some(spec_u16_from_le_bytes(bytes@.subrange(0, 2)) as i16),
{
    bincode::deserialize(bytes).ok()
}

/// `bincode::serialize` on an `i32`: the four bytes of its two's complement,
/// least significant first.
#[verifier::external_body]
pub(crate) fn serialize_i32(value: i32) -> (bytes: Vec<u8>)
    ensures
        bytes@ == spec_u32_to_le_bytes(value as u32),
{
    bincode::serialize(&value).unwrap_or_default()
}

/// `bincode::deserialize` to an `i32`: the first four bytes, least significant
/// first, read as two's complement; an error where fewer are given.
#[verifier::external_body]
pub(crate) fn deserialize_i32(bytes: &[u8]) -> (r: Option<i32>)
    ensures
        bytes@.len() < 4 ==> r is None,
        bytes@.len() >= 4 ==> r == Some(spec_u32_from_le_bytes(bytes@.subrange(0, 4)) as i32),
{
    bincode::deserialize(bytes).ok()
}

/// `bincode::serialize` on an `i64`: the eight bytes of its two's complement,
/// least significant first.
#[verifier::external_body]
pub(crate) fn serialize_i64(value: i64) -> (bytes: Vec<u8>)
    ensures
        bytes@ == spec_u64_to_le_bytes(value as u64),
{
    bincode::serialize(&value).unwrap_or_default()
}

/// `bincode::deserialize` to an `i64`: the first eight bytes, least significant
/// first, read as two's complement; an error where fewer are given.
#[verifier::external_body]
pub(crate) fn deserialize_i64(bytes: &[u8]) -> (r: Option<i64>)
    ensures
        bytes@.len() < 8 ==> r is None,
        bytes@.len() >= 8 ==> r == Some(spec_u64_from_le_bytes(bytes@.subrange(0, 8)) as i64),
{
    bincode::deserialize(bytes).ok()
}

/// `bincode::serialize` on an `i128`: the sixteen bytes of its two's complement,
/// least significant first.
#[verifier::external_body]
pub(crate) fn serialize_i128(value: i128) -> (bytes: Vec<u8>)
    ensures
        bytes@ == spec_u128_to_le_bytes(value as u128),
{
    bincode::serialize(&value).unwrap_or_default()
}

/// `bincode::deserialize` to an `i128`: the first sixteen bytes, least significant
/// first, read as two's complement; an error where fewer are given.
#[verifier::external_body]
pub(crate) fn deserialize_i128(bytes: &[u8]) -> (r: Option<i128>)
    ensures
        bytes@.len() < 16 ==> r is None,
        bytes@.len() >= 16 ==> r == Some(spec_u128_from_le_bytes(bytes@.subrange(0, 16)) as i128),
{
    bincode::deserialize(bytes).ok()
}

/// The serialized form of a string: the length of its UTF-8 encoding as a
/// 64-bit little-endian number, then the encoding.
pub open spec fn text_wire(s: Seq<char>) -> Seq<u8> {
    spec_u64_to_le_bytes(encode_utf8(s).len() as u64) + encode_utf8(s)
}

/// The length that the first eight bytes of a serialized string announce.
pub open spec fn text_len(bytes: Seq<u8>) -> int {
    spec_u64_from_le_bytes(bytes.subrange(0, 8)) as int
}

/// Whether `bytes` starts with a complete serialized string.
pub open spec fn text_readable(bytes: Seq<u8>) -> bool {
    &&& bytes.len() >= 8
    &&& 8 + text_len(bytes) <= bytes.len()
    &&& valid_utf8(bytes.subrange(8, 8 + text_len(bytes)))
}

/// `bincode::serialize` on a `String`: the length prefix and the UTF-8 bytes.
#[verifier::external_body]
pub(crate) fn serialize_string(value: &String) -> (bytes: Vec<u8>)
    ensures
        bytes@ == text_wire(value@),
{
    bincode::serialize(value).unwrap_or_default()
}

/// `bincode::deserialize` to a `String`: reads the length prefix and that many
/// bytes, which must be valid UTF-8; bytes after them are ignored.
#[verifier::external_body]
pub(crate) fn deserialize_string(bytes: &[u8]) -> (r: Option<String>)
    ensures
        r is Some <==> text_readable(bytes@),
        r matches Some(s) ==> s@ == decode_utf8(bytes@.subrange(8, 8 + text_len(bytes@))),
{
    bincode::deserialize(bytes).ok()
}

} // verus!
