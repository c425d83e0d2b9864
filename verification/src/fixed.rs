//! What a type needs to be a key or a value of a table: a known width, a
//! serialized form, and for keys an order.
use crate::lex::{
    bytes_before, lemma_lex_irreflexive, lemma_lex_total, lemma_lex_transitive, lex_before,
};
use crate::wire::{
    deserialize_i128, deserialize_i16, deserialize_i32, deserialize_i64, deserialize_i8, deserialize_string, deserialize_u128, deserialize_u16, deserialize_u32, deserialize_u64, deserialize_u8, serialize_i128, serialize_i16, serialize_i32, serialize_i64, serialize_i8, serialize_string, serialize_u128, serialize_u16, serialize_u32, serialize_u64, serialize_u8, text_len, text_readable, text_wire,
};
use vstd::bytes::*;
use vstd::prelude::*;
use vstd::utf8::*;

verus! {

/// A type that knows how many bytes its serialized values take.
pub trait KnowsSize {
    /// The common length of every serialized value, or -1 where lengths vary.
    spec fn width() -> int;

    /// The width as a number: positive for a fixed-width type, -1 otherwise.
    fn bit_width() -> (w: i16)
        ensures
            w == Self::width(),
    ;
}

/// A type whose values can be written into a page and read back.
pub trait Stored: KnowsSize + View + Sized {
    /// The serialized form of a value.
    spec fn wire(v: Self::V) -> Seq<u8>;

    /// Different values never share a serialized form.
    proof fn lemma_wire_injective(a: Self::V, b: Self::V)
        requires
            Self::wire(a) == Self::wire(b),
        ensures
            a == b,
    ;

    /// The width is -1 or a positive 16-bit number, and a positive width is
    /// the length of every serialized value.
    proof fn lemma_width(v: Self::V)
        ensures
            Self::width() == -1 || 0 < Self::width() <= i16::MAX,
            Self::width() > 0 ==> Self::wire(v).len() == Self::width(),
    ;

    /// Writes the value in its serialized form.
    fn serialize(&self) -> (bytes: Vec<u8>)
        ensures
            bytes@ == Self::wire(self@),
    ;

    /// Reads a value from exactly its serialized form: `None` where `bytes`
    /// is the serialized form of no value.
    fn deserialize(bytes: &[u8]) -> (r: Option<Self>)
        ensures
            match r {
                Some(x) => Self::wire(x@) == bytes@,
                None => forall|v: Self::V| Self::wire(v) != bytes@,
            },
    ;

    /// A copy of the value.
    fn duplicate(&self) -> (r: Self)
        ensures
            r@ == self@,
    ;
}

/// A stored type with a strict total order, by which tables sort their keys.
pub trait Key: Stored {
    /// `a` sorts strictly before `b`.
    spec fn before(a: Self::V, b: Self::V) -> bool;

    proof fn lemma_irreflexive(a: Self::V)
        ensures
            !Self::before(a, a),
    ;

    proof fn lemma_transitive(a: Self::V, b: Self::V, c: Self::V)
        requires
            Self::before(a, b),
            Self::before(b, c),
        ensures
            Self::before(a, c),
    ;

    proof fn lemma_total(a: Self::V, b: Self::V)
        ensures
            Self::before(a, b) || a == b || Self::before(b, a),
    ;

    /// Whether `self` sorts strictly before `other`.
    fn precedes(&self, other: &Self) -> (r: bool)
        ensures
            r == Self::before(self@, other@),
    ;
}

/// The view of an optional value: the view of what it holds.
pub open spec fn opt_view<V: View>(v: Option<V>) -> Option<V::V> {
    match v {
        Some(x) => Some(x@),
        None => None,
    }
}

/// A copy of an optional value.
pub fn duplicate_opt<V: Stored>(v: &Option<V>) -> (r: Option<V>)
    ensures
        opt_view(r) == opt_view(*v),
{
    match v {
        Some(x) => Some(x.duplicate()),
        None => None,
    }
}

impl KnowsSize for u8 {
    open spec fn width() -> int {
        1
    }

    fn bit_width() -> (w: i16) {
        1
    }
}

impl Stored for u8 {
    open spec fn wire(v: u8) -> Seq<u8> {
        seq![v]
    }

    proof fn lemma_wire_injective(a: u8, b: u8) {
        assert(seq![a][0] == seq![b][0]);
    }

    proof fn lemma_width(v: u8) {
    }

    fn serialize(&self) -> (bytes: Vec<u8>) {
        serialize_u8(*self)
    }

    fn deserialize(bytes: &[u8]) -> (r: Option<u8>) {
        if bytes.len() != 1 {
            return None;
        }
        let r = deserialize_u8(bytes);
        assert(seq![bytes@[0]] =~= bytes@);
        r
    }

    fn duplicate(&self) -> (r: u8) {
        *self
    }
}

impl Key for u8 {
    open spec fn before(a: u8, b: u8) -> bool {
        a < b
    }

    proof fn lemma_irreflexive(a: u8) {
    }

    proof fn lemma_transitive(a: u8, b: u8, c: u8) {
    }

    proof fn lemma_total(a: u8, b: u8) {
    }

    fn precedes(&self, other: &u8) -> (r: bool) {
        *self < *other
    }
}

impl KnowsSize for i8 {
    open spec fn width() -> int {
        1
    }

    fn bit_width() -> (w: i16) {
        1
    }
}

impl Stored for i8 {
    open spec fn wire(v: i8) -> Seq<u8> {
        seq![v as u8]
    }

    proof fn lemma_wire_injective(a: i8, b: i8) {
        assert(seq![a as u8][0] == seq![b as u8][0]);
        assert(a as u8 == b as u8 ==> a == b) by (bit_vector);
    }

    proof fn lemma_width(v: i8) {
    }

    fn serialize(&self) -> (bytes: Vec<u8>) {
        serialize_i8(*self)
    }

    fn deserialize(bytes: &[u8]) -> (r: Option<i8>) {
        if bytes.len() != 1 {
            return None;
        }
        let r = deserialize_i8(bytes);
        proof {
            let b = bytes@[0];
            assert((b as i8) as u8 == b) by (bit_vector);
            assert(seq![b] =~= bytes@);
        }
        r
    }

    fn duplicate(&self) -> (r: i8) {
        *self
    }
}

impl Key for i8 {
    open spec fn before(a: i8, b: i8) -> bool {
        a < b
    }

    proof fn lemma_irreflexive(a: i8) {
    }

    proof fn lemma_transitive(a: i8, b: i8, c: i8) {
    }

    proof fn lemma_total(a: i8, b: i8) {
    }

    fn precedes(&self, other: &i8) -> (r: bool) {
        *self < *other
    }
}

impl KnowsSize for u16 {
    open spec fn width() -> int {
        2
    }

    fn bit_width() -> (w: i16) {
        2
    }
}

impl Stored for u16 {
    open spec fn wire(v: u16) -> Seq<u8> {
        spec_u16_to_le_bytes(v)
    }

    proof fn lemma_wire_injective(a: u16, b: u16) {
        lemma_auto_spec_u16_to_from_le_bytes();
        assert(spec_u16_to_le_bytes(a).len() == spec_u16_to_le_bytes(b).len());
    }

    proof fn lemma_width(v: u16) {
        lemma_auto_spec_u16_to_from_le_bytes();
    }

    fn serialize(&self) -> (bytes: Vec<u8>) {
        serialize_u16(*self)
    }

    fn deserialize(bytes: &[u8]) -> (r: Option<u16>) {
        proof {
            lemma_auto_spec_u16_to_from_le_bytes();
        }
        if bytes.len() != 2 {
            return None;
        }
        assert(bytes@.subrange(0, 2) == bytes@);
        deserialize_u16(bytes)
    }

    fn duplicate(&self) -> (r: u16) {
        *self
    }
}

impl Key for u16 {
    open spec fn before(a: u16, b: u16) -> bool {
        a < b
    }

    proof fn lemma_irreflexive(a: u16) {
    }

    proof fn lemma_transitive(a: u16, b: u16, c: u16) {
    }

    proof fn lemma_total(a: u16, b: u16) {
    }

    fn precedes(&self, other: &u16) -> (r: bool) {
        *self < *other
    }
}

impl KnowsSize for u32 {
    open spec fn width() -> int {
        4
    }

    fn bit_width() -> (w: i16) {
        4
    }
}

impl Stored for u32 {
    open spec fn wire(v: u32) -> Seq<u8> {
        spec_u32_to_le_bytes(v)
    }

    proof fn lemma_wire_injective(a: u32, b: u32) {
        lemma_auto_spec_u32_to_from_le_bytes();
        assert(spec_u32_to_le_bytes(a).len() == spec_u32_to_le_bytes(b).len());
    }

    proof fn lemma_width(v: u32) {
        lemma_auto_spec_u32_to_from_le_bytes();
    }

    fn serialize(&self) -> (bytes: Vec<u8>) {
        serialize_u32(*self)
    }

    fn deserialize(bytes: &[u8]) -> (r: Option<u32>) {
        proof {
            lemma_auto_spec_u32_to_from_le_bytes();
        }
        if bytes.len() != 4 {
            return None;
        }
        assert(bytes@.subrange(0, 4) == bytes@);
        deserialize_u32(bytes)
    }

    fn duplicate(&self) -> (r: u32) {
        *self
    }
}

impl Key for u32 {
    open spec fn before(a: u32, b: u32) -> bool {
        a < b
    }

    proof fn lemma_irreflexive(a: u32) {
    }

    proof fn lemma_transitive(a: u32, b: u32, c: u32) {
    }

    proof fn lemma_total(a: u32, b: u32) {
    }

    fn precedes(&self, other: &u32) -> (r: bool) {
        *self < *other
    }
}

impl KnowsSize for u64 {
    open spec fn width() -> int {
        8
    }

    fn bit_width() -> (w: i16) {
        8
    }
}

impl Stored for u64 {
    open spec fn wire(v: u64) -> Seq<u8> {
        spec_u64_to_le_bytes(v)
    }

    proof fn lemma_wire_injective(a: u64, b: u64) {
        lemma_auto_spec_u64_to_from_le_bytes();
        assert(spec_u64_to_le_bytes(a).len() == spec_u64_to_le_bytes(b).len());
    }

    proof fn lemma_width(v: u64) {
        lemma_auto_spec_u64_to_from_le_bytes();
    }

    fn serialize(&self) -> (bytes: Vec<u8>) {
        serialize_u64(*self)
    }

    fn deserialize(bytes: &[u8]) -> (r: Option<u64>) {
        proof {
            lemma_auto_spec_u64_to_from_le_bytes();
        }
        if bytes.len() != 8 {
            return None;
        }
        assert(bytes@.subrange(0, 8) == bytes@);
        deserialize_u64(bytes)
    }

    fn duplicate(&self) -> (r: u64) {
        *self
    }
}

impl Key for u64 {
    open spec fn before(a: u64, b: u64) -> bool {
        a < b
    }

    proof fn lemma_irreflexive(a: u64) {
    }

    proof fn lemma_transitive(a: u64, b: u64, c: u64) {
    }

    proof fn lemma_total(a: u64, b: u64) {
    }

    fn precedes(&self, other: &u64) -> (r: bool) {
        *self < *other
    }
}

impl KnowsSize for u128 {
    open spec fn width() -> int {
        16
    }

    fn bit_width() -> (w: i16) {
        16
    }
}

impl Stored for u128 {
    open spec fn wire(v: u128) -> Seq<u8> {
        spec_u128_to_le_bytes(v)
    }

    proof fn lemma_wire_injective(a: u128, b: u128) {
        lemma_auto_spec_u128_to_from_le_bytes();
        assert(spec_u128_to_le_bytes(a).len() == spec_u128_to_le_bytes(b).len());
    }

    proof fn lemma_width(v: u128) {
        lemma_auto_spec_u128_to_from_le_bytes();
    }

    fn serialize(&self) -> (bytes: Vec<u8>) {
        serialize_u128(*self)
    }

    fn deserialize(bytes: &[u8]) -> (r: Option<u128>) {
        proof {
            lemma_auto_spec_u128_to_from_le_bytes();
        }
        if bytes.len() != 16 {
            return None;
        }
        assert(bytes@.subrange(0, 16) == bytes@);
        deserialize_u128(bytes)
    }

    fn duplicate(&self) -> (r: u128) {
        *self
    }
}

impl Key for u128 {
    open spec fn before(a: u128, b: u128) -> bool {
        a < b
    }

    proof fn lemma_irreflexive(a: u128) {
    }

    proof fn lemma_transitive(a: u128, b: u128, c: u128) {
    }

    proof fn lemma_total(a: u128, b: u128) {
    }

    fn precedes(&self, other: &u128) -> (r: bool) {
        *self < *other
    }
}

impl KnowsSize for i16 {
    open spec fn width() -> int {
        2
    }

    fn bit_width() -> (w: i16) {
        2
    }
}

impl Stored for i16 {
    open spec fn wire(v: i16) -> Seq<u8> {
        spec_u16_to_le_bytes(v as u16)
    }

    proof fn lemma_wire_injective(a: i16, b: i16) {
        lemma_auto_spec_u16_to_from_le_bytes();
        assert(spec_u16_to_le_bytes(a as u16).len() == spec_u16_to_le_bytes(b as u16).len());
        assert(a as u16 == b as u16 ==> a == b) by (bit_vector);
    }

    proof fn lemma_width(v: i16) {
        lemma_auto_spec_u16_to_from_le_bytes();
    }

    fn serialize(&self) -> (bytes: Vec<u8>) {
        serialize_i16(*self)
    }

    fn deserialize(bytes: &[u8]) -> (r: Option<i16>) {
        proof {
            lemma_auto_spec_u16_to_from_le_bytes();
        }
        if bytes.len() != 2 {
            return None;
        }
        assert(bytes@.subrange(0, 2) == bytes@);
        let r = deserialize_i16(bytes);
        proof {
            let raw = spec_u16_from_le_bytes(bytes@);
            assert((raw as i16) as u16 == raw) by (bit_vector);
        }
        r
    }

    fn duplicate(&self) -> (r: i16) {
        *self
    }
}

impl Key for i16 {
    open spec fn before(a: i16, b: i16) -> bool {
        a < b
    }

    proof fn lemma_irreflexive(a: i16) {
    }

    proof fn lemma_transitive(a: i16, b: i16, c: i16) {
    }

    proof fn lemma_total(a: i16, b: i16) {
    }

    fn precedes(&self, other: &i16) -> (r: bool) {
        *self < *other
    }
}

impl KnowsSize for i32 {
    open spec fn width() -> int {
        4
    }

    fn bit_width() -> (w: i16) {
        4
    }
}

impl Stored for i32 {
    open spec fn wire(v: i32) -> Seq<u8> {
        spec_u32_to_le_bytes(v as u32)
    }

    proof fn lemma_wire_injective(a: i32, b: i32) {
        lemma_auto_spec_u32_to_from_le_bytes();
        assert(spec_u32_to_le_bytes(a as u32).len() == spec_u32_to_le_bytes(b as u32).len());
        assert(a as u32 == b as u32 ==> a == b) by (bit_vector);
    }

    proof fn lemma_width(v: i32) {
        lemma_auto_spec_u32_to_from_le_bytes();
    }

    fn serialize(&self) -> (bytes: Vec<u8>) {
        serialize_i32(*self)
    }

    fn deserialize(bytes: &[u8]) -> (r: Option<i32>) {
        proof {
            lemma_auto_spec_u32_to_from_le_bytes();
        }
        if bytes.len() != 4 {
            return None;
        }
        assert(bytes@.subrange(0, 4) == bytes@);
        let r = deserialize_i32(bytes);
        proof {
            let raw = spec_u32_from_le_bytes(bytes@);
            assert((raw as i32) as u32 == raw) by (bit_vector);
        }
        r
    }

    fn duplicate(&self) -> (r: i32) {
        *self
    }
}

impl Key for i32 {
    open spec fn before(a: i32, b: i32) -> bool {
        a < b
    }

    proof fn lemma_irreflexive(a: i32) {
    }

    proof fn lemma_transitive(a: i32, b: i32, c: i32) {
    }

    proof fn lemma_total(a: i32, b: i32) {
    }

    fn precedes(&self, other: &i32) -> (r: bool) {
        *self < *other
    }
}

impl KnowsSize for i64 {
    open spec fn width() -> int {
        8
    }

    fn bit_width() -> (w: i16) {
        8
    }
}

impl Stored for i64 {
    open spec fn wire(v: i64) -> Seq<u8> {
        spec_u64_to_le_bytes(v as u64)
    }

    proof fn lemma_wire_injective(a: i64, b: i64) {
        lemma_auto_spec_u64_to_from_le_bytes();
        assert(spec_u64_to_le_bytes(a as u64).len() == spec_u64_to_le_bytes(b as u64).len());
        assert(a as u64 == b as u64 ==> a == b) by (bit_vector);
    }

    proof fn lemma_width(v: i64) {
        lemma_auto_spec_u64_to_from_le_bytes();
    }

    fn serialize(&self) -> (bytes: Vec<u8>) {
        serialize_i64(*self)
    }

    fn deserialize(bytes: &[u8]) -> (r: Option<i64>) {
        proof {
            lemma_auto_spec_u64_to_from_le_bytes();
        }
        if bytes.len() != 8 {
            return None;
        }
        assert(bytes@.subrange(0, 8) == bytes@);
        let r = deserialize_i64(bytes);
        proof {
            let raw = spec_u64_from_le_bytes(bytes@);
            assert((raw as i64) as u64 == raw) by (bit_vector);
        }
        r
    }

    fn duplicate(&self) -> (r: i64) {
        *self
    }
}

impl Key for i64 {
    open spec fn before(a: i64, b: i64) -> bool {
        a < b
    }

    proof fn lemma_irreflexive(a: i64) {
    }

    proof fn lemma_transitive(a: i64, b: i64, c: i64) {
    }

    proof fn lemma_total(a: i64, b: i64) {
    }

    fn precedes(&self, other: &i64) -> (r: bool) {
        *self < *other
    }
}

impl KnowsSize for i128 {
    open spec fn width() -> int {
        16
    }

    fn bit_width() -> (w: i16) {
        16
    }
}

impl Stored for i128 {
    open spec fn wire(v: i128) -> Seq<u8> {
        spec_u128_to_le_bytes(v as u128)
    }

    proof fn lemma_wire_injective(a: i128, b: i128) {
        lemma_auto_spec_u128_to_from_le_bytes();
        assert(spec_u128_to_le_bytes(a as u128).len() == spec_u128_to_le_bytes(b as u128).len());
        assert(a as u128 == b as u128 ==> a == b) by (bit_vector);
    }

    proof fn lemma_width(v: i128) {
        lemma_auto_spec_u128_to_from_le_bytes();
    }

    fn serialize(&self) -> (bytes: Vec<u8>) {
        serialize_i128(*self)
    }

    fn deserialize(bytes: &[u8]) -> (r: Option<i128>) {
        proof {
            lemma_auto_spec_u128_to_from_le_bytes();
        }
        if bytes.len() != 16 {
            return None;
        }
        assert(bytes@.subrange(0, 16) == bytes@);
        let r = deserialize_i128(bytes);
        proof {
            let raw = spec_u128_from_le_bytes(bytes@);
            assert((raw as i128) as u128 == raw) by (bit_vector);
        }
        r
    }

    fn duplicate(&self) -> (r: i128) {
        *self
    }
}

impl Key for i128 {
    open spec fn before(a: i128, b: i128) -> bool {
        a < b
    }

    proof fn lemma_irreflexive(a: i128) {
    }

    proof fn lemma_transitive(a: i128, b: i128, c: i128) {
    }

    proof fn lemma_total(a: i128, b: i128) {
    }

    fn precedes(&self, other: &i128) -> (r: bool) {
        *self < *other
    }
}

impl KnowsSize for String {
    open spec fn width() -> int {
        -1
    }

    fn bit_width() -> (w: i16) {
        -1
    }
}

impl Stored for String {
    open spec fn wire(v: Seq<char>) -> Seq<u8> {
        text_wire(v)
    }

    proof fn lemma_wire_injective(a: Seq<char>, b: Seq<char>) {
        lemma_auto_spec_u64_to_from_le_bytes();
        let wa = text_wire(a);
        let wb = text_wire(b);
        assert(wa.subrange(8, wa.len() as int) =~= encode_utf8(a));
        assert(wb.subrange(8, wb.len() as int) =~= encode_utf8(b));
        encode_utf8_decode_utf8(a);
        encode_utf8_decode_utf8(b);
    }

    proof fn lemma_width(v: Seq<char>) {
    }

    fn serialize(&self) -> (bytes: Vec<u8>) {
        serialize_string(self)
    }

    fn deserialize(bytes: &[u8]) -> (r: Option<String>) {
        let total = bytes.len();
        proof {
            lemma_auto_spec_u64_to_from_le_bytes();
            assert forall|v: Seq<char>| text_wire(v) == bytes@ implies text_readable(bytes@)
                && 8 + text_len(bytes@) == bytes@.len() by {
                let body = encode_utf8(v);
                let prefix = spec_u64_to_le_bytes(body.len() as u64);
                assert(prefix.len() == 8);
                assert(bytes@.len() == total);
                encode_utf8_valid_utf8(v);
                assert(bytes@.subrange(0, 8) =~= prefix);
                assert(bytes@.subrange(8, 8 + body.len() as int) =~= body);
            }
        }
        match deserialize_string(bytes) {
            None => None,
            Some(s) => {
                proof {
                    decode_utf8_encode_utf8(bytes@.subrange(8, 8 + text_len(bytes@)));
                }
                if s.as_str().len() != total - 8 {
                    return None;
                }
                proof {
                    let body = bytes@.subrange(8, 8 + text_len(bytes@));
                    assert(spec_u64_to_le_bytes(spec_u64_from_le_bytes(bytes@.subrange(0, 8)))
                        == bytes@.subrange(0, 8));
                    assert(text_wire(s@) =~= bytes@.subrange(0, 8) + body);
                    assert(bytes@.subrange(0, 8) + body =~= bytes@);
                }
                Some(s)
            },
        }
    }

    fn duplicate(&self) -> (r: String) {
        self.clone()
    }
}

impl Key for String {
    open spec fn before(a: Seq<char>, b: Seq<char>) -> bool {
        lex_before(encode_utf8(a), encode_utf8(b))
    }

    proof fn lemma_irreflexive(a: Seq<char>) {
        lemma_lex_irreflexive(encode_utf8(a));
    }

    proof fn lemma_transitive(a: Seq<char>, b: Seq<char>, c: Seq<char>) {
        lemma_lex_transitive(encode_utf8(a), encode_utf8(b), encode_utf8(c));
    }

    proof fn lemma_total(a: Seq<char>, b: Seq<char>) {
        lemma_lex_total(encode_utf8(a), encode_utf8(b));
        encode_utf8_decode_utf8(a);
        encode_utf8_decode_utf8(b);
    }

    fn precedes(&self, other: &String) -> (r: bool) {
        bytes_before(self.as_str().as_bytes(), other.as_str().as_bytes())
    }
}

} // verus!
