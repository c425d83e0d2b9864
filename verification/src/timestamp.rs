//! A point in time as a key or a value of a table: the seconds since the
//! Unix epoch, stored as a signed number eight bytes wide.
use crate::fixed::{Key, KnowsSize, Stored};
use vstd::prelude::*;

verus! {

/// A point in time, held as its Unix timestamp in seconds.
pub struct Timestamp {
    pub seconds: i64,
}

impl View for Timestamp {
    type V = i64;

    open spec fn view(&self) -> i64 {
        self.seconds
    }
}

impl Timestamp {
    /// The point in time that lies `seconds` after the Unix epoch.
    pub fn new(seconds: i64) -> (t: Self)
        ensures
            t@ == seconds,
    {
        Timestamp { seconds }
    }

    /// The seconds since the Unix epoch.
    pub fn timestamp(&self) -> (seconds: i64)
        ensures
            seconds == self@,
    {
        self.seconds
    }
}

impl KnowsSize for Timestamp {
    open spec fn width() -> int {
        8
    }

    fn bit_width() -> (w: i16) {
        8
    }
}

impl Stored for Timestamp {
    /// A point in time is stored as its seconds are.
    open spec fn wire(v: i64) -> Seq<u8> {
        <i64 as Stored>::wire(v)
    }

    proof fn lemma_wire_injective(a: i64, b: i64) {
        <i64 as Stored>::lemma_wire_injective(a, b);
    }

    proof fn lemma_width(v: i64) {
        <i64 as Stored>::lemma_width(v);
    }

    fn serialize(&self) -> (bytes: Vec<u8>) {
        self.seconds.serialize()
    }

    fn deserialize(bytes: &[u8]) -> (r: Option<Timestamp>) {
        match <i64 as Stored>::deserialize(bytes) {
            Some(seconds) => Some(Timestamp { seconds }),
            None => None,
        }
    }

    fn duplicate(&self) -> (r: Timestamp) {
        Timestamp { seconds: self.seconds }
    }
}

impl Key for Timestamp {
    /// The earlier point in time sorts first.
    open spec fn before(a: i64, b: i64) -> bool {
        a < b
    }

    proof fn lemma_irreflexive(a: i64) {
    }

    proof fn lemma_transitive(a: i64, b: i64, c: i64) {
    }

    proof fn lemma_total(a: i64, b: i64) {
    }

    fn precedes(&self, other: &Timestamp) -> (r: bool) {
        self.seconds < other.seconds
    }
}

} // verus!
