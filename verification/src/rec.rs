//! Records: the unit stored in write-ahead-log entries and segments.
//!
//! A record stamps a key with a sequence number and one of three kinds:
//! a point write carrying a value, a point tombstone, or a subtree
//! tombstone covering everything strictly under a `/`-terminated prefix.

use vstd::prelude::*;

verus! {

/// Record kind: point write of a value.
pub const RT_SET: u8 = 1;

/// Record kind: tombstone for one exact key.
pub const RT_DEL_POINT: u8 = 2;

/// Record kind: tombstone for all keys strictly under a prefix.
pub const RT_DEL_SUB: u8 = 3;

/// The path separator byte `/`.
pub const SLASH: u8 = 47;

/// Mathematical image of a record.
#[verifier::ext_equal]
pub struct RecV {
    pub kind: u8,
    pub key: Seq<u8>,
    pub value: Seq<u8>,
    pub seq: u64,
}

/// One stored mutation. For kinds other than [`RT_SET`] the value is empty.
pub struct Rec {
    pub kind: u8,
    pub key: Vec<u8>,
    pub value: Vec<u8>,
    pub seq: u64,
}

impl View for Rec {
    type V = RecV;

    open spec fn view(&self) -> RecV {
        RecV { kind: self.kind, key: self.key@, value: self.value@, seq: self.seq }
    }
}

/// Copy a byte string.
pub fn clone_bytes(v: &Vec<u8>) -> (r: Vec<u8>)
    ensures
        r@ == v@,
{
    let r = v.clone();
    proof {
        assert(r@ =~= v@);
    }
    r
}

/// Copy a byte string out of a slice.
pub fn slice_to_bytes(v: &[u8]) -> (r: Vec<u8>)
    ensures
        r@ == v@,
{
    let mut r: Vec<u8> = Vec::new();
    r.extend_from_slice(v);
    proof {
        assert(r@ =~= v@);
    }
    r
}

impl Rec {
    /// Copy a record.
    pub fn duplicate(&self) -> (r: Rec)
        ensures
            r@ == self@,
    {
        Rec {
            kind: self.kind,
            key: clone_bytes(&self.key),
            value: clone_bytes(&self.value),
            seq: self.seq,
        }
    }
}

} // verus!
