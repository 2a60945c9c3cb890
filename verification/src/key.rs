//! Keys: what a caller asks the engine to compute, and the compact identifiers
//! that the engine addresses its nodes by.

use vstd::prelude::*;

verus! {

/// The mathematical content of a key: the family of computations it belongs to,
/// and the bytes that tell it apart inside that family.
pub struct KeyView {
    pub family: nat,
    pub payload: Seq<u8>,
}

/// A caller-chosen identity of one computation. Two keys are the same key exactly
/// when their views are equal.
#[derive(Debug, PartialEq, Eq)]
pub struct Key {
    family: u64,
    payload: Vec<u8>,
}

impl View for Key {
    type V = KeyView;

    closed spec fn view(&self) -> KeyView {
        KeyView { family: self.family as nat, payload: self.payload@ }
    }
}

/// Whether two byte strings agree on their first `n` bytes.
pub open spec fn agree_upto(a: Seq<u8>, b: Seq<u8>, n: int) -> bool {
    forall|i: int| 0 <= i < n ==> a[i] == b[i]
}

impl Key {
    /// A key of the given family with the given payload.
    pub fn new(family: u64, payload: Vec<u8>) -> (k: Key)
        ensures
            k@ == (KeyView { family: family as nat, payload: payload@ }),
    {
        Key { family, payload }
    }

    /// The family of computations the key belongs to.
    pub fn family(&self) -> (f: u64)
        ensures
            f as nat == self@.family,
    {
        self.family
    }

    /// The bytes that tell the key apart inside its family.
    pub fn payload(&self) -> (p: &Vec<u8>)
        ensures
            p@ == self@.payload,
    {
        &self.payload
    }

    /// Value equality of keys.
    pub fn same_as(&self, other: &Key) -> (b: bool)
        ensures
            b == (self@ == other@),
    {
        if self.family != other.family {
            return false;
        }
        if self.payload.len() != other.payload.len() {
            return false;
        }
        let n: usize = self.payload.len();
        let mut i: usize = 0;
        while i < n
            invariant
                i <= n,
                n == self.payload@.len(),
                n == other.payload@.len(),
                agree_upto(self.payload@, other.payload@, i as int),
            decreases n - i,
        {
            if self.payload[i] != other.payload[i] {
                return false;
            }
            i = i + 1;
        }
        assert(self.payload@ =~= other.payload@);
        true
    }

    /// An independent copy of the key.
    pub fn duplicate(&self) -> (k: Key)
        ensures
            k@ == self@,
    {
        let n: usize = self.payload.len();
        let mut bytes: Vec<u8> = Vec::new();
        let mut i: usize = 0;
        while i < n
            invariant
                i <= n,
                n == self.payload@.len(),
                bytes@ == self.payload@.take(i as int),
            decreases n - i,
        {
            bytes.push(self.payload[i]);
            assert(bytes@ =~= self.payload@.take(i as int + 1));
            i = i + 1;
        }
        assert(bytes@ =~= self.payload@);
        Key { family: self.family, payload: bytes }
    }
}

/// The identifier the engine gave a key: the position at which the key was first seen.
#[derive(Clone, Copy, Debug, PartialEq, Eq, Structural, Hash)]
pub struct KeyId(pub u32);

impl View for KeyId {
    type V = nat;

    open spec fn view(&self) -> nat {
        self.0 as nat
    }
}

impl KeyId {
    /// The identifier as an index into the engine's tables.
    pub fn index(&self) -> (i: usize)
        ensures
            i as nat == self@,
    {
        self.0 as usize
    }
}

} // verus!
