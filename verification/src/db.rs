//! Content-addressable records: a value paired with the 64-bit hash
//! of its canonical encoding, used as a cheap change-detection oracle.

use vstd::prelude::*;

use crate::codec::Codec;
use crate::codec::encode_value;

verus! {

/// The errors the store protocol itself can detect, shared by every
/// backend.
#[derive(Debug, PartialEq, Eq, Structural, Clone, Copy)]
pub enum DbTableError {
    /// The store already holds a table.
    DbExists,
    /// The store holds nothing at all.
    DbDoesNotExist,
    /// The store holds rows but no header sentinel.
    DbHeaderDoesNotExist,
}

/// The 64-bit content hash of a byte sequence, as the seahash
/// algorithm computes it.
pub uninterp spec fn seahash_of(bytes: Seq<u8>) -> u64;

/// Relies on `seahash::hash`: a deterministic 64-bit hash of the
/// bytes, stable across runs and processes.
#[verifier::external_body]
pub(crate) fn seahash_bytes(bytes: &[u8]) -> (r: u64)
    ensures
        r == seahash_of(bytes@),
{
    seahash::hash(bytes)
}

/// A value together with the content hash of its canonical encoding.
///
/// Two records compare equal exactly when their hashes agree; the
/// items themselves are never compared.  This is a deliberate cheap
/// proxy with an accepted risk of hash collisions.
#[derive(Debug)]
pub struct DbObject<V> {
    pub item: V,
    pub hash: u64,
}

impl<V: Codec> DbObject<V> {
    /// The hash field matches the item.
    pub open spec fn wf(&self) -> bool {
        self.hash == seahash_of(self.item.enc())
    }

    /// Wrap a value, computing its hash eagerly.
    pub fn new(value: V) -> (r: DbObject<V>)
        ensures
            r.item == value,
            r.wf(),
    {
        let mut obj = DbObject { item: value, hash: 0 };
        obj.rehash();
        obj
    }

    /// Recompute the hash after the item was changed from outside.
    pub fn rehash(&mut self)
        ensures
            final(self).item == old(self).item,
            final(self).wf(),
    {
        self.hash = Self::hash(&self.item);
    }

    fn hash(value: &V) -> (r: u64)
        ensures
            r == seahash_of(value.enc()),
    {
        let bytes = encode_value(value);
        seahash_bytes(bytes.as_slice())
    }
}

impl<V> PartialEq for DbObject<V> {
    fn eq(&self, other: &Self) -> (r: bool) {
        self.hash == other.hash
    }
}

impl<V> vstd::std_specs::cmp::PartialEqSpecImpl for DbObject<V> {
    open spec fn obeys_eq_spec() -> bool {
        true
    }

    open spec fn eq_spec(&self, other: &Self) -> bool {
        self.hash == other.hash
    }
}

} // verus!
