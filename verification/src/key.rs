//! The capability contract a key type must satisfy: a hash code that is a
//! pure function of the key's abstract value, and an equality test that
//! decides equality of abstract values.

use vstd::prelude::*;
use vstd::std_specs::hash::DefaultHasherAdditionalSpecFns;
use std::collections::hash_map::DefaultHasher;
use std::hash::Hasher;

verus! {

/// A type usable as a key of the table.
///
/// A key has an abstract value (its [`View`]); hashing must depend on that
/// abstract value alone, so that two equal keys always hash alike, and the
/// executable equality test must decide equality of abstract values.
pub trait TableKey: View + Sized + Copy {
    /// The hash of a key, as a function of its abstract value.
    spec fn hash_of(v: Self::V) -> u64;

    /// Computes the hash of this key.
    fn hash_code(&self) -> (code: u64)
        ensures
            code == Self::hash_of(self@),
    ;

    /// Decides whether this key and `other` have equal abstract values.
    fn key_eq(&self, other: &Self) -> (eq: bool)
        ensures
            eq == (self@ == other@),
    ;
}

/// Compares two byte slices for equality, element by element.
fn bytes_eq(a: &[u8], b: &[u8]) -> (eq: bool)
    ensures
        eq == (a@ == b@),
{
    if a.len() != b.len() {
        return false;
    }
    let mut i: usize = 0;
    while i < a.len()
        invariant
            a@.len() == b@.len(),
            i <= a@.len(),
            forall|j: int| 0 <= j < i ==> a@[j] == b@[j],
        decreases a@.len() - i,
    {
        if a[i] != b[i] {
            return false;
        }
        i += 1;
    }
    proof {
        assert(a@ =~= b@);
    }
    true
}

impl<'a> TableKey for &'a str {
    open spec fn hash_of(v: Seq<char>) -> u64 {
        DefaultHasher::spec_finish(seq![vstd::utf8::encode_utf8(v)])
    }

    fn hash_code(&self) -> (code: u64) {
        let mut hasher = DefaultHasher::new();
        hasher.write(self.as_bytes());
        proof {
            assert(hasher@ =~= seq![vstd::utf8::encode_utf8(self@)]);
        }
        hasher.finish()
    }

    fn key_eq(&self, other: &Self) -> (eq: bool) {
        let eq = bytes_eq(self.as_bytes(), other.as_bytes());
        proof {
            if vstd::utf8::encode_utf8(self@) == vstd::utf8::encode_utf8(other@) {
                vstd::utf8::encode_utf8_decode_utf8(self@);
                vstd::utf8::encode_utf8_decode_utf8(other@);
            }
        }
        eq
    }
}

impl TableKey for u64 {
    open spec fn hash_of(v: u64) -> u64 {
        DefaultHasher::spec_finish(seq![vstd::bytes::spec_u64_to_le_bytes(v)])
    }

    fn hash_code(&self) -> (code: u64) {
        let bytes = vstd::bytes::u64_to_le_bytes(*self);
        let mut hasher = DefaultHasher::new();
        hasher.write(bytes.as_slice());
        proof {
            assert(hasher@ =~= seq![vstd::bytes::spec_u64_to_le_bytes(*self)]);
        }
        hasher.finish()
    }

    fn key_eq(&self, other: &Self) -> (eq: bool) {
        *self == *other
    }
}

} // verus!
