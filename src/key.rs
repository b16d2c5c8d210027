use std::collections::hash_map::DefaultHasher;
use std::hash::Hasher;
use vstd::bytes::{spec_u32_to_le_bytes, spec_u64_to_le_bytes, u32_to_le_bytes, u64_to_le_bytes};
use vstd::prelude::*;
use vstd::std_specs::hash::DefaultHasherAdditionalSpecFns;
use vstd::utf8::{encode_utf8, encode_utf8_decode_utf8};

verus! {

/// The hash of a byte sequence: what a fresh `DefaultHasher` yields after
/// being fed exactly those bytes.
pub open spec fn bytes_hash(b: Seq<u8>) -> u64 {
    DefaultHasher::spec_finish(seq![b])
}

/// Hashes a byte sequence with a freshly created `DefaultHasher`, whose keys
/// are fixed, so the result depends on the bytes alone.
pub fn hash_key(bytes: &[u8]) -> (r: u64)
    ensures
        r == bytes_hash(bytes@),
{
    let mut hasher = DefaultHasher::new();
    hasher.write(bytes);
    hasher.finish()
}

/// Compares two byte slices element by element.
fn bytes_eq(a: &[u8], b: &[u8]) -> (r: bool)
    ensures
        r == (a@ == b@),
{
    if a.len() != b.len() {
        return false;
    }
    let mut i: usize = 0;
    while i < a.len()
        invariant
            a@.len() == b@.len(),
            i <= a@.len(),
            forall|j: int| 0 <= j < i ==> a@[j] == b@[j],
        decreases a@.len() - i,
    {
        if a[i] != b[i] {
            return false;
        }
        i = i + 1;
    }
    assert(a@ =~= b@);
    true
}

/// What a table needs from its key type: a deterministic hash and an
/// equality test, both determined by the key's view.
pub trait HashKey: View + Sized {
    /// The hash of a key, as a function of its view.
    spec fn spec_hash(k: Self::V) -> u64;

    fn key_hash(&self) -> (r: u64)
        ensures
            r == Self::spec_hash(self@),
    ;

    fn key_eq(&self, other: &Self) -> (r: bool)
        ensures
            r == (self@ == other@),
    ;
}

proof fn lemma_utf8_injective(a: Seq<char>, b: Seq<char>)
    requires
        encode_utf8(a) == encode_utf8(b),
    ensures
        a == b,
{
    encode_utf8_decode_utf8(a);
    encode_utf8_decode_utf8(b);
}

impl<'a> HashKey for &'a str {
    open spec fn spec_hash(k: Seq<char>) -> u64 {
        bytes_hash(encode_utf8(k))
    }

    fn key_hash(&self) -> (r: u64) {
        hash_key(self.as_bytes())
    }

    fn key_eq(&self, other: &Self) -> (r: bool) {
        let r = bytes_eq(self.as_bytes(), other.as_bytes());
        proof {
            if r {
                lemma_utf8_injective(self@, other@);
            }
        }
        r
    }
}

impl HashKey for String {
    open spec fn spec_hash(k: Seq<char>) -> u64 {
        bytes_hash(encode_utf8(k))
    }

    fn key_hash(&self) -> (r: u64) {
        hash_key(self.as_str().as_bytes())
    }

    fn key_eq(&self, other: &Self) -> (r: bool) {
        let r = bytes_eq(self.as_str().as_bytes(), other.as_str().as_bytes());
        proof {
            if r {
                lemma_utf8_injective(self@, other@);
            }
        }
        r
    }
}

impl HashKey for u64 {
    open spec fn spec_hash(k: u64) -> u64 {
        bytes_hash(spec_u64_to_le_bytes(k))
    }

    fn key_hash(&self) -> (r: u64) {
        let bytes = u64_to_le_bytes(*self);
        hash_key(bytes.as_slice())
    }

    fn key_eq(&self, other: &Self) -> (r: bool) {
        *self == *other
    }
}

impl HashKey for u32 {
    open spec fn spec_hash(k: u32) -> u64 {
        bytes_hash(spec_u32_to_le_bytes(k))
    }

    fn key_hash(&self) -> (r: u64) {
        let bytes = u32_to_le_bytes(*self);
        hash_key(bytes.as_slice())
    }

    fn key_eq(&self, other: &Self) -> (r: bool) {
        *self == *other
    }
}

} // verus!
