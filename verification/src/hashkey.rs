//! Keys for the chained hash table.
//!
//! The table requires of its key type a deterministic hashing capability and
//! an equality test, both bound statically to the type through the [`HashKey`]
//! trait. The hash code is a spec function of the key's abstract value alone,
//! so equal keys always carry equal hash codes — the correctness foundation
//! for lookup and removal.

use vstd::prelude::*;

verus! {

/// A key usable by the chained hash table.
///
/// A key hashes itself to a 64-bit code, defined as a function of the key's
/// abstract value (its view) alone, and decides equality of abstract values.
pub trait HashKey: View + Sized {
    /// The hash code of a key whose abstract value is `v`.
    spec fn hash_of(v: Self::V) -> u64;

    /// Compute this key's hash code.
    fn hash_code(&self) -> (h: u64)
        ensures
            h == Self::hash_of(self@),
    ;

    /// Decide whether this key and `other` have the same abstract value.
    fn key_eq(&self, other: &Self) -> (r: bool)
        ensures
            r == (self@ == other@),
    ;
}

/// The accumulator a byte hash starts from.
pub const HASH_SEED: u64 = 0xcbf2_9ce4_8422_2325;

/// One step of the byte hash: rotate the accumulator left by five bits and
/// fold the next byte in.
pub open spec fn hash_step(h: u64, byte: u8) -> u64 {
    ((h << 5) | (h >> 59)) ^ (byte as u64)
}

/// The hash code of a byte sequence: a rotate-and-xor accumulation over the
/// bytes in order.
pub open spec fn hash_bytes(bytes: Seq<u8>) -> u64
    decreases bytes.len(),
{
    if bytes.len() == 0 {
        HASH_SEED
    } else {
        hash_step(hash_bytes(bytes.drop_last()), bytes.last())
    }
}

/// Compute `hash_bytes` over a byte slice.
fn hash_bytes_exec(bytes: &[u8]) -> (h: u64)
    ensures
        h == hash_bytes(bytes@),
{
    let mut h: u64 = HASH_SEED;
    let mut i: usize = 0;
    while i < bytes.len()
        invariant
            i <= bytes@.len(),
            h == hash_bytes(bytes@.subrange(0, i as int)),
        decreases bytes@.len() - i,
    {
        h = ((h << 5) | (h >> 59)) ^ (bytes[i] as u64);
        proof {
            let pre = bytes@.subrange(0, i as int);
            let ext = bytes@.subrange(0, i + 1);
            assert(ext.drop_last() =~= pre);
            assert(ext.last() == bytes@[i as int]);
        }
        i = i + 1;
    }
    proof {
        assert(bytes@.subrange(0, bytes@.len() as int) =~= bytes@);
    }
    h
}

/// Decide whether two byte slices hold the same bytes.
fn bytes_eq(a: &[u8], b: &[u8]) -> (r: bool)
    ensures
        r == (a@ == b@),
{
    if a.len() != b.len() {
        return false;
    }
    let mut i: usize = 0;
    while i < a.len()
        invariant
            a@.len() == b@.len(),
            i <= a@.len(),
            forall|j: int| 0 <= j < i ==> a@[j] == b@[j],
        decreases a@.len() - i,
    {
        if a[i] != b[i] {
            return false;
        }
        i = i + 1;
    }
    proof {
        assert(a@ =~= b@);
    }
    true
}

impl HashKey for u64 {
    /// A xor-shift mix of the integer itself.
    open spec fn hash_of(v: u64) -> u64 {
        v ^ (v >> 33)
    }

    fn hash_code(&self) -> (h: u64) {
        *self ^ (*self >> 33)
    }

    fn key_eq(&self, other: &Self) -> (r: bool) {
        *self == *other
    }
}

impl HashKey for usize {
    open spec fn hash_of(v: usize) -> u64 {
        (v as u64) ^ ((v as u64) >> 33)
    }

    fn hash_code(&self) -> (h: u64) {
        (*self as u64) ^ ((*self as u64) >> 33)
    }

    fn key_eq(&self, other: &Self) -> (r: bool) {
        *self == *other
    }
}

impl HashKey for i32 {
    /// The integer shifted into the non-negative range.
    open spec fn hash_of(v: i32) -> u64 {
        ((v as i64) + 0x8000_0000i64) as u64
    }

    fn hash_code(&self) -> (h: u64) {
        ((*self as i64) + 0x8000_0000i64) as u64
    }

    fn key_eq(&self, other: &Self) -> (r: bool) {
        *self == *other
    }
}

impl<'a> HashKey for &'a str {
    /// The byte hash of the string's UTF-8 encoding.
    open spec fn hash_of(v: Seq<char>) -> u64 {
        hash_bytes(vstd::utf8::encode_utf8(v))
    }

    fn hash_code(&self) -> (h: u64) {
        hash_bytes_exec(self.as_bytes())
    }

    fn key_eq(&self, other: &Self) -> (r: bool) {
        let r = bytes_eq(self.as_bytes(), other.as_bytes());
        proof {
            if r {
                vstd::utf8::encode_utf8_decode_utf8(self@);
                vstd::utf8::encode_utf8_decode_utf8(other@);
            }
        }
        r
    }
}

impl HashKey for String {
    /// The byte hash of the string's UTF-8 encoding.
    open spec fn hash_of(v: Seq<char>) -> u64 {
        hash_bytes(vstd::utf8::encode_utf8(v))
    }

    fn hash_code(&self) -> (h: u64) {
        hash_bytes_exec(self.as_str().as_bytes())
    }

    fn key_eq(&self, other: &Self) -> (r: bool) {
        self.eq(other)
    }
}

} // verus!
