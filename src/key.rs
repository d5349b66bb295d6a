use std::collections::hash_map::DefaultHasher;
use std::hash::Hasher;
use vstd::prelude::*;
use vstd::std_specs::hash::DefaultHasherAdditionalSpecFns;
use vstd::utf8::encode_utf8;

verus! {

/// The hash of a byte string: SipHash, as computed by std's `DefaultHasher`
/// after a single write of those bytes.
pub open spec fn bytes_hash(b: Seq<u8>) -> u64 {
    DefaultHasher::spec_finish(seq![b])
}

/// Hashes a byte slice with a fresh `DefaultHasher`.
pub fn hash_bytes(b: &[u8]) -> (r: u64)
    ensures
        r == bytes_hash(b@),
{
    let mut h = DefaultHasher::new();
    h.write(b);
    let r = h.finish();
    proof {
        assert(h@ =~= seq![b@]);
    }
    r
}

/// A type that can serve as a key of the table.
///
/// Keys are compared and hashed through their view: two keys with the same
/// view are the same key, and always land in the same bucket.
pub trait MapKey: View + Sized {
    /// The hash of a key, as a function of its view alone.
    spec fn spec_hash(k: Self::V) -> u64;

    fn key_hash(&self) -> (r: u64)
        ensures
            r == Self::spec_hash(self@),
    ;

    fn key_eq(&self, other: &Self) -> (r: bool)
        ensures
            r == (self@ == other@),
    ;
}

/// The four little-endian bytes of a code point.
pub open spec fn char_bytes(c: char) -> Seq<u8> {
    let u = c as u32;
    seq![(u % 256) as u8, ((u / 256) % 256) as u8, ((u / 65536) % 256) as u8, (u / 16777216) as u8]
}

impl MapKey for char {
    open spec fn spec_hash(k: char) -> u64 {
        bytes_hash(char_bytes(k))
    }

    fn key_hash(&self) -> (r: u64) {
        let u: u32 = *self as u32;
        let b: Vec<u8> = vec![(u % 256) as u8, ((u / 256) % 256) as u8, ((u / 65536) % 256) as u8, (u / 16777216) as u8];
        proof {
            assert(b@ =~= char_bytes(*self));
        }
        hash_bytes(b.as_slice())
    }

    fn key_eq(&self, other: &Self) -> (r: bool) {
        *self == *other
    }
}

/// Compares two byte slices element by element.
fn bytes_eq(a: &[u8], b: &[u8]) -> (r: bool)
    ensures
        r == (a@ == b@),
{
    if a.len() != b.len() {
        return false;
    }
    let mut i: usize = 0;
    while i < a.len()
        invariant
            a@.len() == b@.len(),
            i <= a@.len(),
            a@.subrange(0, i as int) == b@.subrange(0, i as int),
        decreases a@.len() - i,
    {
        if a[i] != b[i] {
            return false;
        }
        i = i + 1;
        proof {
            assert(a@.subrange(0, i as int) =~= a@.subrange(0, i - 1).push(a@[i - 1]));
            assert(b@.subrange(0, i as int) =~= b@.subrange(0, i - 1).push(b@[i - 1]));
        }
    }
    proof {
        assert(a@ =~= a@.subrange(0, i as int));
        assert(b@ =~= b@.subrange(0, i as int));
    }
    true
}

/// Two strings with the same UTF-8 encoding are the same string.
proof fn lemma_encode_utf8_injective(s: Seq<char>, t: Seq<char>)
    requires
        encode_utf8(s) == encode_utf8(t),
    ensures
        s == t,
{
    vstd::utf8::encode_utf8_decode_utf8(s);
    vstd::utf8::encode_utf8_decode_utf8(t);
}

impl<'a> MapKey for &'a str {
    open spec fn spec_hash(k: Seq<char>) -> u64 {
        bytes_hash(encode_utf8(k))
    }

    fn key_hash(&self) -> (r: u64) {
        hash_bytes(self.as_bytes())
    }

    fn key_eq(&self, other: &Self) -> (r: bool) {
        let r = bytes_eq(self.as_bytes(), other.as_bytes());
        proof {
            if encode_utf8(self@) == encode_utf8(other@) {
                lemma_encode_utf8_injective(self@, other@);
            }
        }
        r
    }
}

impl MapKey for String {
    open spec fn spec_hash(k: Seq<char>) -> u64 {
        bytes_hash(encode_utf8(k))
    }

    fn key_hash(&self) -> (r: u64) {
        hash_bytes(self.as_str().as_bytes())
    }

    fn key_eq(&self, other: &Self) -> (r: bool) {
        *self == *other
    }
}

} // verus!
