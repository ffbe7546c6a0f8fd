use std::collections::hash_map::DefaultHasher;
use std::hash::Hasher;
use vstd::prelude::*;
use vstd::std_specs::hash::DefaultHasherAdditionalSpecFns;
use vstd::utf8::{encode_utf8, encode_utf8_decode_utf8};

verus! {

/// What the map needs of its keys: a hash that depends on the key's view
/// alone, and an equality that agrees with equality of views.
pub trait HashKey: View {
    /// The hash of a key with view `k`.
    spec fn spec_hash(k: Self::V) -> u64;

    fn hash_key(&self) -> (r: u64)
        ensures
            r == Self::spec_hash(self@),
    ;

    fn key_eq(&self, other: &Self) -> (r: bool)
        ensures
            r == (self@ == other@),
    ;
}

/// Stored keys of type `Self` can be looked up by queries of type `Q`: a
/// query stands for the key whose view is `query_view` of its own view,
/// hashes as that key does, and is compared against stored keys directly.
pub trait KeyEq<Q: HashKey + ?Sized>: HashKey + Sized {
    /// The view of the key that a query with view `q` stands for.
    spec fn query_view(q: Q::V) -> Self::V;

    proof fn lemma_hash_agrees(q: Q::V)
        ensures
            Self::spec_hash(Self::query_view(q)) == Q::spec_hash(q),
    ;

    fn matches_query(&self, q: &Q) -> (r: bool)
        ensures
            r == (self@ == Self::query_view(q@)),
    ;
}

/// Every key type can be looked up by its own values.
impl<K: HashKey> KeyEq<K> for K {
    open spec fn query_view(q: K::V) -> K::V {
        q
    }

    proof fn lemma_hash_agrees(q: K::V) {
    }

    fn matches_query(&self, q: &K) -> (r: bool) {
        self.key_eq(q)
    }
}

/// The little-endian bytes of a 32-bit integer.
pub open spec fn le_bytes_u32(x: u32) -> Seq<u8> {
    seq![(x & 0xff) as u8, ((x >> 8) & 0xff) as u8, ((x >> 16) & 0xff) as u8, ((x >> 24) & 0xff) as u8]
}

fn le_bytes_u32_exec(x: u32) -> (r: Vec<u8>)
    ensures
        r@ == le_bytes_u32(x),
{
    let r = vec![(x & 0xff) as u8, ((x >> 8) & 0xff) as u8, ((x >> 16) & 0xff) as u8, ((x >> 24) & 0xff) as u8];
    assert(r@ =~= le_bytes_u32(x));
    r
}

impl HashKey for i32 {
    open spec fn spec_hash(k: i32) -> u64 {
        DefaultHasher::spec_finish(seq![le_bytes_u32(k as u32)])
    }

    fn hash_key(&self) -> (r: u64) {
        let bytes = le_bytes_u32_exec(*self as u32);
        let mut hasher = DefaultHasher::new();
        hasher.write(bytes.as_slice());
        let r = hasher.finish();
        assert(hasher@ =~= seq![le_bytes_u32(*self as u32)]);
        r
    }

    fn key_eq(&self, other: &Self) -> (r: bool) {
        *self == *other
    }
}

/// The hash of a string: its UTF-8 bytes, then a `0xff` marker byte.
pub open spec fn str_hash(s: Seq<char>) -> u64 {
    DefaultHasher::spec_finish(seq![encode_utf8(s), seq![0xffu8]])
}

fn hash_str(s: &str) -> (r: u64)
    ensures
        r == str_hash(s@),
{
    let marker: Vec<u8> = vec![0xff];
    let mut hasher = DefaultHasher::new();
    hasher.write(s.as_bytes());
    hasher.write(marker.as_slice());
    let r = hasher.finish();
    assert(marker@ =~= seq![0xffu8]);
    assert(hasher@ =~~= seq![encode_utf8(s@), seq![0xffu8]]);
    r
}

fn str_eq(s: &str, other: &str) -> (r: bool)
    ensures
        r == (s@ == other@),
{
    let a = s.as_bytes();
    let b = other.as_bytes();
    proof {
        encode_utf8_decode_utf8(s@);
        encode_utf8_decode_utf8(other@);
    }
    if a.len() != b.len() {
        return false;
    }
    let mut i: usize = 0;
    while i < a.len()
        invariant
            a@ == encode_utf8(s@),
            b@ == encode_utf8(other@),
            a@.len() == b@.len(),
            i <= a@.len(),
            forall|j: int| 0 <= j < i ==> a@[j] == b@[j],
        decreases a@.len() - i,
    {
        if a[i] != b[i] {
            return false;
        }
        i += 1;
    }
    assert(a@ =~= b@);
    true
}

impl<'a> HashKey for &'a str {
    open spec fn spec_hash(k: Seq<char>) -> u64 {
        str_hash(k)
    }

    fn hash_key(&self) -> (r: u64) {
        hash_str(self)
    }

    fn key_eq(&self, other: &Self) -> (r: bool) {
        str_eq(self, other)
    }
}

impl HashKey for String {
    open spec fn spec_hash(k: Seq<char>) -> u64 {
        str_hash(k)
    }

    fn hash_key(&self) -> (r: u64) {
        hash_str(self.as_str())
    }

    fn key_eq(&self, other: &Self) -> (r: bool) {
        *self == *other
    }
}

impl HashKey for str {
    open spec fn spec_hash(k: Seq<char>) -> u64 {
        str_hash(k)
    }

    fn hash_key(&self) -> (r: u64) {
        hash_str(self)
    }

    fn key_eq(&self, other: &Self) -> (r: bool) {
        str_eq(self, other)
    }
}

/// A map keyed by string slices can be queried with a `str`.
impl<'a> KeyEq<str> for &'a str {
    open spec fn query_view(q: Seq<char>) -> Seq<char> {
        q
    }

    proof fn lemma_hash_agrees(q: Seq<char>) {
    }

    fn matches_query(&self, q: &str) -> (r: bool) {
        str_eq(self, q)
    }
}

/// A map keyed by owned strings can be queried with a `str`.
impl KeyEq<str> for String {
    open spec fn query_view(q: Seq<char>) -> Seq<char> {
        q
    }

    proof fn lemma_hash_agrees(q: Seq<char>) {
    }

    fn matches_query(&self, q: &str) -> (r: bool) {
        str_eq(self.as_str(), q)
    }
}

} // verus!
