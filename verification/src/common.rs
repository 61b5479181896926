//! Element hashing: every element of a sequence is replaced by a 64-bit key,
//! so that the algorithms work on sequences of `u64` alone.
//!
//! For characters and integers the key is the value itself, and two elements
//! are equal exactly where their keys are. Strings and vectors go through the
//! standard hasher, fed as the standard library feeds it on a 64-bit
//! little-endian machine: equal elements have equal keys, and unequal
//! elements have unequal keys but for a collision of the hash function,
//! which is accepted as an approximation.

pub mod utils;

use std::collections::hash_map::DefaultHasher;
use std::hash::Hasher;
use vstd::bytes::{spec_u32_to_le_bytes, spec_u64_to_le_bytes, u32_to_le_bytes, u64_to_le_bytes};
use vstd::prelude::*;
use vstd::std_specs::hash::DefaultHasherAdditionalSpecFns;
use vstd::utf8::encode_utf8;

verus! {

/// An element that has a 64-bit key.
pub trait Hashable {
    /// The key of the element: a function of its value. A type that does
    /// not say what its keys are leaves them open.
    open spec fn key(&self) -> u64 {
        arbitrary()
    }

    /// Computes the key of the element.
    fn hash_value(&self) -> (r: u64)
        ensures
            r == self.key(),
    ;
}

/// The keys of the elements of a sequence, in order.
pub open spec fn keys<T: Hashable>(s: Seq<T>) -> Seq<u64> {
    Seq::new(s.len(), |i: int| s[i].key())
}

impl Hashable for char {
    open spec fn key(&self) -> u64 {
        *self as u64
    }

    fn hash_value(&self) -> (r: u64) {
        *self as u64
    }
}

impl Hashable for u8 {
    open spec fn key(&self) -> u64 {
        *self as u64
    }

    fn hash_value(&self) -> (r: u64) {
        *self as u64
    }
}

impl Hashable for u32 {
    open spec fn key(&self) -> u64 {
        *self as u64
    }

    fn hash_value(&self) -> (r: u64) {
        *self as u64
    }
}

impl Hashable for u64 {
    open spec fn key(&self) -> u64 {
        *self
    }

    fn hash_value(&self) -> (r: u64) {
        *self
    }
}

impl Hashable for usize {
    open spec fn key(&self) -> u64 {
        *self as u64
    }

    fn hash_value(&self) -> (r: u64) {
        *self as u64
    }
}

/// What is written to the hasher for a string: its bytes in UTF-8, then one
/// byte that no string holds, so that no string is the start of another.
pub open spec fn string_writes(s: Seq<char>) -> Seq<Seq<u8>> {
    seq![encode_utf8(s), seq![0xffu8]]
}

/// What is written to the hasher for a vector of bytes: its length in eight
/// bytes, then the bytes.
pub open spec fn bytes_writes(s: Seq<u8>) -> Seq<Seq<u8>> {
    seq![spec_u64_to_le_bytes(s.len() as u64), s]
}

/// What is written to the hasher for a vector of characters: each character
/// in turn, in four bytes.
pub open spec fn chars_writes(s: Seq<char>) -> Seq<Seq<u8>> {
    Seq::new(s.len(), |i: int| spec_u32_to_le_bytes(s[i] as u32))
}

impl Hashable for String {
    open spec fn key(&self) -> u64 {
        DefaultHasher::spec_finish(string_writes(self@))
    }

    fn hash_value(&self) -> (r: u64) {
        let mut hasher = DefaultHasher::new();
        let mut end: Vec<u8> = Vec::new();
        end.push(0xff);
        hasher.write(self.as_str().as_bytes());
        hasher.write(end.as_slice());
        assert(hasher@ =~= string_writes(self@));
        hasher.finish()
    }
}

impl Hashable for Vec<u8> {
    open spec fn key(&self) -> u64 {
        DefaultHasher::spec_finish(bytes_writes(self@))
    }

    fn hash_value(&self) -> (r: u64) {
        let mut hasher = DefaultHasher::new();
        let length = u64_to_le_bytes(self.len() as u64);
        hasher.write(length.as_slice());
        hasher.write(self.as_slice());
        assert(hasher@ =~= bytes_writes(self@));
        hasher.finish()
    }
}

impl Hashable for Vec<char> {
    open spec fn key(&self) -> u64 {
        DefaultHasher::spec_finish(chars_writes(self@))
    }

    fn hash_value(&self) -> (r: u64) {
        let mut hasher = DefaultHasher::new();
        let mut i: usize = 0;
        assert(hasher@ =~= chars_writes(self@.subrange(0, 0)));
        while i < self.len()
            invariant
                i <= self.len(),
                hasher@ == chars_writes(self@.subrange(0, i as int)),
            decreases self.len() - i,
        {
            let bytes = u32_to_le_bytes(self[i] as u32);
            hasher.write(bytes.as_slice());
            i += 1;
            assert(hasher@ =~= chars_writes(self@.subrange(0, i as int)));
        }
        assert(self@.subrange(0, i as int) =~= self@);
        hasher.finish()
    }
}

/// Replaces each element of the sequence by its key.
pub fn conv_sequence<T: Hashable>(s: &[T]) -> (r: Vec<u64>)
    ensures
        r@ == keys(s@),
{
    let mut out: Vec<u64> = Vec::new();
    let mut i: usize = 0;
    while i < s.len()
        invariant
            i <= s.len(),
            out@ == keys(s@.subrange(0, i as int)),
        decreases s.len() - i,
    {
        out.push(s[i].hash_value());
        i += 1;
        assert(out@ =~= keys(s@.subrange(0, i as int)));
    }
    assert(s@.subrange(0, i as int) =~= s@);
    out
}

/// Replaces each element of both sequences by its key.
pub fn conv_sequences<T: Hashable>(s1: &[T], s2: &[T]) -> (r: (Vec<u64>, Vec<u64>))
    ensures
        r.0@ == keys(s1@),
        r.1@ == keys(s2@),
{
    (conv_sequence(s1), conv_sequence(s2))
}

/// Where no two elements of a type share a key, two sequences are equal
/// exactly where their keys are.
pub proof fn lemma_keys_injective<T: Hashable>(a: Seq<T>, b: Seq<T>)
    requires
        forall|x: T, y: T| #[trigger] x.key() == #[trigger] y.key() ==> x == y,
    ensures
        keys(a) == keys(b) <==> a == b,
{
    if keys(a) == keys(b) {
        assert(a.len() == keys(a).len());
        assert(b.len() == keys(b).len());
        assert forall|i: int| 0 <= i < a.len() implies a[i] == b[i] by {
            assert(keys(a)[i] == a[i].key());
            assert(keys(b)[i] == b[i].key());
        }
        assert(a =~= b);
    }
}

/// Characters, bytes and integers are their own keys: no two of them share one.
pub proof fn lemma_plain_keys_injective()
    ensures
        forall|x: char, y: char| #[trigger] x.key() == #[trigger] y.key() ==> x == y,
        forall|x: u8, y: u8| #[trigger] x.key() == #[trigger] y.key() ==> x == y,
        forall|x: u32, y: u32| #[trigger] x.key() == #[trigger] y.key() ==> x == y,
        forall|x: u64, y: u64| #[trigger] x.key() == #[trigger] y.key() ==> x == y,
        forall|x: usize, y: usize| #[trigger] x.key() == #[trigger] y.key() ==> x == y,
{
    assert forall|x: char, y: char| #[trigger] x.key() == #[trigger] y.key() implies x == y by {
        lemma_char_key_injective(x, y);
    }
}

/// Two characters with one key are the same character.
proof fn lemma_char_key_injective(c: char, d: char)
    ensures
        c.key() == d.key() <==> c == d,
{
}

/// Two sequences of characters are equal exactly where their keys are.
pub proof fn lemma_char_keys_injective(a: Seq<char>, b: Seq<char>)
    ensures
        keys(a) == keys(b) <==> a == b,
{
    lemma_plain_keys_injective();
    lemma_keys_injective(a, b);
}

} // verus!
