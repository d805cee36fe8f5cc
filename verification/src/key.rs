//! Keys: equality and deterministic hashing.
//!
//! A table compares and hashes its keys through the trait [`Key`], and the
//! values it is asked to look up through the trait [`Lookup`]. Both act on
//! the view of a key, so that a key can be looked up through a borrowed
//! form of it that has the same view.

use std::collections::hash_map::DefaultHasher;
use std::hash::Hasher;
use vstd::prelude::*;
use vstd::std_specs::hash::DefaultHasherAdditionalSpecFns;

verus! {

/// A type whose values can be stored as keys of a table.
///
/// A key is identified by its view: two keys are the same key exactly when
/// their views are equal, and what a key feeds to a hasher depends on its
/// view alone.
pub trait Key: View + Sized {
    /// The writes that a key with view `v` makes to a hasher.
    spec fn hash_input(v: Self::V) -> Seq<Seq<u8>>;

    /// Feeds this key to `state`.
    fn feed(&self, state: &mut DefaultHasher)
        ensures
            final(state)@ == old(state)@ + Self::hash_input(self@),
    ;

    /// Tells whether `self` and `other` are the same key.
    fn same_key(&self, other: &Self) -> (same: bool)
        ensures
            same == (self@ == other@),
    ;
}

/// A value that can be used to look up a key of type `K` without owning one.
///
/// It stands for the key whose view is `self.key_view()`: it feeds a hasher
/// what that key feeds it and compares with stored keys by view.
pub trait Lookup<K: Key> {
    /// The view of the key that this value stands for.
    spec fn key_view(&self) -> K::V;

    /// Feeds `state` what the key that this value stands for feeds it.
    fn feed_as_key(&self, state: &mut DefaultHasher)
        ensures
            final(state)@ == old(state)@ + K::hash_input(self.key_view()),
    ;

    /// Tells whether `key` is the key that this value stands for.
    fn matches(&self, key: &K) -> (same: bool)
        ensures
            same == (key@ == self.key_view()),
    ;
}

/// Every key stands for itself.
impl<K: Key> Lookup<K> for K {
    open spec fn key_view(&self) -> K::V {
        self@
    }

    fn feed_as_key(&self, state: &mut DefaultHasher) {
        self.feed(state)
    }

    fn matches(&self, key: &K) -> (same: bool) {
        key.same_key(self)
    }
}

/// The hash code of the key of type `K` whose view is `v`: what the default
/// hasher makes of the writes of that key.
pub open spec fn key_hash<K: Key>(v: K::V) -> u64 {
    DefaultHasher::spec_finish(K::hash_input(v))
}

/// Hashes the key that `key` stands for with a fresh default hasher.
pub fn hash_of<K: Key, Q: Lookup<K> + ?Sized>(key: &Q) -> (hash: u64)
    ensures
        hash == key_hash::<K>(key.key_view()),
{
    let mut state = DefaultHasher::new();
    key.feed_as_key(&mut state);
    state.finish()
}

/// The eight bytes of `x`, from the lowest to the highest.
pub open spec fn le_bytes(x: u64) -> Seq<u8> {
    seq![
        x as u8,
        (x >> 8) as u8,
        (x >> 16) as u8,
        (x >> 24) as u8,
        (x >> 32) as u8,
        (x >> 40) as u8,
        (x >> 48) as u8,
        (x >> 56) as u8,
    ]
}

/// What an integer key feeds to a hasher: the eight bytes of the integer,
/// widened to 64 bits, in one write.
pub open spec fn int_hash_input(x: u64) -> Seq<Seq<u8>> {
    seq![le_bytes(x)]
}

/// Feeds the eight bytes of `x` to `state` in one write.
fn feed_u64(x: u64, state: &mut DefaultHasher)
    ensures
        final(state)@ == old(state)@ + int_hash_input(x),
{
    let bytes: [u8; 8] = [
        #[verifier::truncate]
        (x as u8),
        #[verifier::truncate]
        ((x >> 8) as u8),
        #[verifier::truncate]
        ((x >> 16) as u8),
        #[verifier::truncate]
        ((x >> 24) as u8),
        #[verifier::truncate]
        ((x >> 32) as u8),
        #[verifier::truncate]
        ((x >> 40) as u8),
        #[verifier::truncate]
        ((x >> 48) as u8),
        #[verifier::truncate]
        ((x >> 56) as u8),
    ];
    assert(bytes@ =~= le_bytes(x));
    state.write(bytes.as_slice());
    assert(old(state)@.push(le_bytes(x)) =~= old(state)@ + int_hash_input(x));
}

impl Key for u64 {
    open spec fn hash_input(v: u64) -> Seq<Seq<u8>> {
        int_hash_input(v)
    }

    fn feed(&self, state: &mut DefaultHasher) {
        feed_u64(*self, state)
    }

    fn same_key(&self, other: &Self) -> (same: bool) {
        *self == *other
    }
}

impl Key for u32 {
    open spec fn hash_input(v: u32) -> Seq<Seq<u8>> {
        int_hash_input(v as u64)
    }

    fn feed(&self, state: &mut DefaultHasher) {
        feed_u64(*self as u64, state)
    }

    fn same_key(&self, other: &Self) -> (same: bool) {
        *self == *other
    }
}

impl Key for usize {
    open spec fn hash_input(v: usize) -> Seq<Seq<u8>> {
        int_hash_input(v as u64)
    }

    fn feed(&self, state: &mut DefaultHasher) {
        feed_u64(*self as u64, state)
    }

    fn same_key(&self, other: &Self) -> (same: bool) {
        *self == *other
    }
}

impl Key for i64 {
    open spec fn hash_input(v: i64) -> Seq<Seq<u8>> {
        int_hash_input(v as u64)
    }

    fn feed(&self, state: &mut DefaultHasher) {
        feed_u64(
            #[verifier::truncate]
            (*self as u64),
            state,
        )
    }

    fn same_key(&self, other: &Self) -> (same: bool) {
        *self == *other
    }
}

impl Key for i32 {
    open spec fn hash_input(v: i32) -> Seq<Seq<u8>> {
        int_hash_input(v as u64)
    }

    fn feed(&self, state: &mut DefaultHasher) {
        feed_u64(
            #[verifier::truncate]
            (*self as u64),
            state,
        )
    }

    fn same_key(&self, other: &Self) -> (same: bool) {
        *self == *other
    }
}

/// What a string key with the characters `v` feeds to a hasher: its UTF-8
/// encoding, in one write.
pub open spec fn str_hash_input(v: Seq<char>) -> Seq<Seq<u8>> {
    seq![vstd::utf8::encode_utf8(v)]
}

/// Tells whether two byte slices hold the same bytes.
fn same_bytes(a: &[u8], b: &[u8]) -> (same: bool)
    ensures
        same == (a@ == b@),
{
    if a.len() != b.len() {
        return false;
    }
    let mut i: usize = 0;
    while i < a.len()
        invariant
            a@.len() == b@.len(),
            i <= a@.len(),
            forall|j: int| 0 <= j < i ==> a@[j] == b@[j],
        decreases a@.len() - i,
    {
        if a[i] != b[i] {
            return false;
        }
        i += 1;
    }
    assert(a@ =~= b@);
    true
}

/// Feeds the UTF-8 encoding of `s` to `state` in one write.
fn feed_str(s: &str, state: &mut DefaultHasher)
    ensures
        final(state)@ == old(state)@ + str_hash_input(s@),
{
    state.write(s.as_bytes());
    assert(old(state)@.push(vstd::utf8::encode_utf8(s@)) =~= old(state)@ + str_hash_input(s@));
}

/// Tells whether two strings hold the same characters.
fn same_str(a: &str, b: &str) -> (same: bool)
    ensures
        same == (a@ == b@),
{
    proof {
        // Strings with the same encoding hold the same characters.
        vstd::utf8::encode_utf8_decode_utf8(a@);
        vstd::utf8::encode_utf8_decode_utf8(b@);
    }
    same_bytes(a.as_bytes(), b.as_bytes())
}

impl<'a> Key for &'a str {
    open spec fn hash_input(v: Seq<char>) -> Seq<Seq<u8>> {
        str_hash_input(v)
    }

    fn feed(&self, state: &mut DefaultHasher) {
        feed_str(*self, state)
    }

    fn same_key(&self, other: &Self) -> (same: bool) {
        same_str(*self, *other)
    }
}

impl Key for String {
    open spec fn hash_input(v: Seq<char>) -> Seq<Seq<u8>> {
        str_hash_input(v)
    }

    fn feed(&self, state: &mut DefaultHasher) {
        feed_str(self.as_str(), state)
    }

    fn same_key(&self, other: &Self) -> (same: bool) {
        same_str(self.as_str(), other.as_str())
    }
}

/// A string slice stands for the borrowed string with the same characters.
impl<'a> Lookup<&'a str> for str {
    open spec fn key_view(&self) -> Seq<char> {
        self@
    }

    fn feed_as_key(&self, state: &mut DefaultHasher) {
        feed_str(self, state)
    }

    fn matches(&self, key: &&'a str) -> (same: bool) {
        same_str(*key, self)
    }
}

/// A string slice stands for the owned string with the same characters.
impl Lookup<String> for str {
    open spec fn key_view(&self) -> Seq<char> {
        self@
    }

    fn feed_as_key(&self, state: &mut DefaultHasher) {
        feed_str(self, state)
    }

    fn matches(&self, key: &String) -> (same: bool) {
        same_str(key.as_str(), self)
    }
}

} // verus!
