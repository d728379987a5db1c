//! The string hash shared by every dictionary structure in this crate, and
//! the hashed-key value type that pairs a string with its precomputed hash.
//!
//! A hash is computed once per string and then reused for probing and for
//! insertion, both in the per-column deduplication map and in the shared
//! interning table. Every structure uses this one function, so a hash
//! computed for one of them is valid for the others.

use vstd::prelude::*;

verus! {

/// Multiplier of the polynomial rolling hash.
pub const HASH_MULTIPLIER: u64 = 1099511628211;

/// Starting state of the polynomial rolling hash.
pub const HASH_SEED: u64 = 14695981039346656037;

/// The hash of a string, defined over its characters. This is the single
/// mathematical definition that all executable hashing in the crate meets.
pub open spec fn str_hash(s: Seq<char>) -> u64
    decreases s.len(),
{
    if s.len() == 0 {
        HASH_SEED
    } else {
        str_hash(s.drop_last()).wrapping_mul(HASH_MULTIPLIER).wrapping_add(s.last() as u64)
    }
}

/// Compute the hash of a string slice; the result is exactly `str_hash` of
/// its characters, so equal strings always hash equally.
pub fn hash_str(s: &str) -> (h: u64)
    ensures
        h == str_hash(s@),
{
    let n = s.unicode_len();
    let mut h: u64 = HASH_SEED;
    let mut i: usize = 0;
    while i < n
        invariant
            i <= n,
            n == s@.len(),
            h == str_hash(s@.take(i as int)),
        decreases n - i,
    {
        let c = s.get_char(i);
        proof {
            assert(s@.take(i + 1 as int).drop_last() =~= s@.take(i as int));
            assert(s@.take(i + 1 as int).last() == s@[i as int]);
        }
        h = h.wrapping_mul(HASH_MULTIPLIER).wrapping_add(c as u64);
        i = i + 1;
    }
    proof {
        assert(s@.take(n as int) =~= s@);
    }
    h
}

/// Relies on `str`'s `PartialEq`: two string slices compare equal exactly
/// when their character sequences are equal.
#[verifier::external_body]
pub fn str_eq(a: &str, b: &str) -> (r: bool)
    ensures
        r == (a@ == b@),
{
    a == b
}

/// A string slice paired with its precomputed hash, used as a probing key so
/// that a hash is computed once per string and reused for lookup and
/// insertion. It borrows the string, so probing never allocates; an owned
/// copy of the string is made only when a value is actually inserted.
pub struct StrHashLocal<'a> {
    pub value: &'a str,
    pub hash: u64,
}

impl<'a> StrHashLocal<'a> {
    /// A key is well formed when its stored hash really is the hash of its
    /// string. Mixing hash functions would silently corrupt lookups, so all
    /// dictionary structures insist on this.
    pub open spec fn wf(self) -> bool {
        self.hash == str_hash(self.value@)
    }

    /// Pair a string with a hash that was computed for it.
    pub fn new(s: &'a str, hash: u64) -> (k: Self)
        requires
            hash == str_hash(s@),
        ensures
            k.wf(),
            k.value == s,
            k.hash == hash,
    {
        StrHashLocal { value: s, hash }
    }

    /// The precomputed hash of the key.
    pub fn hash(&self) -> (h: u64)
        ensures
            h == self.hash,
    {
        self.hash
    }
}

impl<'a> PartialEq for StrHashLocal<'a> {
    /// Keys are equal only when both the hashes and the strings agree: equal
    /// hashes alone never count as identity, since distinct strings may
    /// collide.
    fn eq(&self, other: &Self) -> (r: bool) {
        self.hash == other.hash && str_eq(self.value, other.value)
    }
}

impl<'a> vstd::std_specs::cmp::PartialEqSpecImpl for StrHashLocal<'a> {
    open spec fn obeys_eq_spec() -> bool {
        true
    }

    open spec fn eq_spec(&self, other: &Self) -> bool {
        self.hash == other.hash && self.value@ == other.value@
    }
}

/// On well-formed keys, key equality is exactly string equality: the hash
/// comparison is a shortcut, never a source of false identities.
pub proof fn lemma_key_eq_is_string_eq<'a>(a: StrHashLocal<'a>, b: StrHashLocal<'a>)
    requires
        a.wf(),
        b.wf(),
    ensures
        (a.hash == b.hash && a.value@ == b.value@) <==> a.value@ == b.value@,
{
}

} // verus!
