//! Hash-table storage for the dictionary structures, backed by
//! `hashbrown::HashMap` behind a small trusted surface.
//!
//! Two concrete shapes are used. [`CodeBuckets`] maps a 64-bit string hash to
//! the list of codes whose strings carry that hash; it is the probing index
//! of both the per-column deduplication map and the shared interning table,
//! and all collision handling on top of it is verified code. [`CodeMap`] maps
//! a 32-bit code to a 32-bit code; it is the global-to-local translation
//! table of a finished global encoding.
//!
//! Each type holds its map in a private field and exposes one method per
//! `hashbrown` operation, specified against an uninterpreted name for the
//! map's contents.

use vstd::prelude::*;

verus! {

/// What a [`CodeBuckets`] holds: for each hash, the codes filed under it.
pub uninterp spec fn buckets(res: CodeBuckets) -> Map<u64, Seq<u32>>;

/// An index from string hashes to the codes of the strings that bear them.
#[verifier::external_body]
pub struct CodeBuckets {
    inner: hashbrown::HashMap<u64, Vec<u32>>,
}

impl CodeBuckets {
    /// Relies on `hashbrown::HashMap::new`: a new map is empty.
    #[verifier::external_body]
    pub fn new() -> (res: CodeBuckets)
        ensures
            forall|h: u64| !buckets(res).contains_key(h),
    {
        CodeBuckets { inner: hashbrown::HashMap::new() }
    }

    /// Relies on `hashbrown::HashMap::get`: returns the value filed under
    /// the key, if any. The bucket is handed out as a copy.
    #[verifier::external_body]
    pub fn get(&self, h: u64) -> (r: Option<Vec<u32>>)
        ensures
            match r {
                Some(b) => buckets(*self).contains_key(h) && b@ == buckets(*self)[h],
                None => !buckets(*self).contains_key(h),
            },
    {
        self.inner.get(&h).cloned()
    }

    /// Relies on `hashbrown::HashMap::insert`: files the value under the
    /// key, replacing what was there.
    #[verifier::external_body]
    pub fn set(&mut self, h: u64, b: Vec<u32>)
        ensures
            buckets(*final(self)) == buckets(*old(self)).insert(h, b@),
    {
        self.inner.insert(h, b);
    }
}

/// What a [`CodeMap`] holds: a finite map from codes to codes.
pub uninterp spec fn code_pairs(res: CodeMap) -> Map<u32, u32>;

/// A map from 32-bit codes to 32-bit codes.
#[verifier::external_body]
pub struct CodeMap {
    inner: hashbrown::HashMap<u32, u32>,
}

impl CodeMap {
    /// Relies on `hashbrown::HashMap::with_capacity`: a new map is empty.
    #[verifier::external_body]
    pub fn with_capacity(capacity: usize) -> (res: CodeMap)
        ensures
            forall|k: u32| !code_pairs(res).contains_key(k),
    {
        CodeMap { inner: hashbrown::HashMap::with_capacity(capacity) }
    }

    /// Relies on `hashbrown::HashMap::insert`: files the value under the
    /// key, replacing what was there.
    #[verifier::external_body]
    pub fn insert(&mut self, k: u32, v: u32)
        ensures
            code_pairs(*final(self)) == code_pairs(*old(self)).insert(k, v),
    {
        self.inner.insert(k, v);
    }

    /// Relies on `hashbrown::HashMap::get`: returns the value filed under
    /// the key, if any.
    #[verifier::external_body]
    pub fn get(&self, k: u32) -> (r: Option<u32>)
        ensures
            match r {
                Some(v) => code_pairs(*self).contains_pair(k, v),
                None => !code_pairs(*self).contains_key(k),
            },
    {
        self.inner.get(&k).copied()
    }

    /// Relies on `hashbrown::HashMap::iter`: yields every pair exactly once,
    /// in an arbitrary order. Only what holds of every order is stated: the
    /// returned pairs are exactly the map's pairs, with pairwise distinct
    /// keys.
    #[verifier::external_body]
    pub fn pairs(&self) -> (r: Vec<(u32, u32)>)
        ensures
            forall|p: (u32, u32)| #[trigger] r@.contains(p) <==> code_pairs(*self).contains_pair(p.0, p.1),
            forall|i: int, j: int| 0 <= i < j < r@.len() ==> (#[trigger] r@[i]).0 != (#[trigger] r@[j]).0,
    {
        self.inner.iter().map(|(k, v)| (*k, *v)).collect()
    }
}

} // verus!
