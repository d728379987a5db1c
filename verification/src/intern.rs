//! The deduplicating string table and the epoch-versioned interning table.
//!
//! A [`DedupTable`] assigns dense codes `0, 1, 2, ...` to distinct strings in
//! first-insertion order. Probing goes through a hash index: the bucket of a
//! string's hash holds the codes of all strings bearing that hash, and a
//! candidate code counts as a hit only when the strings themselves are equal,
//! so hash collisions are never treated as identity.
//!
//! A [`StringInternTable`] is a `DedupTable` tagged with an epoch. The epoch
//! changes exactly when the table is explicitly reset; encodings stamped with
//! different epochs are never comparable.

use vstd::prelude::*;

use crate::buckets::{buckets, CodeBuckets};
use crate::hashing::{str_eq, str_hash};

verus! {

/// The largest number of distinct strings any dictionary may hold; one more
/// is a fatal capacity overflow, since codes must fit in 32 bits.
pub const MAX_CATEGORIES: u32 = 4294967295;

/// The capacity overflow error: an encode ran into more than
/// [`MAX_CATEGORIES`] distinct strings. Unrecoverable by design.
#[derive(Debug)]
pub struct CapacityOverflow;

impl CapacityOverflow {
    /// A human-readable account of the broken limit.
    pub fn message(&self) -> (r: &'static str)
        ensures
            r@ == "not more than 4294967295 categories supported"@,
    {
        "not more than 4294967295 categories supported"
    }
}

/// No two elements equal: the defining property of a table of interned
/// strings.
pub open spec fn distinct_seq(t: Seq<Seq<char>>) -> bool {
    forall|i: int, j: int| 0 <= i < j < t.len() ==> t[i] != t[j]
}

/// `a` is an initial segment of `b`.
pub open spec fn prefix_of(a: Seq<Seq<char>>, b: Seq<Seq<char>>) -> bool {
    a.len() <= b.len() && forall|i: int| 0 <= i < a.len() ==> a[i] == b[i]
}

/// How one string extends a table of distinct strings: a known string leaves
/// the table unchanged, a new one is appended and receives the next code.
pub open spec fn intern_step(t: Seq<Seq<char>>, v: Seq<char>) -> Seq<Seq<char>> {
    if t.contains(v) {
        t
    } else {
        t.push(v)
    }
}

/// Interning a whole sequence of strings, first to last.
pub open spec fn intern_fold(t: Seq<Seq<char>>, vs: Seq<Seq<char>>) -> Seq<Seq<char>>
    decreases vs.len(),
{
    if vs.len() == 0 {
        t
    } else {
        intern_fold(intern_step(t, vs[0]), vs.subrange(1, vs.len() as int))
    }
}

/// Interning only ever appends: the old table is a prefix of the new one.
pub proof fn lemma_intern_fold_extends(t: Seq<Seq<char>>, vs: Seq<Seq<char>>)
    ensures
        prefix_of(t, intern_fold(t, vs)),
    decreases vs.len(),
{
    if vs.len() > 0 {
        lemma_intern_fold_extends(intern_step(t, vs[0]), vs.subrange(1, vs.len() as int));
    }
}

/// Global consistency: once a string stands in the table, its code never
/// moves. Any two encodings made under one table (one after the other, the
/// table only growing in between) therefore assign the same global code to
/// every string they share.
pub proof fn lemma_global_code_stable(
    t1: Seq<Seq<char>>,
    t2: Seq<Seq<char>>,
    c1: u32,
    c2: u32,
    s: Seq<char>,
)
    requires
        prefix_of(t1, t2),
        distinct_seq(t2),
        c1 < t1.len(),
        t1[c1 as int] == s,
        c2 < t2.len(),
        t2[c2 as int] == s,
    ensures
        c1 == c2,
{
    assert(t2[c1 as int] == s);
}

/// A deduplicating table of distinct strings with dense codes: code `i` is
/// string `i` of `values`, and the bucket of each string's hash records its
/// code for probing.
pub struct DedupTable {
    pub values: Vec<String>,
    pub by_hash: CodeBuckets,
}

impl DedupTable {
    /// The strings of the table, in code order.
    pub open spec fn strs(&self) -> Seq<Seq<char>> {
        Seq::new(self.values@.len(), |i: int| self.values@[i]@)
    }

    /// Every string's code is filed under that string's hash.
    #[verifier::opaque]
    pub open spec fn buckets_complete(&self) -> bool {
        forall|i: int|
            0 <= i < self.strs().len() ==> {
                let h = #[trigger] str_hash(self.strs()[i]);
                buckets(self.by_hash).contains_key(h) && buckets(self.by_hash)[h].contains(
                    i as u32,
                )
            }
    }

    /// Every filed code is a real code whose string bears the bucket's hash.
    #[verifier::opaque]
    pub open spec fn buckets_sound(&self) -> bool {
        forall|h: u64, j: int|
            #![trigger buckets(self.by_hash)[h][j]]
            buckets(self.by_hash).contains_key(h) && 0 <= j < buckets(self.by_hash)[h].len()
                ==> {
                let c = buckets(self.by_hash)[h][j];
                c < self.strs().len() && str_hash(self.strs()[c as int]) == h
            }
    }

    /// Well-formedness: strings distinct, within the code space, and the
    /// hash index complete and sound.
    pub open spec fn wf(&self) -> bool {
        &&& self.values@.len() <= MAX_CATEGORIES as int
        &&& distinct_seq(self.strs())
        &&& self.buckets_complete()
        &&& self.buckets_sound()
    }

    /// An empty table.
    pub fn new() -> (t: DedupTable)
        ensures
            t.wf(),
            t.strs().len() == 0,
    {
        let t = DedupTable { values: Vec::new(), by_hash: CodeBuckets::new() };
        proof {
            reveal(DedupTable::buckets_complete);
            reveal(DedupTable::buckets_sound);
            assert(t.buckets_complete());
            assert(t.buckets_sound());
        }
        t
    }

    /// Return the code of `s`, assigning the next code if `s` is new. The
    /// hash must have been computed by [`str_hash`](crate::hashing::hash_str)
    /// so probe and index agree. An owned copy of the string is made only on
    /// insertion. Fails exactly when a new string no longer fits in the
    /// 32-bit code space; the table is then left unchanged.
    pub fn get_or_insert(&mut self, s: &str, h: u64) -> (r: Result<u32, CapacityOverflow>)
        requires
            old(self).wf(),
            h == str_hash(s@),
        ensures
            final(self).wf(),
            r is Err <==> (!old(self).strs().contains(s@) && old(self).strs().len()
                == MAX_CATEGORIES as int),
            match r {
                Ok(c) => {
                    &&& final(self).strs() == intern_step(old(self).strs(), s@)
                    &&& (c as int) < final(self).strs().len()
                    &&& final(self).strs()[c as int] == s@
                    &&& (old(self).strs().contains(s@) ==> final(self).strs() == old(
                        self,
                    ).strs())
                    &&& (!old(self).strs().contains(s@) ==> c as int == old(self).strs().len())
                },
                Err(_) => *final(self) == *old(self),
            },
    {
        let bucket_opt = self.by_hash.get(h);
        let mut bucket: Vec<u32> = match bucket_opt {
            Some(b) => b,
            None => Vec::new(),
        };
        let ghost bseq: Seq<u32> = bucket@;
        proof {
            if buckets(self.by_hash).contains_key(h) {
                assert(bseq == buckets(self.by_hash)[h]);
            }
        }
        let mut j: usize = 0;
        while j < bucket.len()
            invariant
                *self == *old(self),
                self.wf(),
                h == str_hash(s@),
                bucket@ == bseq,
                j <= bucket.len(),
                buckets(self.by_hash).contains_key(h) ==> bseq == buckets(self.by_hash)[h],
                !buckets(self.by_hash).contains_key(h) ==> bseq.len() == 0,
                forall|t: int|
                    0 <= t < j ==> self.strs()[#[trigger] bucket@[t] as int] != s@,
            decreases bucket.len() - j,
        {
            let c = bucket[j];
            assert(c < self.strs().len() && str_hash(self.strs()[c as int]) == h) by {
                reveal(DedupTable::buckets_sound);
            }
            if str_eq(self.values[c as usize].as_str(), s) {
                proof {
                    assert(self.strs()[c as int] == s@);
                    assert(self.strs().contains(s@));
                    assert(intern_step(old(self).strs(), s@) == old(self).strs());
                }
                return Ok(c);
            }
            j = j + 1;
        }
        proof {
            reveal(DedupTable::buckets_complete);
            if old(self).strs().contains(s@) {
                let i = choose|i: int|
                    0 <= i < old(self).strs().len() && old(self).strs()[i] == s@;
                assert(str_hash(old(self).strs()[i]) == h);
                assert(buckets(self.by_hash).contains_key(h));
                assert(buckets(self.by_hash)[h].contains(i as u32));
                let t = choose|t: int|
                    0 <= t < bseq.len() && bseq[t] == i as u32;
                assert(self.strs()[bseq[t] as int] != s@);
                assert(false);
            }
        }
        if self.values.len() == MAX_CATEGORIES as usize {
            return Err(CapacityOverflow);
        }
        let code = self.values.len() as u32;
        bucket.push(code);
        self.by_hash.set(h, bucket);
        self.values.push(s.to_owned());
        proof {
            reveal(DedupTable::buckets_complete);
            reveal(DedupTable::buckets_sound);
            let pre = old(self).strs();
            let post = self.strs();
            assert(post =~= pre.push(s@));
            assert(post == intern_step(pre, s@));
            assert forall|i: int, k: int| 0 <= i < k < post.len() implies post[i] != post[k] by {
                if k == pre.len() {
                    assert(post[i] == pre[i]);
                    assert(!pre.contains(s@));
                }
            }
            let bm0 = buckets(old(self).by_hash);
            let bm1 = buckets(self.by_hash);
            assert(bm1 == bm0.insert(h, bseq.push(code)));
            assert forall|i: int| 0 <= i < post.len() implies {
                let hh = #[trigger] str_hash(post[i]);
                bm1.contains_key(hh) && bm1[hh].contains(i as u32)
            } by {
                if i < pre.len() {
                    assert(post[i] == pre[i]);
                    let hh = str_hash(pre[i]);
                    assert(bm0.contains_key(hh) && bm0[hh].contains(i as u32));
                    if hh == h {
                        let t = choose|t: int| 0 <= t < bseq.len() && bseq[t] == i as u32;
                        assert(bseq.push(code)[t] == i as u32);
                        assert(bm1[hh].contains(i as u32));
                    } else {
                        assert(bm1[hh] == bm0[hh]);
                    }
                } else {
                    assert(post[i] == s@);
                    assert(bseq.push(code)[bseq.len() as int] == code);
                    assert(bm1[h].contains(i as u32));
                }
            }
            assert forall|hh: u64, t: int|
                bm1.contains_key(hh) && 0 <= t < bm1[hh].len() implies {
                let c2 = #[trigger] bm1[hh][t];
                c2 < post.len() && str_hash(post[c2 as int]) == hh
            } by {
                if hh == h {
                    assert(bm1[hh] == bseq.push(code));
                    if t < bseq.len() {
                        assert(bm1[hh][t] == bseq[t]);
                        let c2 = bseq[t];
                        if buckets(old(self).by_hash).contains_key(h) {
                            assert(c2 < pre.len() && str_hash(pre[c2 as int]) == h);
                        }
                        assert(post[c2 as int] == pre[c2 as int]);
                    } else {
                        assert(bm1[hh][t] == code);
                        assert(post[code as int] == s@);
                    }
                } else {
                    assert(bm1[hh] == bm0[hh]);
                    let c2 = bm0[hh][t];
                    assert(c2 < pre.len() && str_hash(pre[c2 as int]) == hh);
                    assert(post[c2 as int] == pre[c2 as int]);
                }
            }
            assert(self.buckets_complete());
            assert(self.buckets_sound());
        }
        Ok(code)
    }
}

/// The process-wide interning table: a deduplicating string table plus the
/// epoch that versions it. All access is serialized by the caller (one
/// exclusive reference at a time stands for the exclusive lock).
pub struct StringInternTable {
    pub table: DedupTable,
    pub epoch: u128,
}

impl StringInternTable {
    /// The interned strings, in code order.
    pub open spec fn strs(&self) -> Seq<Seq<char>> {
        self.table.strs()
    }

    /// Well-formedness of the underlying table.
    pub open spec fn wf(&self) -> bool {
        self.table.wf()
    }

    /// A fresh, empty table in epoch zero.
    pub fn new() -> (t: StringInternTable)
        ensures
            t.wf(),
            t.strs().len() == 0,
            t.epoch == 0,
    {
        StringInternTable { table: DedupTable::new(), epoch: 0 }
    }

    /// Look up or assign the canonical code of `s`; see
    /// [`DedupTable::get_or_insert`]. The epoch never changes here.
    pub fn get_or_insert(&mut self, s: &str, h: u64) -> (r: Result<u32, CapacityOverflow>)
        requires
            old(self).wf(),
            h == str_hash(s@),
        ensures
            final(self).wf(),
            final(self).epoch == old(self).epoch,
            r is Err <==> (!old(self).strs().contains(s@) && old(self).strs().len()
                == MAX_CATEGORIES as int),
            match r {
                Ok(c) => {
                    &&& final(self).strs() == intern_step(old(self).strs(), s@)
                    &&& (c as int) < final(self).strs().len()
                    &&& final(self).strs()[c as int] == s@
                    &&& (old(self).strs().contains(s@) ==> final(self).strs() == old(
                        self,
                    ).strs())
                    &&& (!old(self).strs().contains(s@) ==> c as int == old(self).strs().len())
                },
                Err(_) => final(self).strs() == old(self).strs(),
            },
    {
        self.table.get_or_insert(s, h)
    }

    /// Clear all entries and move to a fresh epoch, strictly greater than —
    /// and so distinct from — every epoch this table has ever carried.
    /// Returns the new epoch.
    pub fn reset(&mut self) -> (e: u128)
        requires
            old(self).wf(),
            old(self).epoch < u128::MAX,
        ensures
            final(self).wf(),
            final(self).strs().len() == 0,
            final(self).epoch == old(self).epoch + 1,
            e == final(self).epoch,
    {
        self.table = DedupTable::new();
        self.epoch = self.epoch + 1;
        self.epoch
    }
}

} // verus!
