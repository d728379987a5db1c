//! The per-column dictionary builder.
//!
//! A builder consumes a stream of optional strings and produces an array of
//! optional codes plus a reverse mapping, in one of two modes. In local-only
//! mode codes are dense indexes into the column's own value array. In global
//! reconciliation mode the column is first encoded locally, then every
//! distinct value is registered with the shared interning table in one
//! critical section, and the local codes are rewritten to the global ones.

use vstd::pervasive::VecAdditionalExecFns;
use vstd::prelude::*;

use crate::buckets::{code_pairs, CodeMap};
use crate::hashing::{hash_str, str_hash};
use crate::intern::{
    distinct_seq, intern_fold, intern_step, prefix_of, CapacityOverflow, DedupTable,
    StringInternTable, MAX_CATEGORIES,
};
use crate::revmap::{views_of, RevMapping, RevMappingBuilder};

verus! {

/// The character views of a stream of optional strings.
pub open spec fn opt_views(v: Seq<Option<String>>) -> Seq<Option<Seq<char>>> {
    Seq::new(
        v.len(),
        |i: int|
            match v[i] {
                Some(s) => Some(s@),
                None => None,
            },
    )
}

/// The distinct strings of a stream, in order of first appearance; nulls
/// contribute nothing.
pub open spec fn distinct_strs(inp: Seq<Option<Seq<char>>>) -> Seq<Seq<char>>
    decreases inp.len(),
{
    if inp.len() == 0 {
        Seq::empty()
    } else {
        let pre = distinct_strs(inp.drop_last());
        match inp.last() {
            Some(v) => intern_step(pre, v),
            None => pre,
        }
    }
}

/// What it means for `(codes, vals)` to be the local encoding of `inp`:
/// the value array is the distinct strings in first-appearance order, nulls
/// stay null, and every non-null position carries the code of its string.
pub open spec fn is_local_encoding(
    inp: Seq<Option<Seq<char>>>,
    codes: Seq<Option<u32>>,
    vals: Seq<Seq<char>>,
) -> bool {
    &&& vals == distinct_strs(inp)
    &&& codes.len() == inp.len()
    &&& forall|p: int| 0 <= p < inp.len() ==> ((#[trigger] codes[p]) is None <==> inp[p] is None)
    &&& forall|p: int|
        0 <= p < inp.len() ==> ((#[trigger] inp[p]) matches Some(v) ==> (codes[p] matches Some(c)
            && (c as int) < vals.len() && vals[c as int] == v))
}

/// What it means for `(codes, vals, g2l)` to be a global encoding of `inp`
/// against the interning table `table`: values as in the local encoding,
/// every non-null position carries its string's global code, every value is
/// interned, and `g2l` translates exactly the global codes of this column's
/// values to their local indexes.
pub open spec fn is_global_encoding(
    inp: Seq<Option<Seq<char>>>,
    codes: Seq<Option<u32>>,
    vals: Seq<Seq<char>>,
    g2l: Map<u32, u32>,
    table: Seq<Seq<char>>,
) -> bool {
    &&& vals == distinct_strs(inp)
    &&& codes.len() == inp.len()
    &&& forall|p: int| 0 <= p < inp.len() ==> ((#[trigger] codes[p]) is None <==> inp[p] is None)
    &&& forall|p: int|
        0 <= p < inp.len() ==> ((#[trigger] inp[p]) matches Some(v) ==> (codes[p] matches Some(g)
            && (g as int) < table.len() && table[g as int] == v))
    &&& forall|li: int| 0 <= li < vals.len() ==> table.contains(#[trigger] vals[li])
    &&& forall|g: u32, li: u32| #[trigger]
        g2l.contains_pair(g, li) <==> ((li as int) < vals.len() && (g as int) < table.len()
            && table[g as int] == vals[li as int])
}

/// The distinct strings of a stream are pairwise distinct.
pub proof fn lemma_distinct_strs_distinct(inp: Seq<Option<Seq<char>>>)
    ensures
        distinct_seq(distinct_strs(inp)),
    decreases inp.len(),
{
    if inp.len() > 0 {
        lemma_distinct_strs_distinct(inp.drop_last());
        let pre = distinct_strs(inp.drop_last());
        match inp.last() {
            Some(v) => {
                if !pre.contains(v) {
                    let t1 = pre.push(v);
                    assert forall|i: int, j: int| 0 <= i < j < t1.len() implies t1[i] != t1[j] by {
                        if j == pre.len() {
                            assert(t1[i] == pre[i]);
                            assert(!pre.contains(v));
                        }
                    }
                }
            },
            None => {},
        }
    }
}

/// Every non-null input string appears among the distinct strings.
pub proof fn lemma_distinct_strs_contains(inp: Seq<Option<Seq<char>>>, p: int)
    requires
        0 <= p < inp.len(),
        inp[p] is Some,
    ensures
        distinct_strs(inp).contains(inp[p]->0),
    decreases inp.len(),
{
    let pre = distinct_strs(inp.drop_last());
    if p == inp.len() - 1 {
        let v = inp[p]->0;
        if pre.contains(v) {
        } else {
            assert(pre.push(v)[pre.len() as int] == v);
        }
    } else {
        lemma_distinct_strs_contains(inp.drop_last(), p);
        let v = inp[p]->0;
        assert(pre.contains(v));
        let i = choose|i: int| 0 <= i < pre.len() && pre[i] == v;
        match inp.last() {
            Some(w) => {
                if !pre.contains(w) {
                    assert(pre.push(w)[i] == v);
                }
            },
            None => {},
        }
    }
}

/// An all-null input stream has no distinct strings at all.
pub proof fn lemma_distinct_strs_all_null(inp: Seq<Option<Seq<char>>>)
    requires
        forall|p: int| 0 <= p < inp.len() ==> (#[trigger] inp[p]) is None,
    ensures
        distinct_strs(inp).len() == 0,
    decreases inp.len(),
{
    if inp.len() > 0 {
        assert(inp[inp.len() - 1] is None);
        lemma_distinct_strs_all_null(inp.drop_last());
    }
}

/// Determinism of local encoding: any two local encodings of one input are
/// equal, code array and value array alike. Encoding the same stream twice
/// with fresh builders therefore yields identical results.
pub proof fn lemma_local_encoding_deterministic(
    inp: Seq<Option<Seq<char>>>,
    codes1: Seq<Option<u32>>,
    vals1: Seq<Seq<char>>,
    codes2: Seq<Option<u32>>,
    vals2: Seq<Seq<char>>,
)
    requires
        is_local_encoding(inp, codes1, vals1),
        is_local_encoding(inp, codes2, vals2),
    ensures
        codes1 == codes2,
        vals1 == vals2,
{
    lemma_distinct_strs_distinct(inp);
    assert forall|p: int| 0 <= p < inp.len() implies codes1[p] == codes2[p] by {
        match inp[p] {
            Some(v) => {
                let c1 = codes1[p]->0;
                let c2 = codes2[p]->0;
                assert(vals1[c1 as int] == v && vals1[c2 as int] == v);
            },
            None => {},
        }
    }
    assert(codes1 =~= codes2);
}

/// A builder that turns one stream of optional strings into a code array
/// and a reverse mapping. It lives for one encode-then-finish sequence.
pub struct CategoricalChunkedBuilder {
    pub cat_builder: Vec<Option<u32>>,
    pub name: String,
    pub reverse_mapping: RevMappingBuilder,
}

impl CategoricalChunkedBuilder {
    /// The code array built so far.
    pub open spec fn codes(&self) -> Seq<Option<u32>> {
        self.cat_builder@
    }

    /// A builder that has not consumed anything yet.
    pub open spec fn is_fresh(&self) -> bool {
        &&& self.cat_builder@.len() == 0
        &&& self.reverse_mapping is Local
        &&& self.reverse_mapping.vals().len() == 0
    }

    /// A fresh builder for a column of the given name; the capacity is only
    /// a sizing hint.
    pub fn new(name: &str, capacity: usize) -> (b: Self)
        ensures
            b.is_fresh(),
            b.name@ == name@,
    {
        let values: Vec<String> = Vec::with_capacity(capacity / 10);
        CategoricalChunkedBuilder {
            cat_builder: Vec::with_capacity(capacity),
            name: name.to_owned(),
            reverse_mapping: RevMappingBuilder::Local(values),
        }
    }

    /// Local-only encoding of one stream: deduplicate through a transient
    /// hash map, assign dense codes in order of first appearance, keep nulls
    /// null. With `store_hashes` the hash of each distinct value is logged,
    /// in value order, for a later reconciliation against the global table.
    /// Fails exactly when the stream holds more distinct strings than the
    /// code space.
    pub fn build_local_map(&mut self, input: &Vec<Option<String>>, store_hashes: bool) -> (r:
        Result<Vec<u64>, CapacityOverflow>)
        requires
            old(self).is_fresh(),
        ensures
            final(self).name@ == old(self).name@,
            r is Err <==> distinct_strs(opt_views(input@)).len() > MAX_CATEGORIES as int,
            match r {
                Ok(hashes) => {
                    &&& final(self).reverse_mapping is Local
                    &&& final(self).reverse_mapping.vals().len() <= MAX_CATEGORIES as int
                    &&& is_local_encoding(
                        opt_views(input@),
                        final(self).codes(),
                        final(self).reverse_mapping.vals(),
                    )
                    &&& store_hashes ==> hashes@.len() == final(self).reverse_mapping.vals().len()
                        && (forall|i: int|
                        0 <= i < hashes@.len() ==> hashes@[i] == str_hash(
                            #[trigger] final(self).reverse_mapping.vals()[i],
                        ))
                    &&& !store_hashes ==> hashes@.len() == 0
                },
                Err(_) => true,
            },
    {
        let ghost iv = opt_views(input@);
        let mut hashes: Vec<u64> = Vec::new();
        let mut dedup = DedupTable::new();
        let mut p: usize = 0;
        while p < input.len()
            invariant
                p <= input.len(),
                iv == opt_views(input@),
                iv.len() == input@.len(),
                dedup.wf(),
                dedup.strs() == distinct_strs(iv.take(p as int)),
                self.reverse_mapping is Local,
                self.reverse_mapping.vals() == dedup.strs(),
                self.name@ == old(self).name@,
                self.cat_builder@.len() == p,
                forall|q: int|
                    0 <= q < p ==> ((#[trigger] self.cat_builder@[q]) is None <==> iv[q] is None),
                forall|q: int|
                    0 <= q < p ==> ((#[trigger] iv[q]) matches Some(v) ==> (
                    self.cat_builder@[q] matches Some(c) && (c as int) < dedup.strs().len()
                        && dedup.strs()[c as int] == v)),
                store_hashes ==> hashes@.len() == dedup.strs().len() && (forall|i: int|
                    0 <= i < hashes@.len() ==> hashes@[i] == str_hash(
                        #[trigger] dedup.strs()[i],
                    )),
                !store_hashes ==> hashes@.len() == 0,
            decreases input.len() - p,
        {
            let ghost pre_strs = dedup.strs();
            proof {
                assert(iv.take(p + 1 as int).drop_last() =~= iv.take(p as int));
                assert(iv.take(p + 1 as int).last() == iv[p as int]);
            }
            match &input[p] {
                Some(s) => {
                    let h = hash_str(s.as_str());
                    let before = dedup.values.len();
                    let c = match dedup.get_or_insert(s.as_str(), h) {
                        Ok(c) => c,
                        Err(e) => {
                            proof {
                                assert(iv[p as int] == Some(s@));
                                assert(!pre_strs.contains(s@) && pre_strs.len()
                                    == MAX_CATEGORIES as int);
                                assert(distinct_strs(iv.take(p + 1 as int)) == pre_strs.push(s@));
                                lemma_distinct_strs_prefix_len(iv, p + 1 as int);
                            }
                            return Err(e);
                        },
                    };
                    if c as usize == before {
                        self.reverse_mapping.insert(s.as_str());
                        if store_hashes {
                            hashes.push(h);
                        }
                        proof {
                            assert(dedup.strs() =~= pre_strs.push(s@));
                            assert(self.reverse_mapping.vals() =~= dedup.strs());
                        }
                    } else {
                        proof {
                            assert(pre_strs.contains(s@));
                            assert(dedup.strs() == pre_strs);
                        }
                    }
                    self.cat_builder.push(Some(c));
                    proof {
                        assert(iv[p as int] == Some(s@));
                        assert(dedup.strs() == distinct_strs(iv.take(p + 1 as int)));
                        assert(dedup.strs()[c as int] == s@);
                    }
                },
                None => {
                    self.cat_builder.push(None);
                    proof {
                        assert(iv[p as int] is None);
                        assert(dedup.strs() == distinct_strs(iv.take(p + 1 as int)));
                    }
                },
            }
            p = p + 1;
        }
        proof {
            assert(iv.take(input@.len() as int) =~= iv);
        }
        Ok(hashes)
    }
}

/// Register each value with the interning table, in order, reusing the
/// hashes logged while the values were collected. Returns the
/// local-to-global translation: entry `i` is the global code of value `i`.
/// One call holds the table for the whole batch, so the values are
/// registered in first-appearance order. Fails exactly when the table would
/// outgrow the code space; the values registered before the failure remain.
/// One step of batch interning: registering value `i` moves the fold
/// equation one element forward.
proof fn lemma_fold_step(
    t0: Seq<Seq<char>>,
    vs: Seq<Seq<char>>,
    i: int,
    pre: Seq<Seq<char>>,
    post: Seq<Seq<char>>,
)
    requires
        0 <= i < vs.len(),
        intern_fold(t0, vs) == intern_fold(pre, vs.subrange(i, vs.len() as int)),
        post == intern_step(pre, vs[i]),
    ensures
        intern_fold(t0, vs) == intern_fold(post, vs.subrange(i + 1, vs.len() as int)),
{
    let rest = vs.subrange(i, vs.len() as int);
    assert(rest[0] == vs[i]);
    assert(rest.subrange(1, rest.len() as int) =~= vs.subrange(i + 1, vs.len() as int));
    assert(intern_fold(pre, rest) == intern_fold(
        intern_step(pre, rest[0]),
        rest.subrange(1, rest.len() as int),
    ));
}

/// If the table is full and the next value is new, the whole batch cannot
/// be interned within the code space.
proof fn lemma_fold_overflow(t0: Seq<Seq<char>>, vs: Seq<Seq<char>>, i: int, pre: Seq<Seq<char>>)
    requires
        0 <= i < vs.len(),
        intern_fold(t0, vs) == intern_fold(pre, vs.subrange(i, vs.len() as int)),
        !pre.contains(vs[i]),
        pre.len() == MAX_CATEGORIES as int,
    ensures
        intern_fold(t0, vs).len() > MAX_CATEGORIES as int,
{
    lemma_fold_step(t0, vs, i, pre, intern_step(pre, vs[i]));
    assert(intern_step(pre, vs[i]).len() == pre.len() + 1);
    crate::intern::lemma_intern_fold_extends(
        intern_step(pre, vs[i]),
        vs.subrange(i + 1, vs.len() as int),
    );
}

#[verifier::spinoff_prover]
#[verifier::rlimit(100)]
#[verifier::loop_isolation(false)]
fn reconcile(cache: &mut StringInternTable, values: &Vec<String>, hashes: &Vec<u64>) -> (r: Result<
    Vec<u32>,
    CapacityOverflow,
>)
    requires
        old(cache).wf(),
        hashes@.len() == values@.len(),
        forall|i: int|
            0 <= i < hashes@.len() ==> hashes@[i] == str_hash(#[trigger] views_of(values@)[i]),
    ensures
        final(cache).wf(),
        final(cache).epoch == old(cache).epoch,
        r is Err <==> intern_fold(old(cache).strs(), views_of(values@)).len()
            > MAX_CATEGORIES as int,
        match r {
            Ok(l2g) => {
                &&& final(cache).strs() == intern_fold(old(cache).strs(), views_of(values@))
                &&& l2g@.len() == values@.len()
                &&& forall|i: int|
                    0 <= i < l2g@.len() ==> ((#[trigger] l2g@[i]) as int)
                        < final(cache).strs().len()
                        && final(cache).strs()[l2g@[i] as int] == views_of(values@)[i]
            },
            Err(_) => true,
        },
{
    let ghost t0 = cache.strs();
    let ghost vs = views_of(values@);
    let mut local_to_global: Vec<u32> = Vec::with_capacity(values.len());
    let mut i: usize = 0;
    proof {
        assert(vs.subrange(0, vs.len() as int) =~= vs);
    }
    while i < values.len()
        invariant
            i <= values.len(),
            vs == views_of(values@),
            vs.len() == values@.len(),
            hashes@.len() == values@.len(),
            forall|k: int|
                0 <= k < hashes@.len() ==> hashes@[k] == str_hash(#[trigger] views_of(values@)[k]),
            cache.wf(),
            cache.epoch == old(cache).epoch,
            intern_fold(t0, vs) == intern_fold(cache.strs(), vs.subrange(i as int, vs.len() as int)),
            local_to_global@.len() == i,
            forall|j: int|
                0 <= j < i ==> ((#[trigger] local_to_global@[j]) as int) < cache.strs().len()
                    && cache.strs()[local_to_global@[j] as int] == vs[j],
        decreases values.len() - i,
    {
        let ghost pre = cache.strs();
        let s = &values[i];
        let g = match cache.get_or_insert(s.as_str(), hashes[i]) {
            Ok(g) => g,
            Err(e) => {
                proof {
                    assert(vs[i as int] == values@[i as int]@);
                    lemma_fold_overflow(t0, vs, i as int, pre);
                }
                return Err(e);
            },
        };
        local_to_global.push(g);
        i = i + 1;
        proof {
            assert(vs[i as int - 1] == values@[i as int - 1]@);
            assert(cache.strs() == intern_step(pre, vs[i as int - 1]));
            lemma_fold_step(t0, vs, i as int - 1, pre, cache.strs());
            assert forall|j: int|
                0 <= j < i implies ((#[trigger] local_to_global@[j]) as int) < cache.strs().len()
                && cache.strs()[local_to_global@[j] as int] == vs[j] by {
                if j < i - 1 {
                    assert(pre[local_to_global@[j] as int] == vs[j]);
                    assert(cache.strs()[local_to_global@[j] as int] == pre[
                        local_to_global@[j] as int
                    ]);
                }
            }
        }
    }
    proof {
        assert(vs.subrange(vs.len() as int, vs.len() as int) =~= Seq::<Seq<char>>::empty());
        assert(intern_fold(cache.strs(), Seq::<Seq<char>>::empty()) == cache.strs());
    }
    Ok(local_to_global)
}

/// Build the inverse of a local-to-global translation: the map sending each
/// global code back to its local index. The translation's entries are
/// pairwise distinct by construction, so plain insertion never overwrites.
fn fill_global_to_local(local_to_global: &Vec<u32>) -> (m: CodeMap)
    requires
        local_to_global@.len() <= u32::MAX as int,
        forall|i: int, j: int|
            0 <= i < j < local_to_global@.len() ==> local_to_global@[i] != local_to_global@[j],
    ensures
        forall|g: u32, li: u32| #[trigger]
            code_pairs(m).contains_pair(g, li) <==> ((li as int) < local_to_global@.len()
                && local_to_global@[li as int] == g),
{
    let mut m = CodeMap::with_capacity(local_to_global.len());
    let mut i: usize = 0;
    while i < local_to_global.len()
        invariant
            i <= local_to_global@.len(),
            local_to_global@.len() <= u32::MAX as int,
            forall|a: int, b: int|
                0 <= a < b < local_to_global@.len() ==> local_to_global@[a]
                    != local_to_global@[b],
            forall|g: u32, li: u32| #[trigger]
                code_pairs(m).contains_pair(g, li) <==> ((li as int) < i
                    && local_to_global@[li as int] == g),
        decreases local_to_global@.len() - i,
    {
        let ghost m0 = code_pairs(m);
        let g_new = local_to_global[i];
        m.insert(g_new, i as u32);
        proof {
            assert forall|g: u32, li: u32| #[trigger]
                code_pairs(m).contains_pair(g, li) <==> ((li as int) < i + 1
                    && local_to_global@[li as int] == g) by {
                if g == g_new {
                    assert(code_pairs(m)[g] == i as u32);
                    if (li as int) < i && local_to_global@[li as int] == g {
                        assert(local_to_global@[li as int] != local_to_global@[i as int]);
                    }
                } else {
                    assert(code_pairs(m).contains_pair(g, li) == m0.contains_pair(g, li));
                }
            }
        }
        i = i + 1;
    }
    m
}

/// A longer prefix never has fewer distinct strings, and whatever distinct
/// strings a prefix reaches, the whole stream reaches at least as many.
pub proof fn lemma_distinct_strs_prefix_len(inp: Seq<Option<Seq<char>>>, k: int)
    requires
        0 <= k <= inp.len(),
    ensures
        distinct_strs(inp.take(k)).len() <= distinct_strs(inp).len(),
    decreases inp.len() - k,
{
    if k < inp.len() {
        assert(inp.take(k + 1).drop_last() =~= inp.take(k));
        assert(inp.take(k + 1).last() == inp[k]);
        assert(distinct_strs(inp.take(k)).len() <= distinct_strs(inp.take(k + 1)).len());
        lemma_distinct_strs_prefix_len(inp, k + 1);
    } else {
        assert(inp.take(k) =~= inp);
    }
}

impl CategoricalChunkedBuilder {
    /// Global reconciliation: encode locally with hash logging, then, in one
    /// critical section on the interning table, register every distinct
    /// value in first-appearance order, and finally rewrite the local codes
    /// to the global ones and build the inverse translation table. Fails
    /// exactly when the column, or the table with the column's values added,
    /// would hold more distinct strings than the code space.
    #[verifier::spinoff_prover]
    #[verifier::rlimit(100)]
    #[verifier::loop_isolation(false)]
    pub fn build_global_map_contention(
        &mut self,
        input: &Vec<Option<String>>,
        cache: &mut StringInternTable,
    ) -> (r: Result<(), CapacityOverflow>)
        requires
            old(self).is_fresh(),
            old(cache).wf(),
        ensures
            final(cache).wf(),
            final(cache).epoch == old(cache).epoch,
            final(self).name@ == old(self).name@,
            r is Err <==> (distinct_strs(opt_views(input@)).len() > MAX_CATEGORIES as int
                || intern_fold(
                old(cache).strs(),
                distinct_strs(opt_views(input@)),
            ).len() > MAX_CATEGORIES as int),
            match r {
                Ok(_) => {
                    &&& final(cache).strs() == intern_fold(
                        old(cache).strs(),
                        distinct_strs(opt_views(input@)),
                    )
                    &&& final(self).reverse_mapping matches RevMappingBuilder::GlobalFinished(
                        m,
                        a,
                        e,
                    ) && e == final(cache).epoch && is_global_encoding(
                        opt_views(input@),
                        final(self).codes(),
                        views_of(a@),
                        code_pairs(m),
                        final(cache).strs(),
                    )
                },
                Err(_) => true,
            },
    {
        let ghost iv = opt_views(input@);
        let hashes = match self.build_local_map(input, true) {
            Ok(h) => h,
            Err(e) => {
                return Err(e);
            },
        };
        let mut rm = RevMappingBuilder::Local(Vec::new());
        core::mem::swap(&mut rm, &mut self.reverse_mapping);
        let values: Vec<String> = match rm {
            RevMappingBuilder::Local(v) => v,
            RevMappingBuilder::GlobalFinished(_, v, _) => {
                proof {
                    assert(false);
                }
                v
            },
        };
        proof {
            assert(views_of(values@) == distinct_strs(iv));
        }
        let ghost t0 = cache.strs();
        let l2g = match reconcile(cache, &values, &hashes) {
            Ok(x) => x,
            Err(e) => {
                return Err(e);
            },
        };
        proof {
            lemma_distinct_strs_distinct(iv);
            assert forall|a: int, b: int|
                0 <= a < b < l2g@.len() implies l2g@[a] != l2g@[b] by {
                assert(cache.strs()[l2g@[a] as int] == views_of(values@)[a]);
                assert(cache.strs()[l2g@[b] as int] == views_of(values@)[b]);
            }
        }
        let g2l = fill_global_to_local(&l2g);
        let ghost lcodes = self.cat_builder@;
        let mut p: usize = 0;
        while p < self.cat_builder.len()
            invariant
                self.name@ == old(self).name@,
                self.cat_builder@.len() == lcodes.len(),
                p <= lcodes.len(),
                forall|q: int| p <= q < lcodes.len() ==> self.cat_builder@[q] == lcodes[q],
                forall|q: int|
                    0 <= q < p ==> #[trigger] self.cat_builder@[q] == (match lcodes[q] {
                        Some(c) => Some(l2g@[c as int]),
                        None => None::<u32>,
                    }),
            decreases lcodes.len() - p,
        {
            let code_here = self.cat_builder[p];
            match code_here {
                Some(c) => {
                    let g = l2g[c as usize];
                    self.cat_builder.set(p, Some(g));
                },
                None => {},
            }
            p = p + 1;
        }
        let epoch_now = cache.epoch;
        self.reverse_mapping = RevMappingBuilder::GlobalFinished(g2l, values, epoch_now);
        proof {
            let table = cache.strs();
            let vals = views_of(values@);
            assert forall|li: int| 0 <= li < vals.len() implies table.contains(
                #[trigger] vals[li],
            ) by {
                assert(table[l2g@[li] as int] == vals[li]);
            }
            assert forall|g: u32, li: u32| #[trigger]
                code_pairs(g2l).contains_pair(g, li) <==> ((li as int) < vals.len() && (
                g as int) < table.len() && table[g as int] == vals[li as int]) by {
                if (li as int) < vals.len() && (g as int) < table.len() && table[g as int]
                    == vals[li as int] {
                    let g1 = l2g@[li as int];
                    assert(table[g1 as int] == vals[li as int]);
                    assert(g1 == g);
                }
            }
            assert forall|q: int|
                0 <= q < iv.len() implies ((#[trigger] iv[q]) matches Some(v) ==> (
                self.cat_builder@[q] matches Some(g) && (g as int) < table.len() && table[
                    g as int
                ] == v)) by {
                if iv[q] is Some {
                    let c = lcodes[q]->0;
                    assert(vals[c as int] == iv[q]->0);
                    assert(table[l2g@[c as int] as int] == vals[c as int]);
                }
            }
        }
        Ok(())
    }

    /// The equivalent reconciliation starting from an already finished local
    /// encoding: `keys` are local codes into `values`. Used when promoting
    /// an existing local encoding instead of building fresh. Replaces the
    /// builder's code array with the globally rewritten one.
    #[verifier::spinoff_prover]
    #[verifier::rlimit(100)]
    #[verifier::loop_isolation(false)]
    pub fn global_map_from_local(
        &mut self,
        keys: &Vec<Option<u32>>,
        values: Vec<String>,
        cache: &mut StringInternTable,
    ) -> (r: Result<(), CapacityOverflow>)
        requires
            old(cache).wf(),
            distinct_seq(views_of(values@)),
            values@.len() <= u32::MAX as int,
            forall|p: int|
                0 <= p < keys@.len() ==> ((#[trigger] keys@[p]) matches Some(c) ==> (c as int)
                    < values@.len()),
        ensures
            final(cache).wf(),
            final(cache).epoch == old(cache).epoch,
            final(self).name@ == old(self).name@,
            r is Err <==> intern_fold(old(cache).strs(), views_of(values@)).len()
                > MAX_CATEGORIES as int,
            match r {
                Ok(_) => {
                    &&& final(cache).strs() == intern_fold(
                        old(cache).strs(),
                        views_of(values@),
                    )
                    &&& final(self).codes().len() == keys@.len()
                    &&& forall|p: int|
                        0 <= p < keys@.len() ==> ((#[trigger] final(self).codes()[p]) is None
                            <==> keys@[p] is None)
                    &&& forall|p: int|
                        0 <= p < keys@.len() ==> ((#[trigger] keys@[p]) matches Some(c) ==> (
                        final(self).codes()[p] matches Some(g) && (g as int) < final(cache).strs().len() && final(cache).strs()[g as int] == views_of(
                            values@,
                        )[c as int]))
                    &&& final(self).reverse_mapping matches RevMappingBuilder::GlobalFinished(
                        m,
                        a,
                        e,
                    ) && e == final(cache).epoch && views_of(a@) == views_of(values@) && (
                    forall|g: u32, li: u32| #[trigger]
                        code_pairs(m).contains_pair(g, li) <==> ((li as int) < views_of(
                            values@,
                        ).len() && (g as int) < final(cache).strs().len() && final(cache).strs()[g as int] == views_of(values@)[li as int]))
                },
                Err(_) => true,
            },
    {
        let ghost vals = views_of(values@);
        let mut hashes: Vec<u64> = Vec::with_capacity(values.len());
        let mut i: usize = 0;
        while i < values.len()
            invariant
                i <= values.len(),
                hashes@.len() == i,
                forall|k: int|
                    0 <= k < i ==> hashes@[k] == str_hash(#[trigger] views_of(values@)[k]),
            decreases values.len() - i,
        {
            let h = hash_str(values[i].as_str());
            hashes.push(h);
            i = i + 1;
        }
        let ghost t0 = cache.strs();
        let l2g = match reconcile(cache, &values, &hashes) {
            Ok(x) => x,
            Err(e) => {
                return Err(e);
            },
        };
        proof {
            assert forall|a: int, b: int|
                0 <= a < b < l2g@.len() implies l2g@[a] != l2g@[b] by {
                assert(cache.strs()[l2g@[a] as int] == vals[a]);
                assert(cache.strs()[l2g@[b] as int] == vals[b]);
            }
        }
        let g2l = fill_global_to_local(&l2g);
        let mut cats: Vec<Option<u32>> = Vec::with_capacity(keys.len());
        let mut p: usize = 0;
        while p < keys.len()
            invariant
                p <= keys@.len(),
                cats@.len() == p,
                forall|q: int|
                    0 <= q < p ==> #[trigger] cats@[q] == (match keys@[q] {
                        Some(c) => Some(l2g@[c as int]),
                        None => None::<u32>,
                    }),
            decreases keys@.len() - p,
        {
            let code_here = keys[p];
            match code_here {
                Some(c) => {
                    cats.push(Some(l2g[c as usize]));
                },
                None => {
                    cats.push(None);
                },
            }
            p = p + 1;
        }
        self.cat_builder = cats;
        let epoch_now = cache.epoch;
        self.reverse_mapping = RevMappingBuilder::GlobalFinished(g2l, values, epoch_now);
        proof {
            let table = cache.strs();
            assert forall|g: u32, li: u32| #[trigger]
                code_pairs(g2l).contains_pair(g, li) <==> ((li as int) < vals.len() && (
                g as int) < table.len() && table[g as int] == vals[li as int]) by {
                if (li as int) < vals.len() && (g as int) < table.len() && table[g as int]
                    == vals[li as int] {
                    let g1 = l2g@[li as int];
                    assert(table[g1 as int] == vals[li as int]);
                    assert(g1 == g);
                }
            }
        }
        Ok(())
    }

    /// Mode selection for one batch: reconcile against the interning table
    /// when global interning is enabled, encode purely locally otherwise.
    /// The flag is read once per call, so a batch is atomic with respect to
    /// enabling or disabling the cache.
    pub fn drain_iter(
        &mut self,
        input: &Vec<Option<String>>,
        use_string_cache: bool,
        cache: &mut StringInternTable,
    ) -> (r: Result<(), CapacityOverflow>)
        requires
            old(self).is_fresh(),
            old(cache).wf(),
        ensures
            final(cache).wf(),
            final(cache).epoch == old(cache).epoch,
            final(self).name@ == old(self).name@,
            !use_string_cache ==> *final(cache) == *old(cache),
            !use_string_cache ==> (r is Err <==> distinct_strs(opt_views(input@)).len()
                > MAX_CATEGORIES as int),
            !use_string_cache && r is Ok ==> final(self).reverse_mapping is Local
                && is_local_encoding(
                opt_views(input@),
                final(self).codes(),
                final(self).reverse_mapping.vals(),
            ) && final(self).reverse_mapping.vals().len() <= MAX_CATEGORIES as int,
            use_string_cache ==> (r is Err <==> (distinct_strs(opt_views(input@)).len()
                > MAX_CATEGORIES as int || intern_fold(
                old(cache).strs(),
                distinct_strs(opt_views(input@)),
            ).len() > MAX_CATEGORIES as int)),
            use_string_cache && r is Ok ==> final(cache).strs() == intern_fold(
                old(cache).strs(),
                distinct_strs(opt_views(input@)),
            ) && (final(self).reverse_mapping matches RevMappingBuilder::GlobalFinished(m, a, e)
                && e == final(cache).epoch && is_global_encoding(
                opt_views(input@),
                final(self).codes(),
                views_of(a@),
                code_pairs(m),
                final(cache).strs(),
            )),
    {
        if use_string_cache {
            self.build_global_map_contention(input, cache)
        } else {
            match self.build_local_map(input, false) {
                Ok(_) => Ok(()),
                Err(e) => Err(e),
            }
        }
    }

    /// Consume the builder, yielding the owned code array and the finalized
    /// reverse mapping; a Local value array is frozen at this point.
    pub fn finish(self) -> (r: (Vec<Option<u32>>, RevMapping))
        ensures
            r.0@ == self.codes(),
            r.1.vals() == self.reverse_mapping.vals(),
            self.reverse_mapping is Local ==> r.1 is Local,
            self.reverse_mapping matches RevMappingBuilder::GlobalFinished(m, _, e) ==> (r.1
                matches RevMapping::Global(m2, _, e2) && m2 == m && e2 == e),
    {
        let CategoricalChunkedBuilder { cat_builder, name: _, reverse_mapping } = self;
        (cat_builder, reverse_mapping.finish())
    }
}

/// A global encoding yields a well-formed Global reverse mapping: its
/// translation is a bijection between the global codes of the column's
/// values and the local indexes.
pub proof fn lemma_global_encoding_wf(
    inp: Seq<Option<Seq<char>>>,
    codes: Seq<Option<u32>>,
    rm: RevMapping,
    table: Seq<Seq<char>>,
)
    requires
        rm is Global,
        rm.vals().len() <= u32::MAX as int,
        table.len() <= u32::MAX as int,
        distinct_seq(table),
        is_global_encoding(inp, codes, rm.vals(), rm.translation(), table),
    ensures
        rm.wf(),
{
    lemma_distinct_strs_distinct(inp);
    let m = rm.translation();
    let vals = rm.vals();
    assert forall|g: u32| #[trigger]
        m.contains_key(g) implies (m[g] as int) < vals.len() by {
        assert(m.contains_pair(g, m[g]));
    }
    assert forall|g1: u32, g2: u32|
        m.contains_key(g1) && m.contains_key(g2) && m[g1] == m[g2] implies g1 == g2 by {
        assert(m.contains_pair(g1, m[g1]));
        assert(m.contains_pair(g2, m[g2]));
        assert(table[g1 as int] == vals[m[g1] as int]);
        assert(table[g2 as int] == vals[m[g2] as int]);
    }
    assert forall|li: int| 0 <= li < vals.len() implies #[trigger]
        crate::revmap::covers(rm->Global_0, li) by {
        assert(table.contains(vals[li]));
        let k = choose|k: int| 0 <= k < table.len() && table[k] == vals[li];
        assert(m.contains_pair(k as u32, li as u32));
    }
}

/// Round trip, local form: every code a local encoding produced looks up to
/// the very string that produced it, and `find` on that string returns that
/// same code.
pub proof fn lemma_round_trip_local(
    inp: Seq<Option<Seq<char>>>,
    codes: Seq<Option<u32>>,
    rm: RevMapping,
    p: int,
)
    requires
        rm is Local,
        rm.vals().len() <= u32::MAX as int,
        is_local_encoding(inp, codes, rm.vals()),
        0 <= p < inp.len(),
        inp[p] is Some,
    ensures
        codes[p] matches Some(c) && rm.in_range(c) && rm.spec_lookup(c) == inp[p]->0
            && rm.spec_find(inp[p]->0) == Some(c),
{
    lemma_distinct_strs_distinct(inp);
    let c = codes[p]->0;
    let v = inp[p]->0;
    assert(rm.vals()[c as int] == v);
    assert(rm.vals().contains(v));
    crate::revmap::lemma_idx_of_unique(rm.vals(), v, c as int);
}

/// Round trip, global form: every global code a global encoding produced
/// looks up, through the translation table, to the very string that
/// produced it, and `find` on that string returns that same global code.
pub proof fn lemma_round_trip_global(
    inp: Seq<Option<Seq<char>>>,
    codes: Seq<Option<u32>>,
    rm: RevMapping,
    table: Seq<Seq<char>>,
    p: int,
)
    requires
        rm is Global,
        rm.vals().len() <= u32::MAX as int,
        table.len() <= u32::MAX as int,
        distinct_seq(table),
        is_global_encoding(inp, codes, rm.vals(), rm.translation(), table),
        0 <= p < inp.len(),
        inp[p] is Some,
    ensures
        codes[p] matches Some(g) && rm.in_range(g) && rm.spec_lookup(g) == inp[p]->0
            && rm.spec_find(inp[p]->0) == Some(g),
{
    lemma_global_encoding_wf(inp, codes, rm, table);
    lemma_distinct_strs_distinct(inp);
    lemma_distinct_strs_contains(inp, p);
    let m = rm.translation();
    let vals = rm.vals();
    let g = codes[p]->0;
    let v = inp[p]->0;
    assert(vals.contains(v));
    crate::revmap::lemma_idx_of(vals, v);
    let li = crate::revmap::idx_of(vals, v);
    assert(vals[li] == v);
    assert(m.contains_pair(g, li as u32));
    assert(rm.in_range(g));
    assert(m[g] == li as u32);
    assert(rm.spec_lookup(g) == v);
    let g0 = choose|g0: u32| #[trigger] m.contains_pair(g0, li as u32);
    assert(m[g0] == m[g]);
    assert(g0 == g);
}

/// Global consistency across builders: two encodings made under one
/// interning table, the second starting from the table state the first left
/// behind, assign the same global code to any string that appears in both,
/// because a string's code never moves once the string is interned.
pub proof fn lemma_global_consistency(
    inp1: Seq<Option<Seq<char>>>,
    codes1: Seq<Option<u32>>,
    vals1: Seq<Seq<char>>,
    g2l1: Map<u32, u32>,
    t1: Seq<Seq<char>>,
    inp2: Seq<Option<Seq<char>>>,
    codes2: Seq<Option<u32>>,
    vals2: Seq<Seq<char>>,
    g2l2: Map<u32, u32>,
    t2: Seq<Seq<char>>,
    p1: int,
    p2: int,
)
    requires
        is_global_encoding(inp1, codes1, vals1, g2l1, t1),
        is_global_encoding(inp2, codes2, vals2, g2l2, t2),
        prefix_of(t1, t2),
        distinct_seq(t2),
        0 <= p1 < inp1.len(),
        0 <= p2 < inp2.len(),
        inp1[p1] is Some,
        inp2[p2] is Some,
        inp1[p1]->0 == inp2[p2]->0,
    ensures
        codes1[p1] == codes2[p2],
{
    let g1 = codes1[p1]->0;
    let g2 = codes2[p2]->0;
    crate::intern::lemma_global_code_stable(t1, t2, g1, g2, inp1[p1]->0);
}

/// A local encoding yields a well-formed Local reverse mapping.
pub proof fn lemma_local_encoding_wf(
    inp: Seq<Option<Seq<char>>>,
    codes: Seq<Option<u32>>,
    rm: RevMapping,
)
    requires
        rm is Local,
        rm.vals().len() <= u32::MAX as int,
        is_local_encoding(inp, codes, rm.vals()),
    ensures
        rm.wf(),
{
    lemma_distinct_strs_distinct(inp);
}

} // verus!
