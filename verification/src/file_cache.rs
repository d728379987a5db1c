//! The single-flight scan-result cache.
//!
//! A cache entry is keyed by an opaque scan fingerprint and pre-seeded with
//! the number of logical consumers that will read it. The first arrival runs
//! the reader and stores the result; later arrivals share it; the last
//! arrival takes the stored result out, releasing it immediately. A plan
//! node with exactly one consumer bypasses the cache entirely.

use std::sync::Arc;
use vstd::pervasive::VecAdditionalExecFns;
use vstd::prelude::*;

verus! {

/// One cache slot: how many consumers have arrived so far, and the stored
/// result, if any.
pub struct CacheEntry<T> {
    pub count: u32,
    pub stored: Option<Arc<T>>,
}

/// The cache: a slot per registered fingerprint. All access is serialized by
/// the caller; one exclusive reference stands for the per-entry lock.
pub struct FileCache<T> {
    pub fingerprints: Vec<u64>,
    pub entries: Vec<CacheEntry<T>>,
}

/// Find the position of a fingerprint in a key list.
fn find_index(v: &Vec<u64>, fp: u64) -> (r: Option<usize>)
    ensures
        match r {
            Some(i) => i < v@.len() && v@[i as int] == fp,
            None => !v@.contains(fp),
        },
{
    let mut i: usize = 0;
    while i < v.len()
        invariant
            i <= v@.len(),
            forall|j: int| 0 <= j < i ==> v@[j] != fp,
        decreases v@.len() - i,
    {
        if v[i] == fp {
            return Some(i);
        }
        i = i + 1;
    }
    None
}

/// Relies on `std::sync::Arc::clone`: the clone refers to the very same
/// value.
#[verifier::external_body]
fn arc_clone<T>(a: &Arc<T>) -> (r: Arc<T>)
    ensures
        r == *a,
{
    Arc::clone(a)
}

impl<T: core::default::Default> FileCache<T> {
    /// Registered fingerprints are unique.
    pub open spec fn wf(&self) -> bool {
        &&& self.fingerprints@.len() == self.entries@.len()
        &&& forall|i: int, j: int|
            0 <= i < j < self.fingerprints@.len() ==> self.fingerprints@[i]
                != self.fingerprints@[j]
    }

    /// Whether a fingerprint was pre-registered.
    pub open spec fn has_entry(&self, fp: u64) -> bool {
        self.fingerprints@.contains(fp)
    }

    /// The slot position of a registered fingerprint.
    pub open spec fn fp_index(&self, fp: u64) -> int {
        choose|i: int| 0 <= i < self.fingerprints@.len() && self.fingerprints@[i] == fp
    }

    /// A cache with one zero-arrival, empty slot per given fingerprint, or
    /// an empty cache when no set is given (any later lookup of an
    /// unregistered fingerprint is then a contract violation).
    #[verifier::loop_isolation(false)]
    pub fn new(finger_prints: Option<Vec<u64>>) -> (c: Self)
        ensures
            c.wf(),
            match finger_prints {
                Some(fps) => forall|fp: u64| #[trigger] c.has_entry(fp) <==> fps@.contains(fp),
                None => c.fingerprints@.len() == 0,
            },
            forall|i: int|
                0 <= i < c.entries@.len() ==> (#[trigger] c.entries@[i]).count == 0
                    && c.entries@[i].stored is None,
    {
        match finger_prints {
            None => FileCache { fingerprints: Vec::new(), entries: Vec::new() },
            Some(fps) => {
                let mut fingerprints: Vec<u64> = Vec::with_capacity(fps.len());
                let mut entries: Vec<CacheEntry<T>> = Vec::with_capacity(fps.len());
                let mut i: usize = 0;
                while i < fps.len()
                    invariant
                        i <= fps@.len(),
                        fingerprints@.len() == entries@.len(),
                        forall|a: int, b: int|
                            0 <= a < b < fingerprints@.len() ==> fingerprints@[a]
                                != fingerprints@[b],
                        forall|f: u64| #[trigger]
                            fingerprints@.contains(f) ==> fps@.contains(f),
                        forall|k: int|
                            0 <= k < i ==> fingerprints@.contains(#[trigger] fps@[k]),
                        forall|k: int|
                            0 <= k < entries@.len() ==> (#[trigger] entries@[k]).count == 0
                                && entries@[k].stored is None,
                    decreases fps@.len() - i,
                {
                    let ghost pre = fingerprints@;
                    let fp = fps[i];
                    match find_index(&fingerprints, fp) {
                        Some(at) => {
                            proof {
                                assert(fingerprints@[at as int] == fp);
                                assert(fingerprints@.contains(fp));
                            }
                        },
                        None => {
                            fingerprints.push(fp);
                            entries.push(CacheEntry { count: 0, stored: None });
                            proof {
                                assert(fingerprints@ == pre.push(fp));
                                assert(fingerprints@[pre.len() as int] == fp);
                                assert(fingerprints@.contains(fp));
                                assert(fps@.contains(fp)) by {
                                    assert(fps@[i as int] == fp);
                                }
                                assert forall|f: u64| #[trigger]
                                    fingerprints@.contains(f) implies fps@.contains(f) by {
                                    let k = choose|k: int|
                                        0 <= k < fingerprints@.len() && fingerprints@[k] == f;
                                    if k < pre.len() {
                                        assert(pre[k] == f);
                                        assert(pre.contains(f));
                                    } else {
                                        assert(f == fp);
                                    }
                                }
                                assert forall|k: int|
                                    0 <= k < i + 1 implies fingerprints@.contains(
                                    #[trigger] fps@[k],
                                ) by {
                                    if k < i {
                                        assert(pre.contains(fps@[k]));
                                        let k2 = choose|k2: int|
                                            0 <= k2 < pre.len() && pre[k2] == fps@[k];
                                        assert(fingerprints@[k2] == fps@[k]);
                                    }
                                }
                            }
                        },
                    }
                    i = i + 1;
                }
                proof {
                    assert forall|fp: u64| #[trigger]
                        FileCache { fingerprints: fingerprints, entries: entries }.has_entry(fp)
                        <==> fps@.contains(fp) by {
                        if fps@.contains(fp) {
                            let k = choose|k: int| 0 <= k < fps@.len() && fps@[k] == fp;
                            assert(fingerprints@.contains(fps@[k]));
                        }
                    }
                }
                proof {
                    assert(fps@.take(fps@.len() as int) =~= fps@);
                }
                FileCache { fingerprints, entries }
            },
        }
    }

    /// Single-flight read. With exactly one consumer the cache is bypassed
    /// and the reader runs directly. Otherwise the fingerprint must have
    /// been registered and fewer arrivals than `total_read_count` must have
    /// happened: the first arrival runs the reader and stores its result,
    /// propagating an error while leaving the stored state unchanged (the
    /// failed arrival still counts); later arrivals share the stored
    /// result; the last arrival takes it out, leaving the slot empty.
    #[verifier::loop_isolation(false)]
    pub fn read<E, F: Fn() -> Result<T, E>>(
        &mut self,
        finger_print: u64,
        total_read_count: u32,
        reader: &F,
    ) -> (r: Result<Arc<T>, E>)
        requires
            old(self).wf(),
            call_requires(*reader, ()),
            total_read_count != 1 ==> old(self).has_entry(finger_print),
            total_read_count != 1 ==> old(self).entries@[old(self).fp_index(finger_print)].count
                < total_read_count,
        ensures
            final(self).wf(),
            final(self).fingerprints@ == old(self).fingerprints@,
            total_read_count == 1 ==> *final(self) == *old(self) && (exists|res: Result<T, E>|
                #[trigger] call_ensures(*reader, (), res) && (match res {
                    Ok(v) => r matches Ok(a) && a == v,
                    Err(err) => r matches Err(err2) && err2 == err,
                })),
            total_read_count != 1 ==> {
                let i = old(self).fp_index(finger_print);
                let e0 = old(self).entries@[i];
                &&& final(self).entries@.len() == old(self).entries@.len()
                &&& forall|j: int|
                    0 <= j < old(self).entries@.len() && j != i ==> final(self).entries@[j]
                        == old(self).entries@[j]
                &&& final(self).entries@[i].count == e0.count + 1
                &&& (e0.count == 0 ==> exists|res: Result<T, E>|
                    #[trigger] call_ensures(*reader, (), res) && (match res {
                        Ok(v) => final(self).entries@[i].stored matches Some(a) && a == v && (r
                            matches Ok(a2) && a2 == v),
                        Err(err) => (r matches Err(err2) && err2 == err) && final(self).entries@[i].stored == e0.stored,
                    }))
                &&& (e0.count > 0 ==> (match e0.stored {
                    Some(a) => r matches Ok(a2) && a2 == a,
                    None => exists|d: T| #[trigger] T::default.ensures((), d) && (r matches Ok(a2) && a2 == d),
                }) && (e0.count + 1 == total_read_count ==> final(self).entries@[i].stored
                    is None) && (e0.count + 1 != total_read_count ==> final(self).entries@[i].stored == e0.stored))
            },
    {
        if total_read_count == 1 {
            return match reader() {
                Ok(v) => Ok(Arc::new(v)),
                Err(e) => Err(e),
            };
        }
        let i = match find_index(&self.fingerprints, finger_print) {
            Some(i) => i,
            None => {
                proof {
                    assert(false);
                }
                0
            },
        };
        proof {
            let i0 = old(self).fp_index(finger_print);
            assert(self.fingerprints@[i0] == finger_print);
            assert(i0 == i as int);
        }
        let mut tmp: CacheEntry<T> = CacheEntry { count: 0, stored: None };
        self.entries.set_and_swap(i, &mut tmp);
        let CacheEntry { count: c0, stored: s0 } = tmp;
        if c0 == 0 {
            match reader() {
                Err(e) => {
                    self.entries.set(i, CacheEntry { count: 1, stored: s0 });
                    Err(e)
                },
                Ok(v) => {
                    let a = Arc::new(v);
                    let out = arc_clone(&a);
                    self.entries.set(i, CacheEntry { count: 1, stored: Some(a) });
                    Ok(out)
                },
            }
        } else {
            let c1 = c0 + 1;
            if c1 == total_read_count {
                self.entries.set(i, CacheEntry { count: c1, stored: None });
                match s0 {
                    Some(a) => Ok(a),
                    None => Ok(Arc::new(T::default())),
                }
            } else {
                let out = match &s0 {
                    Some(a) => arc_clone(a),
                    None => Arc::new(T::default()),
                };
                self.entries.set(i, CacheEntry { count: c1, stored: s0 });
                Ok(out)
            }
        }
    }

    /// Inspect a slot: its arrival count and whether a result is stored.
    pub fn state_of(&self, finger_print: u64) -> (r: Option<(u32, bool)>)
        requires
            self.wf(),
        ensures
            match r {
                Some(p) => self.has_entry(finger_print) && p.0 == self.entries@[self.fp_index(
                    finger_print,
                )].count && p.1 == (self.entries@[self.fp_index(finger_print)].stored is Some),
                None => !self.has_entry(finger_print),
            },
    {
        match find_index(&self.fingerprints, finger_print) {
            None => None,
            Some(i) => {
                proof {
                    let i0 = self.fp_index(finger_print);
                    assert(self.fingerprints@[i0] == finger_print);
                    assert(i0 == i as int);
                }
                let has = match &self.entries[i].stored {
                    Some(_) => true,
                    None => false,
                };
                Some((self.entries[i].count, has))
            },
        }
    }
}

} // verus!
