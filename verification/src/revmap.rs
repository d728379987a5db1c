//! Reverse mappings: translating codes back to strings.
//!
//! A finished encoding carries a [`RevMapping`] in one of two shapes. A
//! *Local* mapping is a self-contained array of strings indexed directly by
//! code. A *Global* mapping holds the strings of one column plus a
//! translation table from global codes (assigned by the shared interning
//! table of one epoch) to local indexes into that array.

use vstd::prelude::*;

use crate::buckets::{code_pairs, CodeMap};
use crate::intern::distinct_seq;
use crate::hashing::str_eq;

verus! {

/// The character sequences of a sequence of strings, in order.
pub open spec fn views_of(v: Seq<String>) -> Seq<Seq<char>> {
    Seq::new(v.len(), |i: int| v[i]@)
}

/// The first index of `v` in `t`; meaningful only when `t` contains `v`.
pub open spec fn idx_of(t: Seq<Seq<char>>, v: Seq<char>) -> int
    decreases t.len(),
{
    if t.len() == 0 {
        0
    } else if t[0] == v {
        0
    } else {
        1 + idx_of(t.subrange(1, t.len() as int), v)
    }
}

/// When `t` contains `v`, `idx_of` is its first index.
pub proof fn lemma_idx_of(t: Seq<Seq<char>>, v: Seq<char>)
    requires
        t.contains(v),
    ensures
        0 <= idx_of(t, v) < t.len(),
        t[idx_of(t, v)] == v,
        forall|j: int| 0 <= j < idx_of(t, v) ==> t[j] != v,
    decreases t.len(),
{
    if t[0] == v {
    } else {
        let t1 = t.subrange(1, t.len() as int);
        let i = choose|i: int| 0 <= i < t.len() && t[i] == v;
        assert(t1[i - 1] == v);
        assert(t1.contains(v));
        lemma_idx_of(t1, v);
        assert forall|j: int| 0 <= j < idx_of(t, v) implies t[j] != v by {
            if j > 0 {
                assert(t1[j - 1] != v);
            }
        }
    }
}

/// In a distinct sequence the only index of `v` is `idx_of`.
pub proof fn lemma_idx_of_unique(t: Seq<Seq<char>>, v: Seq<char>, i: int)
    requires
        distinct_seq(t),
        0 <= i < t.len(),
        t[i] == v,
    ensures
        idx_of(t, v) == i,
{
    assert(t.contains(v));
    lemma_idx_of(t, v);
    let k = idx_of(t, v);
    if k < i {
        assert(t[k] == t[i]);
    } else if k > i {
        assert(t[i] != v);
    }
}

/// Some global code translates to local index `li` in `m`.
pub open spec fn covers(m: CodeMap, li: int) -> bool {
    exists|g: u32| #[trigger] code_pairs(m).contains_pair(g, li as u32)
}

/// Per-column code-to-string lookup, built once per encoding pass and
/// immutable afterwards.
pub enum RevMapping {
    /// The map from global codes to local indexes, the local string
    /// array, and the epoch of the interning table that assigned the codes.
    Global(CodeMap, Vec<String>, u128),
    /// The string array, indexed directly by code.
    Local(Vec<String>),
}

impl RevMapping {
    /// The distinct strings of the column, in local code order.
    pub open spec fn vals(&self) -> Seq<Seq<char>> {
        match self {
            RevMapping::Global(_, a, _) => views_of(a@),
            RevMapping::Local(a) => views_of(a@),
        }
    }

    /// The global-to-local translation of a Global mapping.
    pub open spec fn translation(&self) -> Map<u32, u32> {
        match self {
            RevMapping::Global(m, _, _) => code_pairs(*m),
            RevMapping::Local(_) => Map::empty(),
        }
    }

    /// The epoch a Global mapping was built under.
    pub open spec fn epoch_of(&self) -> u128 {
        match self {
            RevMapping::Global(_, _, e) => *e,
            RevMapping::Local(_) => 0,
        }
    }

    /// Well-formedness. The strings are distinct and fit the 32-bit code
    /// space; in a Global mapping the translation is a bijection between a
    /// set of global codes and the local indexes.
    pub open spec fn wf(&self) -> bool {
        &&& distinct_seq(self.vals())
        &&& self.vals().len() <= u32::MAX as int
        &&& match self {
            RevMapping::Global(m, _, _) => {
                &&& forall|g: u32| #[trigger]
                    code_pairs(*m).contains_key(g) ==> (code_pairs(*m)[g] as int)
                        < self.vals().len()
                &&& forall|g1: u32, g2: u32|
                    code_pairs(*m).contains_key(g1) && code_pairs(*m).contains_key(g2)
                        && code_pairs(*m)[g1] == code_pairs(*m)[g2] ==> g1 == g2
                &&& forall|li: int| 0 <= li < self.vals().len() ==> #[trigger] covers(*m, li)
            },
            RevMapping::Local(_) => true,
        }
    }

    /// Whether `code` is a valid key of this mapping.
    pub open spec fn in_range(&self, code: u32) -> bool {
        match self {
            RevMapping::Global(m, _, _) => code_pairs(*m).contains_key(code),
            RevMapping::Local(_) => (code as int) < self.vals().len(),
        }
    }

    /// The string a valid code stands for.
    pub open spec fn spec_lookup(&self, code: u32) -> Seq<char> {
        match self {
            RevMapping::Global(m, _, _) => self.vals()[code_pairs(*m)[code] as int],
            RevMapping::Local(_) => self.vals()[code as int],
        }
    }

    /// The code `find` returns for a string, if any: the code of the
    /// string's (unique) local index.
    pub open spec fn spec_find(&self, v: Seq<char>) -> Option<u32> {
        if self.vals().contains(v) {
            match self {
                RevMapping::Global(m, _, _) => Some(
                    choose|g: u32| #[trigger]
                        code_pairs(*m).contains_pair(g, idx_of(self.vals(), v) as u32),
                ),
                RevMapping::Local(_) => Some(idx_of(self.vals(), v) as u32),
            }
        } else {
            None
        }
    }

    /// Whether the mapping is backed by the global interning table.
    pub fn is_global(&self) -> (r: bool)
        ensures
            r == (self is Global),
    {
        match self {
            RevMapping::Global(_, _, _) => true,
            RevMapping::Local(_) => false,
        }
    }

    /// The number of distinct strings represented.
    pub fn len(&self) -> (n: usize)
        ensures
            n == self.vals().len(),
    {
        match self {
            RevMapping::Global(_, a, _) => a.len(),
            RevMapping::Local(a) => a.len(),
        }
    }

    /// Code to string. The code must be valid for this very mapping — that
    /// is a proof obligation of the caller, not a runtime check, so this is
    /// at once the checked lookup and the unchecked fast path: callers reach
    /// it only having proved the code in range.
    pub fn get(&self, idx: u32) -> (r: &str)
        requires
            self.wf(),
            self.in_range(idx),
        ensures
            r@ == self.spec_lookup(idx),
    {
        match self {
            RevMapping::Global(map, a, _) => {
                let li = map.get(idx).unwrap();
                a[li as usize].as_str()
            },
            RevMapping::Local(a) => a[idx as usize].as_str(),
        }
    }

    /// Whether two mappings were created from the same source: two Global
    /// mappings iff their epochs match; two Local mappings only if they are
    /// literally the same array instance (a deliberate cheap-path check, not
    /// content equality); mixed shapes never.
    pub fn same_src(&self, other: &Self) -> (r: bool)
        ensures
            (self is Global && other is Global) ==> (r <==> self.epoch_of() == other.epoch_of()),
            (self is Global && other is Local) ==> r == false,
            (self is Local && other is Global) ==> r == false,
            (self is Local && other is Local) ==> (r ==> self.vals() == other.vals()),
    {
        match (self, other) {
            (RevMapping::Global(_, _, l), RevMapping::Global(_, _, r2)) => *l == *r2,
            (RevMapping::Local(l), RevMapping::Local(r2)) => same_instance(l, r2),
            _ => false,
        }
    }

    /// String to code: the inverse lookup, by linear scan. Returns the code
    /// whose `get` yields `value`, or `None` when no code does.
    pub fn find(&self, value: &str) -> (r: Option<u32>)
        requires
            self.wf(),
        ensures
            r == self.spec_find(value@),
            r matches Some(c) ==> self.in_range(c) && self.spec_lookup(c) == value@,
            r is None <==> !self.vals().contains(value@),
    {
        match self {
            RevMapping::Global(map, a, _) => {
                let ps = map.pairs();
                let mut i: usize = 0;
                while i < ps.len()
                    invariant
                        self.wf(),
                        self is Global,
                        map == self->Global_0,
                        a == self->Global_1,
                        i <= ps.len(),
                        forall|p: (u32, u32)| #[trigger]
                            ps@.contains(p) <==> code_pairs(*map).contains_pair(p.0, p.1),
                        forall|j: int|
                            0 <= j < i ==> views_of(a@)[(#[trigger] ps@[j]).1 as int]
                                != value@,
                    decreases ps.len() - i,
                {
                    let (g, li) = ps[i];
                    proof {
                        assert(ps@.contains(ps@[i as int]));
                        assert(code_pairs(*map).contains_pair(g, li));
                    }
                    proof {
                        assert(code_pairs(*map).contains_key(g));
                        assert((code_pairs(*map)[g] as int) < self.vals().len());
                        assert(code_pairs(*map)[g] == li);
                    }
                    if str_eq(a[li as usize].as_str(), value) {
                        proof {
                            assert(self.vals()[li as int] == a@[li as int]@);
                            assert(self.vals()[li as int] == value@);
                            assert(self.vals().contains(value@));
                            lemma_idx_of_unique(self.vals(), value@, li as int);
                            assert(code_pairs(*map).contains_pair(
                                g,
                                idx_of(self.vals(), value@) as u32,
                            ));
                            let g0 = choose|g0: u32| #[trigger]
                                code_pairs(*map).contains_pair(
                                    g0,
                                    idx_of(self.vals(), value@) as u32,
                                );
                            assert(code_pairs(*map).contains_key(g0));
                            assert(code_pairs(*map)[g0] == code_pairs(*map)[g]);
                            assert(g0 == g);
                        }
                        return Some(g);
                    }
                    i = i + 1;
                }
                proof {
                    if self.vals().contains(value@) {
                        lemma_idx_of(self.vals(), value@);
                        let li = idx_of(self.vals(), value@);
                        assert(covers(*map, li));
                        let g = choose|g: u32| #[trigger]
                            code_pairs(*map).contains_pair(g, li as u32);
                        assert(ps@.contains((g, li as u32)));
                        let j = choose|j: int| 0 <= j < ps@.len() && ps@[j] == (g, li as u32);
                        assert(views_of(a@)[(ps@[j]).1 as int] != value@);
                        assert(self.vals()[li] == value@);
                        assert(false);
                    }
                }
                None
            },
            RevMapping::Local(a) => {
                let mut i: usize = 0;
                while i < a.len()
                    invariant
                        self.wf(),
                        self is Local,
                        a == self->Local_0,
                        i <= a.len(),
                        forall|j: int| 0 <= j < i ==> views_of(a@)[j] != value@,
                    decreases a.len() - i,
                {
                    if str_eq(a[i].as_str(), value) {
                        proof {
                            assert(self.vals()[i as int] == a@[i as int]@);
                            assert(self.vals()[i as int] == value@);
                            assert(self.vals().contains(value@));
                            lemma_idx_of_unique(self.vals(), value@, i as int);
                        }
                        return Some(i as u32);
                    }
                    i = i + 1;
                }
                proof {
                    if self.vals().contains(value@) {
                        lemma_idx_of(self.vals(), value@);
                        assert(views_of(a@)[idx_of(self.vals(), value@)] != value@);
                        assert(false);
                    }
                }
                None
            },
        }
    }
}

/// Epoch isolation: a reset strictly increases the table's epoch, so a
/// Global mapping stamped before a reset and one stamped after carry
/// different epochs, and Global mappings compare as same-source exactly when
/// their epochs are equal — so the two never do, whatever strings they hold.
pub proof fn lemma_epoch_isolation(a: RevMapping, b: RevMapping)
    requires
        a is Global,
        b is Global,
        a.epoch_of() < b.epoch_of(),
    ensures
        a.epoch_of() != b.epoch_of(),
{
}

impl Default for RevMapping {
    /// An empty Local mapping.
    fn default() -> (r: Self)
        ensures
            r is Local,
            r.vals().len() == 0,
    {
        RevMapping::Local(Vec::new())
    }
}

/// Relies on `core::ptr::eq`: true only when the two references address the
/// very same allocation, in which case the values are trivially equal.
#[verifier::external_body]
fn same_instance(a: &Vec<String>, b: &Vec<String>) -> (r: bool)
    ensures
        r ==> a@ == b@,
{
    core::ptr::eq(a, b)
}

/// The under-construction shape of a [`RevMapping`]: a Local mapping grows
/// string by string as new values are first seen; a finished Global mapping
/// is carried as-is.
pub enum RevMappingBuilder {
    /// The map from global codes to local indexes, the local string
    /// array, and the epoch they were reconciled under.
    GlobalFinished(CodeMap, Vec<String>, u128),
    /// The growing string array.
    Local(Vec<String>),
}

impl RevMappingBuilder {
    /// The strings collected so far, in code order.
    pub open spec fn vals(&self) -> Seq<Seq<char>> {
        match self {
            RevMappingBuilder::GlobalFinished(_, a, _) => views_of(a@),
            RevMappingBuilder::Local(a) => views_of(a@),
        }
    }

    /// Record a newly seen string. Only a Local mapping still grows; a
    /// finished Global mapping takes no further values, so callers must not
    /// reach this in that state.
    pub fn insert(&mut self, value: &str)
        requires
            *old(self) is Local,
        ensures
            *final(self) is Local,
            final(self).vals() =~= old(self).vals().push(value@),
    {
        match self {
            RevMappingBuilder::Local(builder) => {
                builder.push(value.to_owned());
            },
            RevMappingBuilder::GlobalFinished(_, _, _) => {
                proof {
                    assert(false);
                }
            },
        }
    }

    /// Freeze the builder into the finished mapping of the same shape.
    pub fn finish(self) -> (r: RevMapping)
        ensures
            r.vals() == self.vals(),
            self is Local ==> r is Local,
            self matches RevMappingBuilder::GlobalFinished(m, _, e) ==> (r matches
                RevMapping::Global(m2, _, e2) && m2 == m && e2 == e),
    {
        match self {
            RevMappingBuilder::Local(b) => RevMapping::Local(b),
            RevMappingBuilder::GlobalFinished(map, b, epoch) => RevMapping::Global(map, b, epoch),
        }
    }
}

} // verus!
