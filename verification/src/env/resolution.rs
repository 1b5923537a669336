//! Per-declaration record of how each type-name occurrence resolved, in
//! the resolver's pre-order walk of the declaration.
use vstd::prelude::*;
use vstd::std_specs::hash::obeys_key_model;
use std::collections::HashMap;

use crate::env::DeclRef;
use crate::interner::TypeNameSym;

verus! {

/// One resolution outcome: the absolute name an occurrence binds to, or
/// the occurrence's own name when it did not resolve.
#[derive(Debug, Clone, Copy, PartialEq, Eq, Structural)]
pub enum ResolvedRef {
    Resolved(TypeNameSym),
    Unresolved(TypeNameSym),
}

/// The number a declaration reference is filed under.
pub open spec fn decl_key(d: DeclRef) -> int {
    d.source_index as int * 4294967296 + d.decl_index as int
}

fn decl_key_exec(d: DeclRef) -> (k: u64)
    ensures
        k as int == decl_key(d),
{
    (d.source_index as u64) * 4294967296 + (d.decl_index as u64)
}

proof fn lemma_decl_key_injective(a: DeclRef, b: DeclRef)
    requires
        decl_key(a) == decl_key(b),
    ensures
        a == b,
{
    if a.source_index < b.source_index {
        assert(decl_key(a) < decl_key(b));
    } else if b.source_index < a.source_index {
        assert(decl_key(b) < decl_key(a));
    }
}

/// Sum of the lengths of the recorded slices.
pub open spec fn total_recorded(entries: Seq<(DeclRef, Vec<ResolvedRef>)>) -> int
    decreases entries.len(),
{
    if entries.len() == 0 {
        0
    } else {
        total_recorded(entries.drop_last()) + entries.last().1@.len()
    }
}

/// Resolved type-name occurrences for each declaration.
pub struct Resolution {
    entries: Vec<(DeclRef, Vec<ResolvedRef>)>,
    index: HashMap<u64, usize>,
    count: usize,
}

impl View for Resolution {
    type V = Map<DeclRef, Seq<ResolvedRef>>;

    /// The recorded outcomes of each declaration, in recording order.
    closed spec fn view(&self) -> Map<DeclRef, Seq<ResolvedRef>> {
        Map::new(
            |d: DeclRef| self.index@.contains_key(decl_key(d) as u64),
            |d: DeclRef| self.entries@[self.index@[decl_key(d) as u64] as int].1@,
        )
    }
}

impl Resolution {
    pub closed spec fn wf(&self) -> bool {
        &&& forall|k: u64| #[trigger] self.index@.contains_key(k) ==> (self.index@[k] as int) < self.entries@.len()
            && decl_key(self.entries@[self.index@[k] as int].0) == k
        &&& forall|i: int| 0 <= i < self.entries@.len() ==> #[trigger] self.index@.contains_key(
            decl_key(self.entries@[i].0) as u64,
        ) && self.index@[decl_key(self.entries@[i].0) as u64] == i
        &&& self.count == total_recorded(self.entries@)
    }

    /// Total outcomes recorded so far.
    pub closed spec fn total(&self) -> int {
        total_recorded(self.entries@)
    }

    pub fn new() -> (r: Self)
        ensures
            r.wf(),
            r@ == Map::<DeclRef, Seq<ResolvedRef>>::empty(),
            r.total() == 0,
    {
        let r = Resolution { entries: Vec::new(), index: HashMap::new(), count: 0 };
        proof {
            assert(r@ =~= Map::<DeclRef, Seq<ResolvedRef>>::empty());
        }
        r
    }

    /// Append one outcome to `decl_ref`'s slice.
    pub fn record(&mut self, decl_ref: DeclRef, resolved: ResolvedRef)
        requires
            old(self).wf(),
            old(self).total() < usize::MAX,
        ensures
            final(self).wf(),
            final(self).total() == old(self).total() + 1,
            final(self)@ == old(self)@.insert(
                decl_ref,
                if old(self)@.contains_key(decl_ref) {
                    old(self)@[decl_ref].push(resolved)
                } else {
                    seq![resolved]
                },
            ),
    {
        broadcast use vstd::std_specs::hash::group_hash_axioms;

        let key = decl_key_exec(decl_ref);
        let ghost before = self.entries@;
        match self.index.get(&key) {
            Some(i) => {
                let i = *i;
                let mut slot: Vec<ResolvedRef> = Vec::new();
                std::mem::swap(&mut slot, &mut self.entries[i].1);
                slot.push(resolved);
                self.entries.set(i, (decl_ref, slot));
                proof {
                    lemma_decl_key_injective(before[i as int].0, decl_ref);
                    lemma_total_update(before, i as int, self.entries@[i as int]);
                    assert(self.entries@ == before.update(i as int, self.entries@[i as int]));
                    assert(self@ =~= old(self)@.insert(decl_ref, old(self)@[decl_ref].push(resolved))) by {
                        assert forall|d: DeclRef| #[trigger] self@.contains_key(d) implies self@[d]
                            == old(self)@.insert(decl_ref, old(self)@[decl_ref].push(resolved))[d] by {
                            if d != decl_ref {
                                let j = self.index@[decl_key(d) as u64];
                                if j == i {
                                    lemma_decl_key_injective(d, decl_ref);
                                }
                            }
                        }
                    }
                }
            },
            None => {
                let n = self.entries.len();
                let mut slot: Vec<ResolvedRef> = Vec::new();
                slot.push(resolved);
                self.entries.push((decl_ref, slot));
                self.index.insert(key, n);
                proof {
                    assert(self.entries@.drop_last() =~= before);
                    assert forall|k: u64| #[trigger] self.index@.contains_key(k) implies (self.index@[k] as int)
                        < self.entries@.len() && decl_key(self.entries@[self.index@[k] as int].0) == k by {
                        if k != key {
                            assert(old(self).index@.contains_key(k));
                        }
                    }
                    assert forall|i: int| 0 <= i < self.entries@.len() implies #[trigger] self.index@.contains_key(
                        decl_key(self.entries@[i].0) as u64,
                    ) && self.index@[decl_key(self.entries@[i].0) as u64] == i by {
                        if i < n {
                            assert(self.entries@[i] == before[i]);
                            assert(old(self).index@.contains_key(decl_key(before[i].0) as u64));
                        }
                    }
                    assert(self@ =~= old(self)@.insert(decl_ref, seq![resolved])) by {
                        assert forall|d: DeclRef| #[trigger] self@.contains_key(d) implies self@[d]
                            == old(self)@.insert(decl_ref, seq![resolved])[d] by {
                            if d != decl_ref {
                                if decl_key(d) == key {
                                    lemma_decl_key_injective(d, decl_ref);
                                }
                            }
                        }
                        assert forall|d: DeclRef| #[trigger] old(self)@.insert(decl_ref, seq![resolved]).contains_key(d)
                            implies self@.contains_key(d) by {
                        }
                    }
                }
            },
        }
        self.count = self.count + 1;
    }

    /// The outcomes recorded for `decl_ref`, in recording order; `None`
    /// when nothing was recorded for it.
    pub fn get(&self, decl_ref: DeclRef) -> (r: Option<&[ResolvedRef]>)
        requires
            self.wf(),
        ensures
            match r {
                Some(s) => self@.contains_key(decl_ref) && s@ == self@[decl_ref],
                None => !self@.contains_key(decl_ref),
            },
    {
        broadcast use vstd::std_specs::hash::group_hash_axioms;

        let key = decl_key_exec(decl_ref);
        match self.index.get(&key) {
            Some(i) => Some(self.entries[*i].1.as_slice()),
            None => None,
        }
    }

    /// Every `(declaration, outcomes)` pair recorded, once each.
    pub fn iter(&self) -> (r: Vec<(DeclRef, Vec<ResolvedRef>)>)
        requires
            self.wf(),
        ensures
            r@.len() == self@.dom().len(),
            forall|i: int, j: int| 0 <= i < j < r@.len() ==> (#[trigger] r@[i]).0 != (#[trigger] r@[j]).0,
            forall|i: int| 0 <= i < r@.len() ==> #[trigger] self@.contains_key(r@[i].0) && self@[r@[i].0] == r@[i].1@,
            forall|d: DeclRef| #[trigger] self@.contains_key(d) ==> exists|i: int| 0 <= i < r@.len() && r@[i].0 == d,
    {
        let mut r: Vec<(DeclRef, Vec<ResolvedRef>)> = Vec::new();
        let mut i: usize = 0;
        while i < self.entries.len()
            invariant
                self.wf(),
                i <= self.entries@.len(),
                r@.len() == i,
                forall|j: int| 0 <= j < i ==> (#[trigger] r@[j]).0 == self.entries@[j].0 && r@[j].1@ == self.entries@[j].1@,
            decreases self.entries.len() - i,
        {
            let d = self.entries[i].0;
            let copy = copy_refs(&self.entries[i].1);
            r.push((d, copy));
            i = i + 1;
        }
        proof {
            self.lemma_view_entries();
            assert forall|d: DeclRef| #[trigger] self@.contains_key(d) implies exists|i: int| 0 <= i < r@.len() && r@[i].0 == d by {
                let i = choose|i: int| 0 <= i < self.entries@.len() && self.entries@[i].0 == d;
                assert(r@[i].0 == d);
            }
        }
        r
    }

    proof fn lemma_view_entries(&self)
        requires
            self.wf(),
        ensures
            self@.dom().len() == self.entries@.len(),
            forall|i: int, j: int| 0 <= i < j < self.entries@.len() ==> (#[trigger] self.entries@[i]).0 != (#[trigger] self.entries@[j]).0,
            forall|i: int| 0 <= i < self.entries@.len() ==> #[trigger] self@.contains_key(self.entries@[i].0)
                && self@[self.entries@[i].0] == self.entries@[i].1@,
            forall|d: DeclRef| #[trigger] self@.contains_key(d) ==> exists|i: int| 0 <= i < self.entries@.len() && self.entries@[i].0 == d,
    {
        let keys = self.entries@.map_values(|e: (DeclRef, Vec<ResolvedRef>)| e.0);
        assert forall|i: int, j: int| 0 <= i < j < self.entries@.len() implies (#[trigger] self.entries@[i]).0 != (#[trigger] self.entries@[j]).0 by {
            assert(self.index@.contains_key(decl_key(self.entries@[i].0) as u64));
            assert(self.index@.contains_key(decl_key(self.entries@[j].0) as u64));
        }
        assert forall|d: DeclRef| #[trigger] self@.contains_key(d) implies exists|i: int| 0 <= i < self.entries@.len() && self.entries@[i].0 == d by {
            let i = self.index@[decl_key(d) as u64] as int;
            lemma_decl_key_injective(self.entries@[i].0, d);
        }
        assert forall|i: int| 0 <= i < self.entries@.len() implies #[trigger] self@.contains_key(self.entries@[i].0)
            && self@[self.entries@[i].0] == self.entries@[i].1@ by {
            assert(self.index@.contains_key(decl_key(self.entries@[i].0) as u64));
        }
        assert(keys.no_duplicates());
        assert(self@.dom() =~= keys.to_set()) by {
            assert forall|d: DeclRef| self@.dom().contains(d) <==> keys.to_set().contains(d) by {
                if keys.to_set().contains(d) {
                    let i = choose|i: int| 0 <= i < keys.len() && keys[i] == d;
                    assert(self.index@.contains_key(decl_key(self.entries@[i].0) as u64));
                }
                if self@.dom().contains(d) {
                    let i = self.index@[decl_key(d) as u64] as int;
                    lemma_decl_key_injective(self.entries@[i].0, d);
                    assert(keys[i] == d);
                }
            }
        }
        keys.unique_seq_to_set();
    }

    /// Total outcomes recorded across all declarations.
    pub fn len(&self) -> (n: usize)
        requires
            self.wf(),
        ensures
            n == self.total(),
    {
        self.count
    }

    /// Nothing has been recorded.
    pub fn is_empty(&self) -> (b: bool)
        requires
            self.wf(),
        ensures
            b == (self.total() == 0),
    {
        self.count == 0
    }
}

proof fn lemma_total_update(s: Seq<(DeclRef, Vec<ResolvedRef>)>, i: int, e: (DeclRef, Vec<ResolvedRef>))
    requires
        0 <= i < s.len(),
    ensures
        total_recorded(s.update(i, e)) == total_recorded(s) - s[i].1@.len() + e.1@.len(),
    decreases s.len(),
{
    if i < s.len() - 1 {
        lemma_total_update(s.drop_last(), i, e);
        assert(s.update(i, e).drop_last() =~= s.drop_last().update(i, e));
    } else {
        assert(s.update(i, e).drop_last() =~= s.drop_last());
    }
}

fn copy_refs(v: &Vec<ResolvedRef>) -> (r: Vec<ResolvedRef>)
    ensures
        r@ == v@,
{
    let mut r: Vec<ResolvedRef> = Vec::new();
    let mut i: usize = 0;
    while i < v.len()
        invariant
            i <= v@.len(),
            r@ == v@.take(i as int),
        decreases v.len() - i,
    {
        r.push(v[i]);
        proof {
            assert(v@.take(i + 1) =~= v@.take(i as int).push(v@[i as int]));
        }
        i = i + 1;
    }
    proof {
        assert(v@.take(v@.len() as int) =~= v@);
    }
    r
}

} // verus!
