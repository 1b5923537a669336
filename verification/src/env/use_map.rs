//! `RBS::Environment::UseMap`: the aliases `# use` directives introduce,
//! over a table of the declared type names.
use std::collections::{HashMap, HashSet};
use vstd::prelude::*;
use vstd::std_specs::iter::IteratorSpec;

use crate::env::{resolvable, Environment};
use crate::interner::{NamespaceSym, Sym, TypeNameInterner, TypeNameSym};

verus! {

pub(crate) fn set_elements(s: &HashSet<u32>) -> (r: Vec<u32>)
    ensures
        r@.to_set() == s@,
        r@.no_duplicates(),
{
    broadcast use vstd::std_specs::hash::group_hash_axioms;

    let mut r: Vec<u32> = Vec::new();
    let ghost all = vstd::std_specs::hash::spec_hash_keys_iter(s).remaining();
    for x in iter: s.iter()
        invariant
            iter.seq() == all,
            r@ == iter.seq().take(iter.index() as int).unref(),
    {
        r.push(*x);
        proof {
            assert(iter.seq().take(iter.index() + 1).unref() =~= r@);
        }
    }
    proof {
        assert(r@ =~= all.unref());
        assert(all.unref().to_set() == s@);
        assert forall|i: int, j: int| 0 <= i < r@.len() && 0 <= j < r@.len() && i != j implies r@[i] != r@[j] by {
            assert(all[i] != all[j]);
        }
    }
    r
}

/// For each namespace with a non-empty path: the names of `known` that
/// sit directly in it.
pub open spec fn child_index(known: Set<u32>, it: TypeNameInterner) -> Map<u32, Set<u32>> {
    Map::new(
        |ns: u32| exists|t: u32| #[trigger] known.contains(t) && it@[t as int].0.0 == ns && it.spaces()[ns as int].0.len() > 0,
        |ns: u32| Set::new(|t: u32| known.contains(t) && it@[t as int].0.0 == ns),
    )
}

/// Every number in `s` is an interned type name.
pub open spec fn all_interned(s: Set<u32>, it: TypeNameInterner) -> bool {
    forall|t: u32| #[trigger] s.contains(t) ==> (t as int) < it@.len()
}

/// The global index of declared type names shared by every `UseMap`.
pub struct Table {
    /// Every declared class, module, interface and type-alias name.
    pub known_types: HashSet<u32>,
    /// Namespace -> the known names directly inside it.
    pub children: HashMap<u32, Vec<u32>>,
}

impl Table {
    /// The children of each namespace, as sets.
    pub open spec fn children_sets(&self) -> Map<u32, Set<u32>> {
        Map::new(|ns: u32| self.children@.contains_key(ns), |ns: u32| self.children@[ns]@.to_set())
    }

    pub fn new() -> (r: Self)
        ensures
            r.known_types@ == Set::<u32>::empty(),
            r.children_sets() == Map::<u32, Set<u32>>::empty(),
    {
        let r = Table { known_types: HashSet::new(), children: HashMap::new() };
        proof {
            assert(r.children_sets() =~= Map::<u32, Set<u32>>::empty());
        }
        r
    }

    /// Add every class, module, interface and type-alias name `env`
    /// declares.
    pub fn populate_from(&mut self, env: &Environment)
        requires
            env.wf(),
        ensures
            final(self).known_types@ == old(self).known_types@ + Set::new(
                |k: u32| env.decls().contains_key(k) && resolvable(env.decls()[k]),
            ),
            final(self).children == old(self).children,
    {
        broadcast use vstd::std_specs::hash::group_hash_axioms;

        let list = &env.decl_list;
        proof {
            env.lemma_decl_order();
        }
        let ghost start = self.known_types@;
        let mut i: usize = 0;
        while i < list.len()
            invariant
                *list == env.decl_list,
                list@ == env.decl_order(),
                i <= list@.len(),
                self.children == old(self).children,
                forall|a: int| 0 <= a < list@.len() ==> #[trigger] env.decls().contains_key(list@[a].0.0)
                    && env.decls()[list@[a].0.0] == list@[a].1,
                self.known_types@ == start + Set::new(|k: u32| exists|a: int| 0 <= a < i && list@[a].0.0 == k && resolvable(list@[a].1)),
            decreases list.len() - i,
        {
            let ghost before = self.known_types@;
            if list[i].1.is_resolvable() {
                self.known_types.insert(list[i].0.0);
            }
            proof {
                assert(self.known_types@ =~= start + Set::new(|k: u32| exists|a: int| 0 <= a < i + 1 && list@[a].0.0 == k && resolvable(list@[a].1))) by {
                    assert forall|k: u32| #[trigger] self.known_types@.contains(k) <==> (start + Set::new(|k: u32| exists|a: int| 0 <= a < i + 1 && list@[a].0.0 == k && resolvable(list@[a].1))).contains(k) by {
                        if exists|a: int| 0 <= a < i + 1 && list@[a].0.0 == k && resolvable(list@[a].1) {
                            let a = choose|a: int| 0 <= a < i + 1 && list@[a].0.0 == k && resolvable(list@[a].1);
                            if a < i {
                                assert(before.contains(k));
                            }
                        }
                    }
                }
            }
            i = i + 1;
        }
        proof {
            assert(self.known_types@ =~= old(self).known_types@ + Set::new(|k: u32| env.decls().contains_key(k) && resolvable(env.decls()[k]))) by {
                assert forall|k: u32| #[trigger] self.known_types@.contains(k) <==> (old(self).known_types@ + Set::new(|k: u32| env.decls().contains_key(k) && resolvable(env.decls()[k]))).contains(k) by {
                    if env.decls().contains_key(k) {
                        let a = choose|a: int| 0 <= a < env.decl_order().len() && env.decl_order()[a].0.0 == k;
                        assert(list@[a].0.0 == k);
                    }
                }
            }
        }
    }

    /// Rebuild `children` from `known_types`: each known name under its
    /// namespace, names in an empty namespace left out.
    pub fn compute_children(&mut self, it: &TypeNameInterner)
        requires
            it.wf(),
            all_interned(old(self).known_types@, *it),
        ensures
            final(self).known_types == old(self).known_types,
            final(self).children_sets() == child_index(old(self).known_types@, *it),
            forall|ns: u32| #[trigger] final(self).children@.contains_key(ns) ==> final(self).children@[ns]@.no_duplicates(),
    {
        broadcast use vstd::std_specs::hash::group_hash_axioms;

        self.children = HashMap::new();
        let elems = set_elements(&self.known_types);
        let ghost known = self.known_types@;
        let mut i: usize = 0;
        proof {
            assert(self.children_sets() =~= child_index(elems@.take(0).to_set(), *it));
        }
        while i < elems.len()
            invariant
                it.wf(),
                known == self.known_types@,
                self.known_types == old(self).known_types,
                all_interned(known, *it),
                elems@.to_set() == known,
                elems@.no_duplicates(),
                i <= elems@.len(),
                self.children_sets() == child_index(elems@.take(i as int).to_set(), *it),
                forall|ns: u32| #[trigger] self.children@.contains_key(ns) ==> self.children@[ns]@.no_duplicates()
                    && forall|j: int| 0 <= j < self.children@[ns]@.len() ==> elems@.take(i as int).contains(#[trigger] self.children@[ns]@[j]),
            decreases elems.len() - i,
        {
            let tn = elems[i];
            let ghost prev = elems@.take(i as int);
            proof {
                assert(elems@.take(i + 1) =~= prev.push(tn));
                assert(known.contains(tn));
                assert(!prev.contains(tn));
            }
            let ns = it.namespace_of(TypeNameSym(tn));
            proof {
                it.lemma_wf_facts();
                assert(it.valid_entry(it@[tn as int]));
            }
            if !it.is_empty_namespace(ns) {
                let ghost before = self.children@;
                let mut kids = match self.children.remove(&ns.0) {
                    Some(v) => v,
                    None => Vec::new(),
                };
                let ghost old_kids = kids@;
                kids.push(tn);
                self.children.insert(ns.0, kids);
                proof {
                    let target = child_index(prev.push(tn).to_set(), *it);
                    let old_idx = child_index(prev.to_set(), *it);
                    prev.lemma_push_to_set_commute(tn);
                    assert(it@[tn as int].0 == ns);
                    assert(prev.push(tn).to_set().contains(tn));
                    assert(target.contains_key(ns.0));
                    assert forall|k: u32| #[trigger] self.children_sets().contains_key(k) == target.contains_key(k) by {
                        if k != ns.0 {
                            if target.contains_key(k) {
                                let t = choose|t: u32| #[trigger] prev.push(tn).to_set().contains(t) && it@[t as int].0.0 == k
                                    && it.spaces()[k as int].0.len() > 0;
                                assert(prev.to_set().contains(t));
                                assert(old_idx.contains_key(k));
                            }
                            if old_idx.contains_key(k) {
                                let t = choose|t: u32| #[trigger] prev.to_set().contains(t) && it@[t as int].0.0 == k
                                    && it.spaces()[k as int].0.len() > 0;
                                assert(prev.push(tn).to_set().contains(t));
                            }
                            assert(self.children_sets().contains_key(k) == before.contains_key(k));
                        }
                    }
                    assert forall|k: u32| #[trigger] self.children_sets().contains_key(k) implies self.children_sets()[k] =~= target[k] by {
                        if k == ns.0 {
                            let olds: Set<u32> = if before.contains_key(k) { old_idx[k] } else { Set::empty() };
                            if before.contains_key(k) {
                                assert(old_kids == before[k]@);
                            } else {
                                assert(!old_idx.contains_key(k));
                                assert(old_kids.to_set() =~= Set::<u32>::empty());
                                assert forall|t: u32| !(#[trigger] prev.to_set().contains(t) && it@[t as int].0.0 == k) by {
                                    if prev.to_set().contains(t) && it@[t as int].0.0 == k {
                                        assert(old_idx.contains_key(k));
                                    }
                                }
                            }
                            assert(old_kids.to_set() =~= olds);
                            old_kids.lemma_push_to_set_commute(tn);
                            assert(target[k] =~= olds.insert(tn));
                        } else {
                            assert(self.children@[k] == before[k]);
                            assert(target[k] =~= old_idx[k]);
                        }
                    }
                    assert(self.children_sets() =~= target);
                    assert forall|k: u32| #[trigger] self.children@.contains_key(k) implies self.children@[k]@.no_duplicates()
                        && forall|j: int| 0 <= j < self.children@[k]@.len() ==> elems@.take(i + 1).contains(#[trigger] self.children@[k]@[j]) by {
                        if k == ns.0 {
                            assert forall|j: int| 0 <= j < self.children@[k]@.len() implies elems@.take(i + 1).contains(#[trigger] self.children@[k]@[j]) by {
                                if j < old_kids.len() {
                                    assert(prev.contains(old_kids[j]));
                                    let w = choose|w: int| 0 <= w < prev.len() && prev[w] == old_kids[j];
                                    assert(elems@.take(i + 1)[w] == old_kids[j]);
                                } else {
                                    assert(elems@.take(i + 1)[i as int] == tn);
                                }
                            }
                        } else {
                            assert forall|j: int| 0 <= j < self.children@[k]@.len() implies elems@.take(i + 1).contains(#[trigger] self.children@[k]@[j]) by {
                                assert(prev.contains(before[k]@[j]));
                                let w = choose|w: int| 0 <= w < prev.len() && prev[w] == before[k]@[j];
                                assert(elems@.take(i + 1)[w] == before[k]@[j]);
                            }
                        }
                    }
                }
            } else {
                proof {
                    let target = child_index(prev.push(tn).to_set(), *it);
                    let old_idx = child_index(prev.to_set(), *it);
                    prev.lemma_push_to_set_commute(tn);
                    assert forall|k: u32| #[trigger] self.children_sets().contains_key(k) == target.contains_key(k) by {
                        assert(it@[tn as int].0 == ns);
                        if target.contains_key(k) {
                            let t = choose|t: u32| #[trigger] prev.push(tn).to_set().contains(t) && it@[t as int].0.0 == k
                                && it.spaces()[k as int].0.len() > 0;
                            if t != tn {
                                assert(prev.to_set().contains(t));
                            }
                            assert(old_idx.contains_key(k));
                        }
                        if old_idx.contains_key(k) {
                            let t = choose|t: u32| #[trigger] prev.to_set().contains(t) && it@[t as int].0.0 == k
                                && it.spaces()[k as int].0.len() > 0;
                            assert(prev.push(tn).to_set().contains(t));
                        }
                    }
                    assert forall|k: u32| #[trigger] self.children_sets().contains_key(k) implies self.children_sets()[k] =~= target[k] by {
                        assert(old_idx.contains_key(k));
                        assert(it.spaces()[k as int].0.len() > 0);
                    }
                    assert(self.children_sets() =~= target);
                    assert forall|k: u32| #[trigger] self.children@.contains_key(k) implies self.children@[k]@.no_duplicates()
                        && forall|j: int| 0 <= j < self.children@[k]@.len() ==> elems@.take(i + 1).contains(#[trigger] self.children@[k]@[j]) by {
                        assert forall|j: int| 0 <= j < self.children@[k]@.len() implies elems@.take(i + 1).contains(#[trigger] self.children@[k]@[j]) by {
                            assert(prev.contains(self.children@[k]@[j]));
                            let w = choose|w: int| 0 <= w < prev.len() && prev[w] == self.children@[k]@[j];
                            assert(elems@.take(i + 1)[w] == self.children@[k]@[j]);
                        }
                    }
                }
            }
            i = i + 1;
        }
        proof {
            assert(elems@.take(elems@.len() as int) =~= elems@);
        }
    }
}

/// What a relative type name becomes under the use map `m` (name id ->
/// type-name id): `None` for an absolute name or an unmapped head.
/// A name in the empty namespace is rewritten as a whole; otherwise the
/// first namespace segment is replaced by the mapped name's full path and
/// the result is absolute.
pub open spec fn rewrite_target(m: Map<u32, u32>, it: TypeNameInterner, tn: TypeNameSym) -> Option<
    (Seq<Sym>, Sym, crate::interner::TypeNameKind),
> {
    let (ns, name, kind) = it@[tn.0 as int];
    let (path, abs) = it.spaces()[ns.0 as int];
    if abs || path.len() == 0 || !m.contains_key(path[0].0) {
        None
    } else {
        let mapped = it@[m[path[0].0] as int];
        Some((it.spaces()[mapped.0.0 as int].0.push(mapped.1) + path.drop_first(), name, kind))
    }
}

/// `# use` rewriting of a relative name `H::S1::...::Sn::x` whose head
/// `H` is mapped to the type name `T`: the result is absolute, its
/// namespace is `T`'s namespace, then `T`'s own name, then every
/// remaining segment `S1 ... Sn` of the input in order; the name and its
/// kind are kept.
pub proof fn lemma_use_rewrite_keeps_tail(m: Map<u32, u32>, it: TypeNameInterner, tn: TypeNameSym)
    requires
        (tn.0 as int) < it@.len(),
        !it.spaces()[it@[tn.0 as int].0.0 as int].1,
        it.spaces()[it@[tn.0 as int].0.0 as int].0.len() > 0,
        m.contains_key(it.spaces()[it@[tn.0 as int].0.0 as int].0[0].0),
    ensures
        ({
            let (ns, name, kind) = it@[tn.0 as int];
            let path = it.spaces()[ns.0 as int].0;
            let target = it@[m[path[0].0] as int];
            let tpath = it.spaces()[target.0.0 as int].0;
            &&& rewrite_target(m, it, tn) matches Some((p, n, k))
            &&& n == name
            &&& k == kind
            &&& p.len() == tpath.len() + path.len()
            &&& forall|i: int| 0 <= i < tpath.len() ==> p[i] == tpath[i]
            &&& p[tpath.len() as int] == target.1
            &&& forall|j: int| 1 <= j < path.len() ==> p[tpath.len() + j] == #[trigger] path[j]
        }),
{
    let (ns, name, kind) = it@[tn.0 as int];
    let path = it.spaces()[ns.0 as int].0;
    let target = it@[m[path[0].0] as int];
    let tpath = it.spaces()[target.0.0 as int].0;
    let p = tpath.push(target.1) + path.drop_first();
    assert forall|j: int| 1 <= j < path.len() implies p[tpath.len() + j] == #[trigger] path[j] by {
        assert(p[tpath.len() + j] == path.drop_first()[j - 1]);
    }
}

/// Some name of `kids` has last segment `k`.
pub open spec fn named_by(kids: Set<u32>, it: TypeNameInterner, k: u32) -> bool {
    exists|c: u32| #[trigger] kids.contains(c) && it@[c as int].1.0 == k
}

/// Aliases from `# use` directives: a bare name -> the absolute type name
/// it stands for.
pub struct UseMap<'t> {
    table: &'t Table,
    map: HashMap<u32, u32>,
}

impl<'t> UseMap<'t> {
    /// Name id -> type-name id.
    pub closed spec fn aliases(&self) -> Map<u32, u32> {
        self.map@
    }

    /// The table the map was built over.
    pub closed spec fn table(&self) -> Table {
        *self.table
    }

    /// Every mapped type name is interned.
    pub open spec fn valid_for(&self, it: TypeNameInterner) -> bool {
        forall|k: u32| #[trigger] self.aliases().contains_key(k) ==> (self.aliases()[k] as int) < it@.len()
    }

    pub fn new(table: &'t Table) -> (r: Self)
        ensures
            r.aliases() == Map::<u32, u32>::empty(),
            r.table() == *table,
    {
        UseMap { table, map: HashMap::new() }
    }

    /// `use A::B` (or `use A::B as C`): bind the new name, or `B`, to
    /// the absolute `type_name`.
    pub fn add_single(&mut self, tn: TypeNameSym, new_name: Option<Sym>, it: &TypeNameInterner)
        requires
            (tn.0 as int) < it@.len(),
        ensures
            final(self).table() == old(self).table(),
            final(self).aliases() == old(self).aliases().insert(
                match new_name {
                    Some(n) => n.0,
                    None => it@[tn.0 as int].1.0,
                },
                tn.0,
            ),
    {
        broadcast use vstd::std_specs::hash::group_hash_axioms;

        let key = match new_name {
            Some(n) => n,
            None => it.name_of(tn),
        };
        self.map.insert(key.0, tn.0);
    }

    /// `use A::*`: bind every known name directly inside `namespace` by
    /// its last segment.
    pub fn add_wildcard(&mut self, namespace: NamespaceSym, it: &TypeNameInterner)
        requires
            forall|ns: u32| #[trigger] old(self).table().children_sets().contains_key(ns) ==> all_interned(
                old(self).table().children_sets()[ns],
                *it,
            ),
        ensures
            final(self).table() == old(self).table(),
            ({
                let kids = old(self).table().children_sets();
                let before = old(self).aliases();
                let after = final(self).aliases();
                if kids.contains_key(namespace.0) {
                    &&& after.dom() == before.dom() + Set::new(|k: u32| named_by(kids[namespace.0], *it, k))
                    &&& forall|k: u32| #[trigger] after.contains_key(k) ==> if named_by(kids[namespace.0], *it, k) {
                        kids[namespace.0].contains(after[k]) && it@[after[k] as int].1.0 == k
                    } else {
                        after[k] == before[k]
                    }
                } else {
                    after == before
                }
            }),
    {
        broadcast use vstd::std_specs::hash::group_hash_axioms;

        let kids = match self.table.children.get(&namespace.0) {
            Some(v) => v,
            None => return,
        };
        let ghost before = self.map@;
        let ghost kset = kids@.to_set();
        proof {
            assert(self.table().children_sets().contains_key(namespace.0));
            assert(self.table().children_sets()[namespace.0] == kset);
        }
        let mut i: usize = 0;
        while i < kids.len()
            invariant
                self.table() == old(self).table(),
                i <= kids@.len(),
                kset == kids@.to_set(),
                all_interned(kset, *it),
                self.map@.dom() == before.dom() + Set::new(
                    |k: u32| exists|j: int| 0 <= j < i && it@[kids@[j] as int].1.0 == k,
                ),
                forall|k: u32| #[trigger] self.map@.contains_key(k) ==> if exists|j: int| 0 <= j < i && it@[kids@[j] as int].1.0 == k {
                    kset.contains(self.map@[k]) && it@[self.map@[k] as int].1.0 == k
                } else {
                    self.map@[k] == before[k]
                },
            decreases kids.len() - i,
        {
            let child = kids[i];
            proof {
                assert(kset.contains(child));
            }
            let name = it.name_of(TypeNameSym(child));
            let ghost prev = self.map@;
            self.map.insert(name.0, child);
            proof {
                assert(self.map@.dom() =~= before.dom() + Set::new(
                    |k: u32| exists|j: int| 0 <= j < i + 1 && it@[kids@[j] as int].1.0 == k,
                )) by {
                    assert forall|k: u32| self.map@.dom().contains(k) <==> (before.dom() + Set::new(
                        |k: u32| exists|j: int| 0 <= j < i + 1 && it@[kids@[j] as int].1.0 == k)).contains(k) by {
                        if exists|j: int| 0 <= j < i + 1 && it@[kids@[j] as int].1.0 == k {
                            let j = choose|j: int| 0 <= j < i + 1 && it@[kids@[j] as int].1.0 == k;
                            if j < i {
                                assert(prev.contains_key(k));
                            }
                        }
                        if k == name.0 {
                            assert(it@[kids@[i as int] as int].1.0 == k);
                        }
                    }
                }
                assert forall|k: u32| #[trigger] self.map@.contains_key(k) implies if exists|j: int| 0 <= j < i + 1 && it@[kids@[j] as int].1.0 == k {
                    kset.contains(self.map@[k]) && it@[self.map@[k] as int].1.0 == k
                } else {
                    self.map@[k] == before[k]
                } by {
                    if k == name.0 {
                        assert(it@[kids@[i as int] as int].1.0 == k);
                    } else {
                        assert(prev.contains_key(k));
                        if exists|j: int| 0 <= j < i + 1 && it@[kids@[j] as int].1.0 == k {
                            let j = choose|j: int| 0 <= j < i + 1 && it@[kids@[j] as int].1.0 == k;
                            assert(j < i);
                        }
                    }
                }
            }
            i = i + 1;
        }
        proof {
            assert forall|k: u32| #[trigger] named_by(kset, *it, k) <==> (exists|j: int| 0 <= j < kids@.len() && it@[kids@[j] as int].1.0 == k) by {
                if exists|j: int| 0 <= j < kids@.len() && it@[kids@[j] as int].1.0 == k {
                    let j = choose|j: int| 0 <= j < kids@.len() && it@[kids@[j] as int].1.0 == k;
                    assert(kset.contains(kids@[j]));
                }
                if named_by(kset, *it, k) {
                    let c = choose|c: u32| #[trigger] kset.contains(c) && it@[c as int].1.0 == k;
                    let j = choose|j: int| 0 <= j < kids@.len() && kids@[j] == c;
                }
            }
            assert(self.map@.dom() =~= before.dom() + Set::new(|k: u32| named_by(kset, *it, k)));
        }
    }

    /// `UseMap#resolve?`: the absolute name a relative `tn` stands for
    /// under the map, if its head is mapped; `None` for absolute names.
    pub fn resolve_opt(&self, tn: TypeNameSym, it: &mut TypeNameInterner) -> (r: Option<TypeNameSym>)
        requires
            old(it).wf(),
            self.valid_for(*old(it)),
            (tn.0 as int) < old(it)@.len(),
            old(it).spaces().len() < u32::MAX,
            old(it)@.len() < u32::MAX,
        ensures
            final(it).wf(),
            final(it).extends(old(it)),
            final(it).syms() == old(it).syms(),
            final(it).spaces().len() <= old(it).spaces().len() + 1,
            final(it)@.len() <= old(it)@.len() + 1,
            ({
                let (ns, name, kind) = old(it)@[tn.0 as int];
                let (path, abs) = old(it).spaces()[ns.0 as int];
                if abs {
                    r is None && *final(it) == *old(it)
                } else if path.len() == 0 {
                    *final(it) == *old(it) && r == (if self.aliases().contains_key(name.0) {
                        Some(TypeNameSym(self.aliases()[name.0]))
                    } else {
                        None
                    })
                } else {
                    match rewrite_target(self.aliases(), *old(it), tn) {
                        None => r is None && *final(it) == *old(it),
                        Some((new_path, n, k)) => r matches Some(t) && (t.0 as int) < final(it)@.len()
                            && final(it)@[t.0 as int].1 == n && final(it)@[t.0 as int].2 == k
                            && final(it).spaces()[final(it)@[t.0 as int].0.0 as int] == (new_path, true),
                    }
                }
            }),
            r matches Some(t) ==> (t.0 as int) < final(it)@.len(),
    {
        broadcast use vstd::std_specs::hash::group_hash_axioms;

        proof {
            old(it).lemma_wf_facts();
            assert(old(it).valid_entry(old(it)@[tn.0 as int]));
        }
        let (ns, name, kind) = it.lookup(tn);
        let entry = it.namespace(ns);
        if entry.1 {
            return None;
        }
        let n = entry.0.len();
        if n == 0 {
            return match self.map.get(&name.0) {
                Some(m) => Some(TypeNameSym(*m)),
                None => None,
            };
        }
        let head = entry.0[0];
        let mapped = match self.map.get(&head.0) {
            Some(m) => TypeNameSym(*m),
            None => return None,
        };
        let (mns, mname, _mk) = it.lookup(mapped);
        proof {
            assert(it.valid_entry(it@[mapped.0 as int]));
            assert(it.valid_path(it.spaces()[mns.0 as int].0));
            assert(it.valid_path(it.spaces()[ns.0 as int].0));
        }
        let mentry = it.namespace(mns);
        let mut new_path: Vec<Sym> = Vec::new();
        let mut j: usize = 0;
        while j < mentry.0.len()
            invariant
                j <= mentry.0@.len(),
                new_path@ == mentry.0@.take(j as int),
            decreases mentry.0.len() - j,
        {
            new_path.push(mentry.0[j]);
            proof {
                assert(mentry.0@.take(j + 1) =~= mentry.0@.take(j as int).push(mentry.0@[j as int]));
            }
            j = j + 1;
        }
        new_path.push(mname);
        let ghost lead = new_path@;
        proof {
            assert(mentry.0@.take(mentry.0@.len() as int) =~= mentry.0@);
        }
        let mut t: usize = 1;
        while t < n
            invariant
                1 <= t <= n,
                n == entry.0@.len(),
                new_path@ == lead + entry.0@.subrange(1, t as int),
            decreases n - t,
        {
            new_path.push(entry.0[t]);
            proof {
                assert(entry.0@.subrange(1, t + 1) =~= entry.0@.subrange(1, t as int).push(entry.0@[t as int]));
            }
            t = t + 1;
        }
        proof {
            assert(entry.0@.subrange(1, n as int) =~= entry.0@.drop_first());
            assert(it.valid_path(new_path@)) by {
                assert forall|q: int| 0 <= q < new_path@.len() implies (#[trigger] new_path@[q].0 as int) < it.syms().len() by {
                    if q < mentry.0@.len() {
                        assert(new_path@[q] == it.spaces()[mns.0 as int].0[q]);
                    } else if q == mentry.0@.len() {
                        assert(new_path@[q] == mname);
                    } else {
                        assert(new_path@[q] == it.spaces()[ns.0 as int].0[q - mentry.0@.len()]);
                    }
                }
            }
        }
        let new_ns = it.intern_namespace(new_path.as_slice(), true);
        proof {
            assert(old(it).valid_entry(old(it)@[tn.0 as int]));
        }
        let r = it.intern(new_ns, name, kind);
        proof {
            assert(old(it).syms().is_prefix_of(it.syms()));
            assert(old(it).spaces().is_prefix_of(it.spaces()));
            assert(old(it)@.is_prefix_of(it@));
        }
        Some(r)
    }

    /// `UseMap#resolve`: [`Self::resolve_opt`], or `tn` itself.
    pub fn resolve(&self, tn: TypeNameSym, it: &mut TypeNameInterner) -> (r: TypeNameSym)
        requires
            old(it).wf(),
            self.valid_for(*old(it)),
            (tn.0 as int) < old(it)@.len(),
            old(it).spaces().len() < u32::MAX,
            old(it)@.len() < u32::MAX,
        ensures
            final(it).wf(),
            final(it).extends(old(it)),
            final(it).syms() == old(it).syms(),
            final(it).spaces().len() <= old(it).spaces().len() + 1,
            final(it)@.len() <= old(it)@.len() + 1,
            (r.0 as int) < final(it)@.len(),
            ({
                let (ns, name, kind) = old(it)@[tn.0 as int];
                let (path, abs) = old(it).spaces()[ns.0 as int];
                if abs {
                    r == tn && *final(it) == *old(it)
                } else if path.len() == 0 {
                    *final(it) == *old(it) && r == (if self.aliases().contains_key(name.0) {
                        TypeNameSym(self.aliases()[name.0])
                    } else {
                        tn
                    })
                } else {
                    match rewrite_target(self.aliases(), *old(it), tn) {
                        None => r == tn && *final(it) == *old(it),
                        Some((new_path, n, k)) => final(it)@[r.0 as int].1 == n && final(it)@[r.0 as int].2 == k
                            && final(it).spaces()[final(it)@[r.0 as int].0.0 as int] == (new_path, true),
                    }
                }
            }),
    {
        match self.resolve_opt(tn, it) {
            Some(t) => t,
            None => tn,
        }
    }
}

} // verus!
