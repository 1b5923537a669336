//! The type-name environment: every declaration of the loaded signatures,
//! keyed by its interned absolute name.
use std::collections::{HashMap, HashSet};
use vstd::prelude::*;

use crate::interner::{name_value, NameValue, TypeNameInterner, TypeNameSym};
use crate::source::Source;

pub mod insert;
pub mod resolution;
pub mod use_map;

verus! {

/// A declaration node: its source file and its pre-order index among the
/// declarations (nested ones included) of that file.
#[derive(Debug, Clone, Copy, PartialEq, Eq, Hash, Structural)]
pub struct DeclRef {
    pub source_index: u32,
    pub decl_index: u32,
}

/// The class/module scopes around a declaration, outermost first.
pub type Context = Vec<TypeNameSym>;

/// What a class or module alias points at, and the scopes it was
/// declared in.
#[derive(Debug, Clone)]
pub struct ClassAliasEntry {
    pub old_name: TypeNameSym,
    pub context: Context,
}

/// What a declared name is.
#[derive(Debug, Clone)]
pub enum DeclEntry {
    Class,
    Module,
    Interface,
    TypeAlias,
    Constant,
    ClassAlias(Box<ClassAliasEntry>),
}

/// Class, module, interface and type-alias names are what type names
/// resolve to; constants and aliases are not.
pub open spec fn resolvable(e: DeclEntry) -> bool {
    match e {
        DeclEntry::Class | DeclEntry::Module | DeclEntry::Interface | DeclEntry::TypeAlias => true,
        _ => false,
    }
}

impl DeclEntry {
    /// Whether this declaration contributes a name type names can
    /// resolve to.
    pub fn is_resolvable(&self) -> (b: bool)
        ensures
            b == resolvable(*self),
    {
        match self {
            DeclEntry::Class | DeclEntry::Module | DeclEntry::Interface | DeclEntry::TypeAlias => true,
            _ => false,
        }
    }
}

/// Whether a class-like name was declared as a class or as a module.
#[derive(Debug, Clone, Copy, PartialEq, Eq, Structural)]
pub enum ClassLikeEntry {
    Class,
    Module,
}

impl DeclEntry {
    /// For a class or module declaration, which of the two it is.
    pub fn class_like(&self) -> (r: Option<ClassLikeEntry>)
        ensures
            r == (match *self {
                DeclEntry::Class => Some(ClassLikeEntry::Class),
                DeclEntry::Module => Some(ClassLikeEntry::Module),
                _ => None,
            }),
    {
        match self {
            DeclEntry::Class => Some(ClassLikeEntry::Class),
            DeclEntry::Module => Some(ClassLikeEntry::Module),
            _ => None,
        }
    }
}

/// Every type name an entry refers to is one of the first `n` interned.
pub open spec fn entry_refs_valid(e: DeclEntry, n: int) -> bool {
    match e {
        DeclEntry::ClassAlias(a) => (a.old_name.0 as int) < n && forall|i: int|
            0 <= i < a.context@.len() ==> (#[trigger] a.context@[i].0 as int) < n,
        _ => true,
    }
}

/// Validity of an entry's references survives interning more names.
pub proof fn lemma_entry_refs_grow(e: DeclEntry, n: int, m: int)
    requires
        entry_refs_valid(e, n),
        n <= m,
    ensures
        entry_refs_valid(e, m),
{
    match e {
        DeclEntry::ClassAlias(a) => {
            assert forall|i: int| 0 <= i < a.context@.len() implies (#[trigger] a.context@[i].0 as int) < m by {
                assert((a.context@[i].0 as int) < n);
            }
        },
        _ => {},
    }
}

/// A declaration entry spelled out: an alias holds what its old name and
/// scopes spell.
pub enum EntryValue {
    Class,
    Module,
    Interface,
    TypeAlias,
    Constant,
    Alias(NameValue, Seq<NameValue>),
}

/// What the type names of `ctx` spell.
pub open spec fn context_value(it: TypeNameInterner, ctx: Seq<TypeNameSym>) -> Seq<NameValue> {
    ctx.map_values(|t: TypeNameSym| name_value(it, t))
}

/// What entry `e` spells.
pub open spec fn entry_value(it: TypeNameInterner, e: DeclEntry) -> EntryValue {
    match e {
        DeclEntry::Class => EntryValue::Class,
        DeclEntry::Module => EntryValue::Module,
        DeclEntry::Interface => EntryValue::Interface,
        DeclEntry::TypeAlias => EntryValue::TypeAlias,
        DeclEntry::Constant => EntryValue::Constant,
        DeclEntry::ClassAlias(a) => EntryValue::Alias(name_value(it, a.old_name), context_value(it, a.context@)),
    }
}

pub proof fn lemma_entry_value_stable(it: TypeNameInterner, old: TypeNameInterner, e: DeclEntry)
    requires
        old.wf(),
        it.extends(&old),
        entry_refs_valid(e, old@.len() as int),
    ensures
        entry_value(it, e) == entry_value(old, e),
{
    match e {
        DeclEntry::ClassAlias(a) => {
            it.lemma_value_stable(&old, a.old_name);
            assert(context_value(it, a.context@) =~= context_value(old, a.context@)) by {
                assert forall|i: int| 0 <= i < a.context@.len() implies name_value(it, a.context@[i]) == name_value(old, a.context@[i]) by {
                    assert((a.context@[i].0 as int) < old@.len());
                    it.lemma_value_stable(&old, a.context@[i]);
                }
            }
        },
        _ => {},
    }
}

/// All declarations of the loaded sources.
pub struct Environment {
    pub interner: TypeNameInterner,
    pub sources: Vec<Source>,
    /// The declarations, each name once, in the order names were first
    /// declared.
    pub decl_list: Vec<(TypeNameSym, DeclEntry)>,
    /// Where each declared name stands in `decl_list`.
    pub decl_index: HashMap<u32, usize>,
    /// Declared global variables, by interned name.
    pub global_decls: HashSet<u32>,
}

impl Environment {
    /// The declarations by interned name.
    pub open spec fn decls(&self) -> Map<u32, DeclEntry> {
        Map::new(
            |k: u32| self.decl_index@.contains_key(k),
            |k: u32| self.decl_list@[self.decl_index@[k] as int].1,
        )
    }

    /// The declarations in the order their names were first declared.
    pub open spec fn decl_order(&self) -> Seq<(TypeNameSym, DeclEntry)> {
        self.decl_list@
    }

    pub closed spec fn wf(&self) -> bool {
        &&& self.interner.wf()
        &&& forall|k: u32| #[trigger] self.decl_index@.contains_key(k) ==> (self.decl_index@[k] as int) < self.decl_list@.len()
            && self.decl_list@[self.decl_index@[k] as int].0.0 == k
        &&& forall|i: int| 0 <= i < self.decl_list@.len() ==> #[trigger] self.decl_index@.contains_key(self.decl_list@[i].0.0)
            && self.decl_index@[self.decl_list@[i].0.0] == i
        &&& forall|i: int| 0 <= i < self.decl_list@.len() ==> (#[trigger] self.decl_list@[i].0.0 as int) < self.interner@.len()
            && entry_refs_valid(self.decl_list@[i].1, self.interner@.len() as int)
        &&& forall|s: u32| #[trigger] self.global_decls@.contains(s) ==> (s as int) < self.interner.syms().len()
    }

    /// Declared names, and the names alias entries refer to, are interned.
    pub proof fn lemma_decls_valid(&self)
        requires
            self.wf(),
        ensures
            self.interner.wf(),
            forall|k: u32| #[trigger] self.decls().contains_key(k) ==> (k as int) < self.interner@.len()
                && entry_refs_valid(self.decls()[k], self.interner@.len() as int),
    {
        assert forall|k: u32| #[trigger] self.decls().contains_key(k) implies (k as int) < self.interner@.len()
            && entry_refs_valid(self.decls()[k], self.interner@.len() as int) by {
            let i = self.decl_index@[k] as int;
            assert(self.decl_list@[i].0.0 == k);
        }
    }

    /// Interning more names keeps the environment well formed.
    pub proof fn lemma_interner_grew(&self, before: &Environment)
        requires
            before.wf(),
            self.interner.wf(),
            self.decl_list == before.decl_list,
            self.decl_index == before.decl_index,
            self.global_decls == before.global_decls,
            self.interner.extends(&before.interner),
        ensures
            self.wf(),
            self.decls() == before.decls(),
            self.decl_values() == before.decl_values(),
            self.global_values() == before.global_values(),
    {
        before.interner.lemma_wf_facts();
        assert(before.interner.syms().is_prefix_of(self.interner.syms()));
        assert(before.interner@.is_prefix_of(self.interner@));
        assert forall|i: int| 0 <= i < self.decl_list@.len() implies (#[trigger] self.decl_list@[i].0.0 as int) < self.interner@.len()
            && entry_refs_valid(self.decl_list@[i].1, self.interner@.len() as int) by {
            assert((before.decl_list@[i].0.0 as int) < before.interner@.len());
            lemma_entry_refs_grow(before.decl_list@[i].1, before.interner@.len() as int, self.interner@.len() as int);
        }
        assert(self.decls() =~= before.decls());
        assert forall|s: u32| #[trigger] self.global_decls@.contains(s) implies (s as int) < self.interner.syms().len() by {
            assert((s as int) < before.interner.syms().len());
        }
        self.lemma_values_stable(before);
    }

    /// A declared number's name is declared, with its entry's value.
    pub proof fn lemma_decl_value_at(&self, k: TypeNameSym)
        requires
            self.wf(),
            (k.0 as int) < self.interner@.len(),
        ensures
            self.decl_values().contains_key(name_value(self.interner, k)) == self.decls().contains_key(k.0),
            self.decls().contains_key(k.0) ==> self.decl_values()[name_value(self.interner, k)] == entry_value(
                self.interner,
                self.decls()[k.0],
            ),
    {
        self.lemma_decls_valid();
        let v = name_value(self.interner, k);
        if self.decl_values().contains_key(v) {
            let k2 = choose|k2: u32| #[trigger] self.decls().contains_key(k2) && name_value(self.interner, TypeNameSym(k2)) == v;
            self.interner.lemma_value_injective(TypeNameSym(k2), k);
        }
        if self.decls().contains_key(k.0) {
            assert(self.decls().contains_key(k.0) && name_value(self.interner, TypeNameSym(k.0)) == v);
        }
    }

    /// What the declarations spell: declared name -> entry.
    pub open spec fn decl_values(&self) -> Map<NameValue, EntryValue> {
        Map::new(
            |v: NameValue| exists|k: u32| #[trigger] self.decls().contains_key(k) && name_value(self.interner, TypeNameSym(k)) == v,
            |v: NameValue| entry_value(
                self.interner,
                self.decls()[choose|k: u32| #[trigger] self.decls().contains_key(k) && name_value(self.interner, TypeNameSym(k)) == v],
            ),
        )
    }

    /// The declared global variable names.
    pub open spec fn global_values(&self) -> Set<Seq<char>> {
        Set::new(|t: Seq<char>| exists|s: u32| #[trigger] self.global_decls@.contains(s) && self.interner.syms()[s as int] == t)
    }

    proof fn lemma_values_stable(&self, before: &Environment)
        requires
            before.wf(),
            self.interner.wf(),
            self.decl_list == before.decl_list,
            self.decl_index == before.decl_index,
            self.global_decls == before.global_decls,
            self.interner.extends(&before.interner),
        ensures
            self.decl_values() == before.decl_values(),
            self.global_values() == before.global_values(),
    {
        before.lemma_decls_valid();
        assert(self.decls() =~= before.decls());
        assert forall|k: u32| #[trigger] self.decls().contains_key(k) implies name_value(self.interner, TypeNameSym(k))
            == name_value(before.interner, TypeNameSym(k)) && entry_value(self.interner, self.decls()[k]) == entry_value(
            before.interner,
            before.decls()[k],
        ) by {
            self.interner.lemma_value_stable(&before.interner, TypeNameSym(k));
            lemma_entry_value_stable(self.interner, before.interner, before.decls()[k]);
        }
        assert forall|v: NameValue| #[trigger] self.decl_values().contains_key(v) == before.decl_values().contains_key(v) by {
            if self.decl_values().contains_key(v) {
                let k = choose|k: u32| #[trigger] self.decls().contains_key(k) && name_value(self.interner, TypeNameSym(k)) == v;
                assert(before.decls().contains_key(k) && name_value(before.interner, TypeNameSym(k)) == v);
            }
            if before.decl_values().contains_key(v) {
                let k = choose|k: u32| #[trigger] before.decls().contains_key(k) && name_value(before.interner, TypeNameSym(k)) == v;
                assert(self.decls().contains_key(k) && name_value(self.interner, TypeNameSym(k)) == v);
            }
        }
        assert forall|v: NameValue| #[trigger] self.decl_values().contains_key(v) implies self.decl_values()[v] == before.decl_values()[v] by {
            let k1 = choose|k: u32| #[trigger] self.decls().contains_key(k) && name_value(self.interner, TypeNameSym(k)) == v;
            let k2 = choose|k: u32| #[trigger] before.decls().contains_key(k) && name_value(before.interner, TypeNameSym(k)) == v;
            assert(self.decls().contains_key(k2) && name_value(self.interner, TypeNameSym(k2)) == v);
            self.interner.lemma_value_injective(TypeNameSym(k1), TypeNameSym(k2));
        }
        assert(self.decl_values() =~= before.decl_values());
        assert forall|t: Seq<char>| #[trigger] self.global_values().contains(t) == before.global_values().contains(t) by {
            if self.global_values().contains(t) {
                let s = choose|s: u32| #[trigger] self.global_decls@.contains(s) && self.interner.syms()[s as int] == t;
                assert((s as int) < before.interner.syms().len());
                assert(before.interner.syms().is_prefix_of(self.interner.syms()));
            }
            if before.global_values().contains(t) {
                let s = choose|s: u32| #[trigger] before.global_decls@.contains(s) && before.interner.syms()[s as int] == t;
                assert((s as int) < before.interner.syms().len());
                assert(before.interner.syms().is_prefix_of(self.interner.syms()));
            }
        }
        assert(self.global_values() =~= before.global_values());
    }

    /// The listed declarations are the declarations, each name once.
    pub proof fn lemma_decl_order(&self)
        requires
            self.wf(),
        ensures
            forall|i: int, j: int| 0 <= i < j < self.decl_order().len() ==> (#[trigger] self.decl_order()[i]).0 != (#[trigger] self.decl_order()[j]).0,
            forall|i: int| 0 <= i < self.decl_order().len() ==> #[trigger] self.decls().contains_key(self.decl_order()[i].0.0)
                && self.decls()[self.decl_order()[i].0.0] == self.decl_order()[i].1,
            forall|k: u32| #[trigger] self.decls().contains_key(k) ==> exists|i: int| 0 <= i < self.decl_order().len() && self.decl_order()[i].0.0 == k,
    {
        assert forall|i: int, j: int| 0 <= i < j < self.decl_order().len() implies (#[trigger] self.decl_order()[i]).0 != (#[trigger] self.decl_order()[j]).0 by {
            assert(self.decl_index@.contains_key(self.decl_list@[i].0.0));
            assert(self.decl_index@.contains_key(self.decl_list@[j].0.0));
        }
        assert forall|i: int| 0 <= i < self.decl_order().len() implies #[trigger] self.decls().contains_key(self.decl_order()[i].0.0)
            && self.decls()[self.decl_order()[i].0.0] == self.decl_order()[i].1 by {
            assert(self.decl_index@.contains_key(self.decl_list@[i].0.0));
        }
        assert forall|k: u32| #[trigger] self.decls().contains_key(k) implies exists|i: int| 0 <= i < self.decl_order().len() && self.decl_order()[i].0.0 == k by {
            let i = self.decl_index@[k] as int;
            assert(self.decl_order()[i].0.0 == k);
        }
    }

    pub fn new() -> (r: Self)
        ensures
            r.wf(),
            r.interner@.len() == 0,
            r.interner.syms().len() == 0,
            r.interner.spaces().len() == 2,
            r.sources@.len() == 0,
            r.decls() == Map::<u32, DeclEntry>::empty(),
            r.global_decls@ == Set::<u32>::empty(),
    {
        let r = Environment {
            interner: TypeNameInterner::new(),
            sources: Vec::new(),
            decl_list: Vec::new(),
            decl_index: HashMap::new(),
            global_decls: HashSet::new(),
        };
        proof {
            assert(r.decls() =~= Map::<u32, DeclEntry>::empty());
        }
        r
    }

    /// The declaration of `name`, if any.
    pub fn decl(&self, name: TypeNameSym) -> (r: Option<&DeclEntry>)
        requires
            self.wf(),
        ensures
            match r {
                Some(e) => self.decls().contains_key(name.0) && *e == self.decls()[name.0],
                None => !self.decls().contains_key(name.0),
            },
    {
        broadcast use vstd::std_specs::hash::group_hash_axioms;

        match self.decl_index.get(&name.0) {
            Some(i) => Some(&self.decl_list[*i].1),
            None => None,
        }
    }

    /// Declare `name` as `entry`, replacing an earlier declaration of it.
    pub fn set_decl(&mut self, name: TypeNameSym, entry: DeclEntry)
        requires
            old(self).wf(),
            (name.0 as int) < old(self).interner@.len(),
            entry_refs_valid(entry, old(self).interner@.len() as int),
        ensures
            final(self).wf(),
            final(self).decls() == old(self).decls().insert(name.0, entry),
            final(self).decl_values() == old(self).decl_values().insert(
                name_value(old(self).interner, name),
                entry_value(old(self).interner, entry),
            ),
            final(self).global_values() == old(self).global_values(),
            final(self).interner == old(self).interner,
            final(self).sources == old(self).sources,
            final(self).global_decls == old(self).global_decls,
    {
        broadcast use vstd::std_specs::hash::group_hash_axioms;

        let ghost before = self.decl_list@;
        match self.decl_index.get(&name.0) {
            Some(i) => {
                let i = *i;
                self.decl_list.set(i, (name, entry));
                proof {
                    assert forall|k: u32| #[trigger] self.decl_index@.contains_key(k) implies (self.decl_index@[k] as int)
                        < self.decl_list@.len() && self.decl_list@[self.decl_index@[k] as int].0.0 == k by {
                        assert(old(self).decl_index@.contains_key(k));
                    }
                    assert forall|j: int| 0 <= j < self.decl_list@.len() implies #[trigger] self.decl_index@.contains_key(
                        self.decl_list@[j].0.0,
                    ) && self.decl_index@[self.decl_list@[j].0.0] == j by {
                        if j != i {
                            assert(self.decl_list@[j] == before[j]);
                        }
                    }
                    assert(self.decls() =~= old(self).decls().insert(name.0, entry));
                }
            },
            None => {
                let n = self.decl_list.len();
                self.decl_list.push((name, entry));
                self.decl_index.insert(name.0, n);
                proof {
                    assert forall|k: u32| #[trigger] self.decl_index@.contains_key(k) implies (self.decl_index@[k] as int)
                        < self.decl_list@.len() && self.decl_list@[self.decl_index@[k] as int].0.0 == k by {
                        if k != name.0 {
                            assert(old(self).decl_index@.contains_key(k));
                        }
                    }
                    assert forall|j: int| 0 <= j < self.decl_list@.len() implies #[trigger] self.decl_index@.contains_key(
                        self.decl_list@[j].0.0,
                    ) && self.decl_index@[self.decl_list@[j].0.0] == j by {
                        if j < n {
                            assert(self.decl_list@[j] == before[j]);
                            assert(old(self).decl_index@.contains_key(before[j].0.0));
                        }
                    }
                    assert(self.decls() =~= old(self).decls().insert(name.0, entry));
                }
            },
        }
        proof {
            self.lemma_insert_value(old(self), name, entry);
        }
    }

    proof fn lemma_insert_value(&self, before: &Environment, name: TypeNameSym, entry: DeclEntry)
        requires
            before.wf(),
            self.interner == before.interner,
            self.global_decls == before.global_decls,
            (name.0 as int) < before.interner@.len(),
            self.decls() == before.decls().insert(name.0, entry),
        ensures
            self.decl_values() == before.decl_values().insert(
                name_value(before.interner, name),
                entry_value(before.interner, entry),
            ),
            self.global_values() == before.global_values(),
    {
        before.lemma_decls_valid();
        let it = before.interner;
        let nv = name_value(it, name);
        let target = before.decl_values().insert(nv, entry_value(it, entry));
        assert forall|v: NameValue| #[trigger] self.decl_values().contains_key(v) == target.contains_key(v) by {
            if self.decl_values().contains_key(v) && v != nv {
                let k = choose|k: u32| #[trigger] self.decls().contains_key(k) && name_value(it, TypeNameSym(k)) == v;
                assert(k != name.0);
                assert(before.decls().contains_key(k));
            }
            if before.decl_values().contains_key(v) {
                let k = choose|k: u32| #[trigger] before.decls().contains_key(k) && name_value(it, TypeNameSym(k)) == v;
                assert(self.decls().contains_key(k));
            }
            if v == nv {
                assert(self.decls().contains_key(name.0));
            }
        }
        assert forall|v: NameValue| #[trigger] self.decl_values().contains_key(v) implies self.decl_values()[v] == target[v] by {
            let k = choose|k: u32| #[trigger] self.decls().contains_key(k) && name_value(it, TypeNameSym(k)) == v;
            if v == nv {
                assert(self.decls().contains_key(name.0));
                assert((k as int) < it@.len()) by {
                    if k != name.0 {
                        assert(before.decls().contains_key(k));
                    }
                }
                it.lemma_value_injective(TypeNameSym(k), name);
            } else {
                assert(k != name.0);
                assert(before.decls().contains_key(k));
                let k2 = choose|k: u32| #[trigger] before.decls().contains_key(k) && name_value(it, TypeNameSym(k)) == v;
                it.lemma_value_injective(TypeNameSym(k), TypeNameSym(k2));
            }
        }
        assert(self.decl_values() =~= target);
        assert(self.global_values() =~= before.global_values());
    }

    /// Declare global `name`; `false` when it was already declared (the
    /// declarations stay as they were).
    pub fn add_global(&mut self, name: crate::interner::Sym) -> (added: bool)
        requires
            old(self).wf(),
            (name.0 as int) < old(self).interner.syms().len(),
        ensures
            final(self).wf(),
            added == !old(self).global_values().contains(old(self).interner.syms()[name.0 as int]),
            final(self).global_values() == old(self).global_values().insert(old(self).interner.syms()[name.0 as int]),
            final(self).decl_values() == old(self).decl_values(),
            final(self).decls() == old(self).decls(),
            final(self).interner == old(self).interner,
            final(self).decl_list == old(self).decl_list,
            final(self).decl_index == old(self).decl_index,
            final(self).sources == old(self).sources,
    {
        broadcast use vstd::std_specs::hash::group_hash_axioms;

        let added = self.global_decls.insert(name.0);
        proof {
            self.interner.lemma_wf_facts();
            let t = self.interner.syms()[name.0 as int];
            assert(added == !old(self).global_values().contains(t)) by {
                if old(self).global_values().contains(t) {
                    let s = choose|s: u32| #[trigger] old(self).global_decls@.contains(s) && self.interner.syms()[s as int] == t;
                    assert((s as int) < self.interner.syms().len());
                    assert(s == name.0);
                }
            }
            assert forall|u: Seq<char>| #[trigger] self.global_values().contains(u) == old(self).global_values().insert(t).contains(u) by {
                if self.global_values().contains(u) && u != t {
                    let s = choose|s: u32| #[trigger] self.global_decls@.contains(s) && self.interner.syms()[s as int] == u;
                    assert(old(self).global_decls@.contains(s));
                }
                if old(self).global_values().contains(u) {
                    let s = choose|s: u32| #[trigger] old(self).global_decls@.contains(s) && self.interner.syms()[s as int] == u;
                    assert(self.global_decls@.contains(s));
                }
                if u == t {
                    assert(self.global_decls@.contains(name.0));
                }
            }
            assert(self.global_values() =~= old(self).global_values().insert(t));
            assert(self.decl_values() =~= old(self).decl_values());
        }
        added
    }
}

} // verus!
