//! `RBS::Resolver::TypeNameResolver`: turns a type name written inside
//! some class/module scopes into the absolute name it refers to.
//!
//! Every candidate is looked up in the interner, never interned: a
//! candidate that was never interned is not a declaration.
use std::collections::{HashMap, HashSet};
use vstd::prelude::*;

use crate::env::{resolvable, DeclEntry, Environment};
use crate::interner::{
    kind_of_name, lemma_index_of_at, namespace_id, namespace_of_type_name, type_name_id, NamespaceSym, Sym, TypeNameInterner,
    TypeNameKind, TypeNameSym,
};

verus! {

/// The namespace type name `tn` stands for, when it is interned.
pub open spec fn scope_of(it: TypeNameInterner, tn: TypeNameSym) -> Option<NamespaceSym> {
    namespace_id(it.spaces(), namespace_of_type_name(it.spaces(), it@[tn.0 as int]))
}

/// The absolute root namespace's number.
pub open spec fn root_of(it: TypeNameInterner) -> Option<NamespaceSym> {
    namespace_id(it.spaces(), (Seq::<Sym>::empty(), true))
}

/// The kind a name's text implies.
pub open spec fn kind_of_sym(it: TypeNameInterner, s: Sym) -> TypeNameKind {
    kind_of_name(it.syms()[s.0 as int])
}

/// The interned `(ns, name, kind)` when it is in `found`.
pub open spec fn hit_in(
    it: TypeNameInterner,
    ns: Option<NamespaceSym>,
    name: Sym,
    kind: TypeNameKind,
    found: Set<u32>,
) -> Option<TypeNameSym> {
    match ns {
        None => None,
        Some(ns) => match type_name_id(it@, (ns, name, kind)) {
            Some(c) => if found.contains(c.0) {
                Some(c)
            } else {
                None
            },
            None => None,
        },
    }
}

/// `name` looked up in the scopes of `ctx` from innermost to outermost,
/// then at the absolute root: the first candidate in `found`.
pub open spec fn lookup_in_scopes(
    it: TypeNameInterner,
    name: Sym,
    kind: TypeNameKind,
    ctx: Seq<TypeNameSym>,
    found: Set<u32>,
) -> Option<TypeNameSym>
    decreases ctx.len(),
{
    if ctx.len() == 0 {
        hit_in(it, root_of(it), name, kind, found)
    } else {
        let hit = hit_in(it, scope_of(it, ctx.last()), name, kind, found);
        if hit is Some {
            hit
        } else {
            lookup_in_scopes(it, name, kind, ctx.drop_last(), found)
        }
    }
}

/// How many aliases are not yet being followed.
pub open spec fn unvisited(aliases: Map<u32, (TypeNameSym, Seq<TypeNameSym>)>, visited: Set<u32>) -> nat {
    aliases.dom().difference(visited).len()
}

pub proof fn lemma_unvisited_shrinks(
    aliases: Map<u32, (TypeNameSym, Seq<TypeNameSym>)>,
    visited: Set<u32>,
    c: u32,
)
    requires
        aliases.dom().finite(),
        aliases.contains_key(c),
        !visited.contains(c),
    ensures
        unvisited(aliases, visited.insert(c)) < unvisited(aliases, visited),
{
    let d = aliases.dom().difference(visited);
    assert(aliases.dom().difference(visited.insert(c)) =~= d.remove(c));
    assert(d.contains(c));
}

/// `resolve_namespace0`: resolve the first segment of `tn` (as a class or
/// alias, in the scopes of `ctx` unless `tn` is absolute), follow an
/// alias there, then walk the remaining segments.
pub open spec fn resolve_namespace(
    names: Set<u32>,
    aliases: Map<u32, (TypeNameSym, Seq<TypeNameSym>)>,
    it: TypeNameInterner,
    tn: TypeNameSym,
    ctx: Seq<TypeNameSym>,
    visited: Set<u32>,
) -> Option<TypeNameSym>
    decreases unvisited(aliases, visited), 1int, 0int,
    when aliases.dom().finite()
{
    let (ns, name, _) = it@[tn.0 as int];
    let (path, abs) = it.spaces()[ns.0 as int];
    let segs = path.push(name);
    let known = names + aliases.dom();
    let head = if abs {
        hit_in(it, root_of(it), segs[0], TypeNameKind::Class, known)
    } else {
        lookup_in_scopes(it, segs[0], TypeNameKind::Class, ctx, known)
    };
    match head {
        None => None,
        Some(acc) => if aliases.contains_key(acc.0) {
            if visited.contains(acc.0) {
                None
            } else {
                proof {
                    lemma_unvisited_shrinks(aliases, visited, acc.0);
                }
                match resolve_namespace(names, aliases, it, aliases[acc.0].0, aliases[acc.0].1, visited.insert(acc.0)) {
                    None => None,
                    Some(a) => resolve_segments(names, aliases, it, a, segs.drop_first(), visited),
                }
            }
        } else {
            resolve_segments(names, aliases, it, acc, segs.drop_first(), visited)
        },
    }
}

/// Walk `segs` from `acc`: each segment must name a declared type or an
/// alias inside the current name; aliases are followed.
pub open spec fn resolve_segments(
    names: Set<u32>,
    aliases: Map<u32, (TypeNameSym, Seq<TypeNameSym>)>,
    it: TypeNameInterner,
    acc: TypeNameSym,
    segs: Seq<Sym>,
    visited: Set<u32>,
) -> Option<TypeNameSym>
    decreases unvisited(aliases, visited), 0int, segs.len(),
    when aliases.dom().finite()
{
    if segs.len() == 0 {
        Some(acc)
    } else {
        match scope_of(it, acc) {
            None => None,
            Some(acc_ns) => match type_name_id(it@, (acc_ns, segs[0], kind_of_sym(it, segs[0]))) {
                None => None,
                Some(c) => if names.contains(c.0) {
                    resolve_segments(names, aliases, it, c, segs.drop_first(), visited)
                } else if aliases.contains_key(c.0) {
                    if visited.contains(c.0) {
                        None
                    } else {
                        proof {
                            lemma_unvisited_shrinks(aliases, visited, c.0);
                        }
                        match resolve_namespace(names, aliases, it, aliases[c.0].0, aliases[c.0].1, visited.insert(c.0)) {
                            None => None,
                            Some(a) => resolve_segments(names, aliases, it, a, segs.drop_first(), visited),
                        }
                    }
                } else {
                    None
                },
            },
        }
    }
}

/// `TypeNameResolver#resolve`: the absolute declared name `tn` refers to
/// from inside the scopes `ctx`, if any.
pub open spec fn resolve_spec(
    names: Set<u32>,
    aliases: Map<u32, (TypeNameSym, Seq<TypeNameSym>)>,
    it: TypeNameInterner,
    tn: TypeNameSym,
    ctx: Seq<TypeNameSym>,
) -> Option<TypeNameSym> {
    let (ns, name, kind) = it@[tn.0 as int];
    let (path, abs) = it.spaces()[ns.0 as int];
    if abs && names.contains(tn.0) {
        Some(tn)
    } else if kind == TypeNameKind::Class {
        resolve_namespace(names, aliases, it, tn, ctx, Set::empty())
    } else if path.len() == 0 {
        lookup_in_scopes(it, name, kind_of_sym(it, name), ctx, names)
    } else {
        match namespace_id(it.spaces(), (path.drop_last(), abs)) {
            None => None,
            Some(parent) => match type_name_id(it@, (parent, path.last(), TypeNameKind::Class)) {
                None => None,
                Some(ns_tn) => match resolve_namespace(names, aliases, it, ns_tn, ctx, Set::empty()) {
                    None => None,
                    Some(rt) => hit_in(it, scope_of(it, rt), name, kind, names),
                },
            },
        }
    }
}

/// A scope lookup only finds names of the accepted set.
pub proof fn lemma_lookup_in_scopes_found(
    it: TypeNameInterner,
    name: Sym,
    kind: TypeNameKind,
    ctx: Seq<TypeNameSym>,
    found: Set<u32>,
)
    ensures
        lookup_in_scopes(it, name, kind, ctx, found) matches Some(t) ==> found.contains(t.0),
    decreases ctx.len(),
{
    if ctx.len() > 0 {
        lemma_lookup_in_scopes_found(it, name, kind, ctx.drop_last(), found);
    }
}

/// Following a namespace only ever ends on a declared name.
pub proof fn lemma_resolve_namespace_declared(
    names: Set<u32>,
    aliases: Map<u32, (TypeNameSym, Seq<TypeNameSym>)>,
    it: TypeNameInterner,
    tn: TypeNameSym,
    ctx: Seq<TypeNameSym>,
    visited: Set<u32>,
)
    requires
        aliases.dom().finite(),
    ensures
        resolve_namespace(names, aliases, it, tn, ctx, visited) matches Some(t) ==> names.contains(t.0),
    decreases unvisited(aliases, visited), 1int, 0int,
{
    let (ns, name, _) = it@[tn.0 as int];
    let (path, abs) = it.spaces()[ns.0 as int];
    let segs = path.push(name);
    let known = names + aliases.dom();
    let head = if abs {
        hit_in(it, root_of(it), segs[0], TypeNameKind::Class, known)
    } else {
        lookup_in_scopes(it, segs[0], TypeNameKind::Class, ctx, known)
    };
    if !abs {
        lemma_lookup_in_scopes_found(it, segs[0], TypeNameKind::Class, ctx, known);
    }
    match head {
        None => {},
        Some(acc) => {
            if aliases.contains_key(acc.0) {
                if !visited.contains(acc.0) {
                    lemma_unvisited_shrinks(aliases, visited, acc.0);
                    lemma_resolve_namespace_declared(names, aliases, it, aliases[acc.0].0, aliases[acc.0].1, visited.insert(acc.0));
                    match resolve_namespace(names, aliases, it, aliases[acc.0].0, aliases[acc.0].1, visited.insert(acc.0)) {
                        None => {},
                        Some(a) => {
                            lemma_resolve_segments_declared(names, aliases, it, a, segs.drop_first(), visited);
                        },
                    }
                }
            } else {
                lemma_resolve_segments_declared(names, aliases, it, acc, segs.drop_first(), visited);
            }
        },
    }
}

/// Walking segments from a declared name only ever ends on a declared
/// name.
pub proof fn lemma_resolve_segments_declared(
    names: Set<u32>,
    aliases: Map<u32, (TypeNameSym, Seq<TypeNameSym>)>,
    it: TypeNameInterner,
    acc: TypeNameSym,
    segs: Seq<Sym>,
    visited: Set<u32>,
)
    requires
        aliases.dom().finite(),
        names.contains(acc.0),
    ensures
        resolve_segments(names, aliases, it, acc, segs, visited) matches Some(t) ==> names.contains(t.0),
    decreases unvisited(aliases, visited), 0int, segs.len(),
{
    if segs.len() > 0 {
        match scope_of(it, acc) {
            None => {},
            Some(acc_ns) => match type_name_id(it@, (acc_ns, segs[0], kind_of_sym(it, segs[0]))) {
                None => {},
                Some(c) => {
                    if names.contains(c.0) {
                        lemma_resolve_segments_declared(names, aliases, it, c, segs.drop_first(), visited);
                    } else if aliases.contains_key(c.0) && !visited.contains(c.0) {
                        lemma_unvisited_shrinks(aliases, visited, c.0);
                        lemma_resolve_namespace_declared(names, aliases, it, aliases[c.0].0, aliases[c.0].1, visited.insert(c.0));
                        match resolve_namespace(names, aliases, it, aliases[c.0].0, aliases[c.0].1, visited.insert(c.0)) {
                            None => {},
                            Some(a) => {
                                lemma_resolve_segments_declared(names, aliases, it, a, segs.drop_first(), visited);
                            },
                        }
                    }
                },
            },
        }
    }
}

/// Resolution only ever answers with a declared class, module,
/// interface or type-alias name.
pub proof fn lemma_resolve_declared(
    names: Set<u32>,
    aliases: Map<u32, (TypeNameSym, Seq<TypeNameSym>)>,
    it: TypeNameInterner,
    tn: TypeNameSym,
    ctx: Seq<TypeNameSym>,
)
    requires
        aliases.dom().finite(),
    ensures
        resolve_spec(names, aliases, it, tn, ctx) matches Some(t) ==> names.contains(t.0),
{
    let (ns, name, kind) = it@[tn.0 as int];
    let (path, abs) = it.spaces()[ns.0 as int];
    lemma_resolve_namespace_declared(names, aliases, it, tn, ctx, Set::empty());
    lemma_lookup_in_scopes_found(it, name, kind_of_sym(it, name), ctx, names);
}

/// An absolute name that is declared resolves to itself, whatever the
/// scopes.
pub proof fn lemma_absolute_declared_resolves_to_itself(
    names: Set<u32>,
    aliases: Map<u32, (TypeNameSym, Seq<TypeNameSym>)>,
    it: TypeNameInterner,
    tn: TypeNameSym,
    ctx: Seq<TypeNameSym>,
)
    requires
        it.spaces()[it@[tn.0 as int].0.0 as int].1,
        names.contains(tn.0),
    ensures
        resolve_spec(names, aliases, it, tn, ctx) == Some(tn),
{
}

/// A qualified interface or type-alias name `N::x` (relative) resolves
/// through its namespace: when the class name `N` resolves in the same
/// scopes to the declared `R`, and `R::x` is declared, `N::x` resolves
/// to `R::x`.
pub proof fn lemma_qualified_name_resolves_through_namespace(
    names: Set<u32>,
    aliases: Map<u32, (TypeNameSym, Seq<TypeNameSym>)>,
    it: TypeNameInterner,
    tn: TypeNameSym,
    ns_tn: TypeNameSym,
    r: TypeNameSym,
    rx: TypeNameSym,
    ctx: Seq<TypeNameSym>,
)
    requires
        it.wf(),
        (tn.0 as int) < it@.len(),
        (ns_tn.0 as int) < it@.len(),
        (r.0 as int) < it@.len(),
        (rx.0 as int) < it@.len(),
        it@[tn.0 as int].2 != TypeNameKind::Class,
        !it.spaces()[it@[tn.0 as int].0.0 as int].1,
        it.spaces()[it@[tn.0 as int].0.0 as int].0.len() > 0,
        // `ns_tn` is the class name `N` the namespace of `tn` spells.
        ({
            let path = it.spaces()[it@[tn.0 as int].0.0 as int].0;
            &&& it@[ns_tn.0 as int].1 == path.last()
            &&& it@[ns_tn.0 as int].2 == TypeNameKind::Class
            &&& it.spaces()[it@[ns_tn.0 as int].0.0 as int] == (path.drop_last(), false)
        }),
        resolve_spec(names, aliases, it, ns_tn, ctx) == Some(r),
        // `rx` is `R::x`: the name and kind of `tn` inside `R`.
        it@[rx.0 as int].1 == it@[tn.0 as int].1,
        it@[rx.0 as int].2 == it@[tn.0 as int].2,
        it.spaces()[it@[rx.0 as int].0.0 as int] == (
            it.spaces()[it@[r.0 as int].0.0 as int].0.push(it@[r.0 as int].1),
            it.spaces()[it@[r.0 as int].0.0 as int].1,
        ),
        names.contains(rx.0),
    ensures
        resolve_spec(names, aliases, it, tn, ctx) == Some(rx),
{
    it.lemma_wf_facts();
    assert(it.valid_entry(it@[ns_tn.0 as int]));
    assert(it.valid_entry(it@[rx.0 as int]));
    let parent = it@[ns_tn.0 as int].0;
    it.lemma_namespace_id(parent);
    it.lemma_type_name_id(ns_tn);
    let rns = it@[rx.0 as int].0;
    it.lemma_namespace_id(rns);
    it.lemma_type_name_id(rx);
    assert(scope_of(it, r) == Some(rns));
}

/// Every type name `ctx` lists is interned.
pub open spec fn valid_context(it: TypeNameInterner, ctx: Seq<TypeNameSym>) -> bool {
    forall|i: int| 0 <= i < ctx.len() ==> (#[trigger] ctx[i].0 as int) < it@.len()
}

/// The alias an entry declares.
pub open spec fn alias_target(e: DeclEntry) -> (TypeNameSym, Seq<TypeNameSym>) {
    match e {
        DeclEntry::ClassAlias(a) => (a.old_name, a.context@),
        _ => (TypeNameSym(0), Seq::empty()),
    }
}

/// Resolves type names against the declarations of an environment.
pub struct TypeNameResolver {
    all_names: HashSet<u32>,
    aliases: HashMap<u32, (TypeNameSym, Vec<TypeNameSym>)>,
}

impl TypeNameResolver {
    /// Declared class, module, interface and type-alias names.
    pub closed spec fn names(&self) -> Set<u32> {
        self.all_names@
    }

    /// Class/module aliases: alias name -> (old name, its scopes).
    pub closed spec fn alias_map(&self) -> Map<u32, (TypeNameSym, Seq<TypeNameSym>)> {
        Map::new(
            |k: u32| self.aliases@.contains_key(k),
            |k: u32| (self.aliases@[k].0, self.aliases@[k].1@),
        )
    }

    /// Every alias refers to interned names.
    pub open spec fn valid_for(&self, it: TypeNameInterner) -> bool {
        forall|k: u32| #[trigger] self.alias_map().contains_key(k) ==> (self.alias_map()[k].0.0 as int) < it@.len()
            && valid_context(it, self.alias_map()[k].1)
    }

    pub proof fn lemma_finite(&self)
        ensures
            self.alias_map().dom().finite(),
    {
        broadcast use vstd::std_specs::hash::group_hash_axioms;

        assert(self.alias_map().dom() =~= self.aliases@.dom());
    }

    /// `TypeNameResolver.build`: collect the resolvable names and the
    /// aliases of `env`.
    pub fn build(env: &Environment) -> (r: Self)
        requires
            env.wf(),
        ensures
            r.names() == Set::new(|k: u32| env.decls().contains_key(k) && resolvable(env.decls()[k])),
            r.alias_map() == Map::new(
                |k: u32| env.decls().contains_key(k) && env.decls()[k] is ClassAlias,
                |k: u32| alias_target(env.decls()[k]),
            ),
            r.valid_for(env.interner),
    {
        broadcast use vstd::std_specs::hash::group_hash_axioms;

        let mut all_names: HashSet<u32> = HashSet::new();
        let mut aliases: HashMap<u32, (TypeNameSym, Vec<TypeNameSym>)> = HashMap::new();
        let list = &env.decl_list;
        proof {
            env.lemma_decl_order();
            env.lemma_decls_valid();
        }
        let mut i: usize = 0;
        while i < list.len()
            invariant
                env.wf(),
                *list == env.decl_list,
                list@ == env.decl_order(),
                i <= list@.len(),
                forall|a: int, b: int| 0 <= a < b < list@.len() ==> (#[trigger] list@[a]).0 != (#[trigger] list@[b]).0,
                forall|a: int| 0 <= a < list@.len() ==> #[trigger] env.decls().contains_key(list@[a].0.0)
                    && env.decls()[list@[a].0.0] == list@[a].1,
                forall|k: u32| #[trigger] env.decls().contains_key(k) ==> (k as int) < env.interner@.len()
                    && crate::env::entry_refs_valid(env.decls()[k], env.interner@.len() as int),
                all_names@ == Set::new(|k: u32| exists|a: int| 0 <= a < i && list@[a].0.0 == k && resolvable(list@[a].1)),
                aliases@.dom() == Set::new(|k: u32| exists|a: int| 0 <= a < i && list@[a].0.0 == k && list@[a].1 is ClassAlias),
                forall|k: u32| #[trigger] aliases@.contains_key(k) ==> (aliases@[k].0, aliases@[k].1@) == alias_target(env.decls()[k]),
            decreases list.len() - i,
        {
            let name = list[i].0;
            let ghost before_names = all_names@;
            let ghost before_dom = aliases@.dom();
            match &list[i].1 {
                DeclEntry::ClassAlias(a) => {
                    let ctx = copy_context(&a.context);
                    aliases.insert(name.0, (a.old_name, ctx));
                    proof {
                        assert(env.decls().contains_key(list@[i as int].0.0));
                        assert(env.decls()[name.0] == list@[i as int].1);
                    }
                },
                DeclEntry::Constant => {},
                _ => {
                    all_names.insert(name.0);
                },
            }
            proof {
                assert(all_names@ =~= Set::new(|k: u32| exists|a: int| 0 <= a < i + 1 && list@[a].0.0 == k && resolvable(list@[a].1))) by {
                    assert forall|k: u32| all_names@.contains(k) <==> exists|a: int| 0 <= a < i + 1 && list@[a].0.0 == k && resolvable(list@[a].1) by {
                        if exists|a: int| 0 <= a < i + 1 && list@[a].0.0 == k && resolvable(list@[a].1) {
                            let a = choose|a: int| 0 <= a < i + 1 && list@[a].0.0 == k && resolvable(list@[a].1);
                            if a < i {
                                assert(before_names.contains(k));
                            }
                        }
                    }
                }
                assert(aliases@.dom() =~= Set::new(|k: u32| exists|a: int| 0 <= a < i + 1 && list@[a].0.0 == k && list@[a].1 is ClassAlias)) by {
                    assert forall|k: u32| aliases@.dom().contains(k) <==> exists|a: int| 0 <= a < i + 1 && list@[a].0.0 == k && list@[a].1 is ClassAlias by {
                        if exists|a: int| 0 <= a < i + 1 && list@[a].0.0 == k && list@[a].1 is ClassAlias {
                            let a = choose|a: int| 0 <= a < i + 1 && list@[a].0.0 == k && list@[a].1 is ClassAlias;
                            if a < i {
                                assert(before_dom.contains(k));
                            }
                        }
                    }
                }
            }
            i = i + 1;
        }
        let r = TypeNameResolver { all_names, aliases };
        proof {
            assert(r.names() =~= Set::new(|k: u32| env.decls().contains_key(k) && resolvable(env.decls()[k]))) by {
                assert forall|k: u32| r.names().contains(k) <==> env.decls().contains_key(k) && resolvable(env.decls()[k]) by {
                    if env.decls().contains_key(k) {
                        let a = choose|a: int| 0 <= a < env.decl_order().len() && env.decl_order()[a].0.0 == k;
                        assert(list@[a].0.0 == k);
                    }
                }
            }
            let target = Map::new(
                |k: u32| env.decls().contains_key(k) && env.decls()[k] is ClassAlias,
                |k: u32| alias_target(env.decls()[k]),
            );
            assert forall|k: u32| #[trigger] r.alias_map().contains_key(k) <==> target.contains_key(k) by {
                if env.decls().contains_key(k) {
                    let a = choose|a: int| 0 <= a < env.decl_order().len() && env.decl_order()[a].0.0 == k;
                    assert(list@[a].0.0 == k);
                }
            }
            assert(r.alias_map() =~= target);
            assert forall|k: u32| #[trigger] r.alias_map().contains_key(k) implies (r.alias_map()[k].0.0 as int) < env.interner@.len()
                && valid_context(env.interner, r.alias_map()[k].1) by {
                assert(crate::env::entry_refs_valid(env.decls()[k], env.interner@.len() as int));
            }
        }
        r
    }
}

impl TypeNameResolver {
    fn has_type_name(&self, tn: TypeNameSym) -> (b: bool)
        ensures
            b == self.names().contains(tn.0),
    {
        broadcast use vstd::std_specs::hash::group_hash_axioms;

        self.all_names.contains(&tn.0)
    }

    fn aliased_name(&self, tn: TypeNameSym) -> (b: bool)
        ensures
            b == self.alias_map().contains_key(tn.0),
    {
        broadcast use vstd::std_specs::hash::group_hash_axioms;

        self.aliases.contains_key(&tn.0)
    }

    /// The set a scope lookup accepts: declared names, and aliases too
    /// when `with_aliases`.
    pub open spec fn accepted(&self, with_aliases: bool) -> Set<u32> {
        if with_aliases {
            self.names() + self.alias_map().dom()
        } else {
            self.names()
        }
    }

    fn accepts(&self, c: TypeNameSym, with_aliases: bool) -> (b: bool)
        ensures
            b == self.accepted(with_aliases).contains(c.0),
    {
        self.has_type_name(c) || (with_aliases && self.aliased_name(c))
    }

    /// The candidate `(ns, name, kind)` when it is interned and accepted.
    fn hit(&self, it: &TypeNameInterner, ns: NamespaceSym, name: Sym, kind: TypeNameKind, with_aliases: bool) -> (r: Option<
        TypeNameSym,
    >)
        requires
            it.wf(),
            (ns.0 as int) < it.spaces().len(),
        ensures
            r == hit_in(*it, Some(ns), name, kind, self.accepted(with_aliases)),
            r matches Some(t) ==> (t.0 as int) < it@.len(),
    {
        match it.find(ns, name, kind) {
            Some(c) => {
                proof {
                    it.lemma_type_name_id(c);
                }
                if self.accepts(c, with_aliases) {
                    Some(c)
                } else {
                    None
                }
            },
            None => None,
        }
    }

    /// `resolve_type_name` / `resolve_head_namespace`: look `name` up in
    /// the scopes of `ctx`, innermost first, then at the absolute root.
    fn lookup_scopes(
        &self,
        name: Sym,
        kind: TypeNameKind,
        ctx: &[TypeNameSym],
        with_aliases: bool,
        it: &TypeNameInterner,
    ) -> (r: Option<TypeNameSym>)
        requires
            it.wf(),
            valid_context(*it, ctx@),
        ensures
            r == lookup_in_scopes(*it, name, kind, ctx@, self.accepted(with_aliases)),
            r matches Some(t) ==> (t.0 as int) < it@.len(),
    {
        let ghost found = self.accepted(with_aliases);
        let mut i = ctx.len();
        proof {
            assert(ctx@.take(ctx@.len() as int) =~= ctx@);
        }
        while i > 0
            invariant
                it.wf(),
                valid_context(*it, ctx@),
                found == self.accepted(with_aliases),
                i <= ctx@.len(),
                lookup_in_scopes(*it, name, kind, ctx@.take(i as int), found) == lookup_in_scopes(
                    *it,
                    name,
                    kind,
                    ctx@,
                    found,
                ),
            decreases i,
        {
            let inner = ctx[i - 1];
            let ghost t = ctx@.take(i as int);
            proof {
                assert(t.last() == inner);
                assert(t.drop_last() =~= ctx@.take(i - 1));
                assert((ctx@[i - 1].0 as int) < it@.len());
            }
            match it.find_to_namespace(inner) {
                Some(ins) => {
                    proof {
                        it.lemma_namespace_id(ins);
                    }
                    let h = self.hit(it, ins, name, kind, with_aliases);
                    if h.is_some() {
                        return h;
                    }
                },
                None => {},
            }
            i = i - 1;
        }
        let root = it.root_absolute();
        proof {
            it.lemma_namespace_id(root);
        }
        self.hit(it, root, name, kind, with_aliases)
    }

    /// `normalize_namespace`: follow alias `tn` unless it is already
    /// being followed (a cycle).
    fn normalize_namespace(&self, tn: TypeNameSym, visited: &mut HashSet<u32>, it: &TypeNameInterner) -> (r: Option<
        TypeNameSym,
    >)
        requires
            it.wf(),
            self.valid_for(*it),
            self.alias_map().contains_key(tn.0),
        ensures
            final(visited)@ == old(visited)@,
            r == (if old(visited)@.contains(tn.0) {
                None
            } else {
                resolve_namespace(
                    self.names(),
                    self.alias_map(),
                    *it,
                    self.alias_map()[tn.0].0,
                    self.alias_map()[tn.0].1,
                    old(visited)@.insert(tn.0),
                )
            }),
            r matches Some(t) ==> (t.0 as int) < it@.len(),
        decreases unvisited(self.alias_map(), old(visited)@), 0int, 0int,
    {
        broadcast use vstd::std_specs::hash::group_hash_axioms;

        if visited.contains(&tn.0) {
            return None;
        }
        proof {
            self.lemma_finite();
            lemma_unvisited_shrinks(self.alias_map(), old(visited)@, tn.0);
        }
        visited.insert(tn.0);
        let entry = match self.aliases.get(&tn.0) {
            Some(e) => e,
            None => {
                proof {
                    assert(false);
                }
                return None;
            },
        };
        let r = self.resolve_namespace0(entry.0, entry.1.as_slice(), visited, it);
        visited.remove(&tn.0);
        proof {
            assert(visited@ =~= old(visited)@);
        }
        r
    }

    /// `resolve_namespace0`: resolve the head segment, follow an alias
    /// there, then walk the remaining segments.
    fn resolve_namespace0(
        &self,
        tn: TypeNameSym,
        ctx: &[TypeNameSym],
        visited: &mut HashSet<u32>,
        it: &TypeNameInterner,
    ) -> (r: Option<TypeNameSym>)
        requires
            it.wf(),
            self.valid_for(*it),
            (tn.0 as int) < it@.len(),
            valid_context(*it, ctx@),
        ensures
            final(visited)@ == old(visited)@,
            r == resolve_namespace(self.names(), self.alias_map(), *it, tn, ctx@, old(visited)@),
            r matches Some(t) ==> (t.0 as int) < it@.len(),
        decreases unvisited(self.alias_map(), old(visited)@), 1int, 0int,
    {
        proof {
            self.lemma_finite();
            it.lemma_wf_facts();
        }
        let ghost names = self.names();
        let ghost aliases = self.alias_map();
        let ghost v0 = visited@;
        let (ns, name, _k) = it.lookup(tn);
        let entry = it.namespace(ns);
        let ghost segs = entry.0@.push(name);
        let n = entry.0.len();
        let head_sym = if n > 0 {
            entry.0[0]
        } else {
            name
        };
        proof {
            assert(segs[0] == head_sym);
        }
        let head_tn = if entry.1 {
            let root = it.root_absolute();
            proof {
                it.lemma_namespace_id(root);
            }
            self.hit(it, root, head_sym, TypeNameKind::Class, true)
        } else {
            self.lookup_scopes(head_sym, TypeNameKind::Class, ctx, true, it)
        };
        let mut acc = match head_tn {
            Some(a) => a,
            None => return None,
        };
        if self.aliased_name(acc) {
            match self.normalize_namespace(acc, visited, it) {
                Some(a) => {
                    acc = a;
                },
                None => return None,
            }
        }
        proof {
            assert(segs.skip(1) =~= segs.drop_first());
            assert(it.valid_entry(it@[tn.0 as int]));
            assert(it.valid_path(it.spaces()[ns.0 as int].0));
        }
        let mut k: usize = 0;
        while k < n
            invariant
                it.wf(),
                self.valid_for(*it),
                names == self.names(),
                aliases == self.alias_map(),
                aliases.dom().finite(),
                visited@ == v0,
                v0 == old(visited)@,
                k <= n,
                n == entry.0@.len(),
                segs == entry.0@.push(name),
                it.valid_path(entry.0@),
                (name.0 as int) < it.syms().len(),
                (acc.0 as int) < it@.len(),
                resolve_segments(names, aliases, *it, acc, segs.skip(k + 1), v0) == resolve_namespace(
                    names,
                    aliases,
                    *it,
                    tn,
                    ctx@,
                    v0,
                ),
            decreases n - k,
        {
            let seg = if k + 1 < n {
                entry.0[k + 1]
            } else {
                name
            };
            proof {
                assert(segs.skip(k + 1)[0] == seg);
                assert(segs.skip(k + 1).drop_first() =~= segs.skip(k + 2));
            }
            let acc_ns = match it.find_to_namespace(acc) {
                Some(x) => x,
                None => return None,
            };
            proof {
                it.lemma_namespace_id(acc_ns);
                it.lemma_wf_facts();
                let e = it@[acc.0 as int];
                assert(it.valid_entry(e));
            }
            let ghost seg_ok = (seg.0 as int) < it.syms().len();
            proof {
                if k + 1 < n {
                    assert((entry.0@[k + 1].0 as int) < it.syms().len());
                }
            }
            let kind = TypeNameKind::detect(it.symbol(seg));
            let c = match it.find(acc_ns, seg, kind) {
                Some(c) => c,
                None => return None,
            };
            proof {
                it.lemma_type_name_id(c);
            }
            if self.has_type_name(c) {
                acc = c;
            } else if self.aliased_name(c) {
                match self.normalize_namespace(c, visited, it) {
                    Some(a) => {
                        acc = a;
                    },
                    None => return None,
                }
            } else {
                return None;
            }
            k = k + 1;
        }
        proof {
            assert(segs.skip(n + 1).len() == 0);
        }
        Some(acc)
    }

    /// `TypeNameResolver#resolve`: the absolute declared name `tn`
    /// refers to from inside the scopes `context`, if any.
    pub fn resolve(&self, tn: TypeNameSym, context: &Vec<TypeNameSym>, it: &TypeNameInterner) -> (r: Option<
        TypeNameSym,
    >)
        requires
            it.wf(),
            self.valid_for(*it),
            (tn.0 as int) < it@.len(),
            valid_context(*it, context@),
        ensures
            r == resolve_spec(self.names(), self.alias_map(), *it, tn, context@),
            r matches Some(t) ==> (t.0 as int) < it@.len(),
    {
        proof {
            it.lemma_wf_facts();
            assert(it.valid_entry(it@[tn.0 as int]));
        }
        let (ns, name, kind) = it.lookup(tn);
        let absolute = !it.is_relative_namespace(ns);
        if absolute && self.has_type_name(tn) {
            return Some(tn);
        }
        let mut visited: HashSet<u32> = HashSet::new();
        match kind {
            TypeNameKind::Class => {
                return self.resolve_namespace0(tn, context.as_slice(), &mut visited, it);
            },
            _ => {},
        }
        if it.is_empty_namespace(ns) {
            let k = TypeNameKind::detect(it.symbol(name));
            return self.lookup_scopes(name, k, context.as_slice(), false, it);
        }
        let (parent, last) = match it.namespace_to_type_name(ns) {
            Some(p) => p,
            None => {
                proof {
                    let (path, abs) = it.spaces()[ns.0 as int];
                    assert(!it.spaces().contains((path.drop_last(), abs)));
                }
                return None;
            },
        };
        proof {
            it.lemma_namespace_id(parent);
        }
        let ns_tn = match it.find(parent, last, TypeNameKind::Class) {
            Some(t) => t,
            None => return None,
        };
        proof {
            it.lemma_type_name_id(ns_tn);
        }
        let rt = match self.resolve_namespace0(ns_tn, context.as_slice(), &mut visited, it) {
            Some(t) => t,
            None => return None,
        };
        let rns = match it.find_to_namespace(rt) {
            Some(x) => x,
            None => return None,
        };
        proof {
            it.lemma_namespace_id(rns);
        }
        self.hit(it, rns, name, kind, false)
    }
}

fn copy_context(v: &Vec<TypeNameSym>) -> (r: Vec<TypeNameSym>)
    ensures
        r@ == v@,
{
    let mut r: Vec<TypeNameSym> = Vec::new();
    let mut i: usize = 0;
    while i < v.len()
        invariant
            i <= v@.len(),
            r@ == v@.take(i as int),
        decreases v.len() - i,
    {
        r.push(v[i]);
        proof {
            assert(v@.take(i + 1) =~= v@.take(i as int).push(v@[i as int]));
        }
        i = i + 1;
    }
    proof {
        assert(v@.take(v@.len() as int) =~= v@);
    }
    r
}

/// Looking a value up in a longer table without duplicates: a value the
/// shorter one holds keeps its position; any other is found, if at all,
/// past the shorter table's end.
proof fn lemma_index_stable<T>(s: Seq<T>, s2: Seq<T>, v: T)
    requires
        s.is_prefix_of(s2),
        s2.no_duplicates(),
    ensures
        s.contains(v) ==> s2.contains(v) && s2.index_of(v) == s.index_of(v),
        !s.contains(v) && s2.contains(v) ==> s2.index_of(v) >= s.len(),
{
    if s.contains(v) {
        let i = s.index_of(v);
        assert(s2[i] == v);
        assert(s2.contains(v));
        let j = s2.index_of(v);
        if j != i {
            assert(s2[j] == v);
        }
    } else if s2.contains(v) {
        let j = s2.index_of(v);
        if j < s.len() {
            assert(s[j] == v);
        }
    }
}

/// A namespace looked up after more were interned: the same as before,
/// or, where there was none before, one at position `bound` or later.
pub open spec fn same_or_fresh(before: Option<NamespaceSym>, after: Option<NamespaceSym>, bound: int) -> bool {
    ||| after == before
    ||| (before is None && (after matches Some(x) && x.0 >= bound))
}

/// Everything the resolver relies on was interned in `it`, and `it2`
/// only added to `it`.
pub open spec fn stable_ready(
    names: Set<u32>,
    aliases: Map<u32, (TypeNameSym, Seq<TypeNameSym>)>,
    it: TypeNameInterner,
    it2: TypeNameInterner,
) -> bool {
    &&& it.wf()
    &&& it2.wf()
    &&& it2.extends(&it)
    &&& aliases.dom().finite()
    &&& forall|k: u32| #[trigger] names.contains(k) ==> (k as int) < it@.len()
    &&& forall|k: u32| #[trigger] aliases.contains_key(k) ==> (k as int) < it@.len()
        && (aliases[k].0.0 as int) < it@.len() && valid_context(it, aliases[k].1)
}

proof fn lemma_scope_of_stable(it: TypeNameInterner, it2: TypeNameInterner, tn: TypeNameSym)
    requires
        it.wf(),
        it2.wf(),
        it2.extends(&it),
        (tn.0 as int) < it@.len(),
    ensures
        same_or_fresh(scope_of(it, tn), scope_of(it2, tn), it.spaces().len() as int),
{
    it.lemma_wf_facts();
    it2.lemma_wf_facts();
    assert(it2@[tn.0 as int] == it@[tn.0 as int]);
    assert(it.valid_entry(it@[tn.0 as int]));
    let e = it@[tn.0 as int];
    assert(it2.spaces()[e.0.0 as int] == it.spaces()[e.0.0 as int]);
    let v = namespace_of_type_name(it.spaces(), e);
    assert(namespace_of_type_name(it2.spaces(), e) == v);
    lemma_index_stable(it.spaces(), it2.spaces(), v);
}

proof fn lemma_root_of_stable(it: TypeNameInterner, it2: TypeNameInterner)
    requires
        it.wf(),
        it2.wf(),
        it2.extends(&it),
    ensures
        root_of(it2) == root_of(it),
        root_of(it) == Some(NamespaceSym(1)),
{
    it.lemma_wf_facts();
    it2.lemma_wf_facts();
    let v = (Seq::<Sym>::empty(), true);
    assert(it.spaces()[1] == v);
    lemma_index_of_at(it.spaces(), 1);
    lemma_index_stable(it.spaces(), it2.spaces(), v);
}

proof fn lemma_hit_in_stable(
    it: TypeNameInterner,
    it2: TypeNameInterner,
    ns: Option<NamespaceSym>,
    ns2: Option<NamespaceSym>,
    name: Sym,
    kind: TypeNameKind,
    found: Set<u32>,
)
    requires
        it.wf(),
        it2.wf(),
        it2.extends(&it),
        forall|k: u32| #[trigger] found.contains(k) ==> (k as int) < it@.len(),
        ns matches Some(n) ==> (n.0 as int) < it.spaces().len(),
        same_or_fresh(ns, ns2, it.spaces().len() as int),
    ensures
        hit_in(it2, ns2, name, kind, found) == hit_in(it, ns, name, kind, found),
{
    it.lemma_wf_facts();
    it2.lemma_wf_facts();
    match ns2 {
        None => {},
        Some(n2) => {
            let e = (n2, name, kind);
            lemma_index_stable(it@, it2@, e);
            if ns is None {
                assert((n2.0 as int) >= it.spaces().len());
                if it@.contains(e) {
                    let i = it@.index_of(e);
                    assert(it.valid_entry(it@[i]));
                }
            }
        },
    }
}

proof fn lemma_lookup_in_scopes_stable(
    it: TypeNameInterner,
    it2: TypeNameInterner,
    name: Sym,
    kind: TypeNameKind,
    ctx: Seq<TypeNameSym>,
    found: Set<u32>,
)
    requires
        it.wf(),
        it2.wf(),
        it2.extends(&it),
        forall|k: u32| #[trigger] found.contains(k) ==> (k as int) < it@.len(),
        valid_context(it, ctx),
    ensures
        lookup_in_scopes(it2, name, kind, ctx, found) == lookup_in_scopes(it, name, kind, ctx, found),
    decreases ctx.len(),
{
    if ctx.len() == 0 {
        lemma_root_of_stable(it, it2);
        it.lemma_wf_facts();
        lemma_hit_in_stable(it, it2, root_of(it), root_of(it2), name, kind, found);
    } else {
        let last = ctx.last();
        assert((last.0 as int) < it@.len());
        lemma_scope_of_stable(it, it2, last);
        it.lemma_wf_facts();
        if let Some(n) = scope_of(it, last) {
            assert(it.spaces().contains(namespace_of_type_name(it.spaces(), it@[last.0 as int])));
        }
        lemma_hit_in_stable(it, it2, scope_of(it, last), scope_of(it2, last), name, kind, found);
        assert(valid_context(it, ctx.drop_last())) by {
            assert forall|i: int| 0 <= i < ctx.drop_last().len() implies (#[trigger] ctx.drop_last()[i].0 as int) < it@.len() by {
                assert(ctx.drop_last()[i] == ctx[i]);
            }
        }
        lemma_lookup_in_scopes_stable(it, it2, name, kind, ctx.drop_last(), found);
    }
}

proof fn lemma_type_name_id_stable(it: TypeNameInterner, it2: TypeNameInterner, e: (NamespaceSym, Sym, TypeNameKind))
    requires
        it.wf(),
        it2.wf(),
        it2.extends(&it),
    ensures
        type_name_id(it@, e) matches Some(c) ==> type_name_id(it2@, e) == Some(c) && (c.0 as int) < it@.len(),
        type_name_id(it@, e) is None ==> (type_name_id(it2@, e) matches Some(c) ==> (c.0 as int) >= it@.len()),
{
    it.lemma_wf_facts();
    it2.lemma_wf_facts();
    lemma_index_stable(it@, it2@, e);
}

proof fn lemma_resolve_namespace_stable(
    names: Set<u32>,
    aliases: Map<u32, (TypeNameSym, Seq<TypeNameSym>)>,
    it: TypeNameInterner,
    it2: TypeNameInterner,
    tn: TypeNameSym,
    ctx: Seq<TypeNameSym>,
    visited: Set<u32>,
)
    requires
        stable_ready(names, aliases, it, it2),
        (tn.0 as int) < it@.len(),
        valid_context(it, ctx),
    ensures
        resolve_namespace(names, aliases, it2, tn, ctx, visited) == resolve_namespace(names, aliases, it, tn, ctx, visited),
    decreases unvisited(aliases, visited), 1int, 0int,
{
    it.lemma_wf_facts();
    it2.lemma_wf_facts();
    let (ns, name, _) = it@[tn.0 as int];
    assert(it2@[tn.0 as int] == it@[tn.0 as int]);
    assert(it.valid_entry(it@[tn.0 as int]));
    assert(it2.spaces()[ns.0 as int] == it.spaces()[ns.0 as int]);
    let (path, abs) = it.spaces()[ns.0 as int];
    let segs = path.push(name);
    let known = names + aliases.dom();
    assert forall|k: u32| #[trigger] known.contains(k) implies (k as int) < it@.len() by {
        if names.contains(k) {
        } else {
            assert(aliases.contains_key(k));
        }
    }
    if abs {
        lemma_root_of_stable(it, it2);
        lemma_hit_in_stable(it, it2, root_of(it), root_of(it2), segs[0], TypeNameKind::Class, known);
    } else {
        lemma_lookup_in_scopes_stable(it, it2, segs[0], TypeNameKind::Class, ctx, known);
    }
    let head = if abs {
        hit_in(it, root_of(it), segs[0], TypeNameKind::Class, known)
    } else {
        lookup_in_scopes(it, segs[0], TypeNameKind::Class, ctx, known)
    };
    assert(it.valid_path(path));
    assert forall|j: int| 0 <= j < segs.len() implies (#[trigger] segs[j].0 as int) < it.syms().len() by {
        if j < path.len() {
            assert(segs[j] == path[j]);
        }
    }
    match head {
        None => {},
        Some(acc) => {
            if !abs {
                lemma_lookup_in_scopes_found(it, segs[0], TypeNameKind::Class, ctx, known);
            }
            assert(known.contains(acc.0));
            if aliases.contains_key(acc.0) {
                if !visited.contains(acc.0) {
                    lemma_unvisited_shrinks(aliases, visited, acc.0);
                    let t = aliases[acc.0];
                    lemma_resolve_namespace_stable(names, aliases, it, it2, t.0, t.1, visited.insert(acc.0));
                    match resolve_namespace(names, aliases, it, t.0, t.1, visited.insert(acc.0)) {
                        None => {},
                        Some(a) => {
                            lemma_resolve_namespace_declared(names, aliases, it, t.0, t.1, visited.insert(acc.0));
                            lemma_resolve_segments_stable(names, aliases, it, it2, a, segs.drop_first(), visited);
                        },
                    }
                }
            } else {
                lemma_resolve_segments_stable(names, aliases, it, it2, acc, segs.drop_first(), visited);
            }
        },
    }
}

proof fn lemma_resolve_segments_stable(
    names: Set<u32>,
    aliases: Map<u32, (TypeNameSym, Seq<TypeNameSym>)>,
    it: TypeNameInterner,
    it2: TypeNameInterner,
    acc: TypeNameSym,
    segs: Seq<Sym>,
    visited: Set<u32>,
)
    requires
        stable_ready(names, aliases, it, it2),
        (acc.0 as int) < it@.len(),
        forall|j: int| 0 <= j < segs.len() ==> (#[trigger] segs[j].0 as int) < it.syms().len(),
    ensures
        resolve_segments(names, aliases, it2, acc, segs, visited) == resolve_segments(names, aliases, it, acc, segs, visited),
    decreases unvisited(aliases, visited), 0int, segs.len(),
{
    if segs.len() > 0 {
        it.lemma_wf_facts();
        it2.lemma_wf_facts();
        lemma_scope_of_stable(it, it2, acc);
        assert(kind_of_sym(it2, segs[0]) == kind_of_sym(it, segs[0])) by {
            assert(it2.syms()[segs[0].0 as int] == it.syms()[segs[0].0 as int]);
        }
        let k = kind_of_sym(it, segs[0]);
        assert forall|j: int| 0 <= j < segs.drop_first().len() implies (#[trigger] segs.drop_first()[j].0 as int) < it.syms().len() by {
            assert(segs.drop_first()[j] == segs[j + 1]);
        }
        match scope_of(it2, acc) {
            None => {},
            Some(ns2) => {
                let e = (ns2, segs[0], k);
                lemma_type_name_id_stable(it, it2, e);
                match scope_of(it, acc) {
                    None => {
                        assert((ns2.0 as int) >= it.spaces().len());
                        if it@.contains(e) {
                            let i = it@.index_of(e);
                            assert(it.valid_entry(it@[i]));
                        }
                        match type_name_id(it2@, e) {
                            None => {},
                            Some(c) => {
                                assert((c.0 as int) >= it@.len());
                                assert(!names.contains(c.0));
                                assert(!aliases.contains_key(c.0));
                            },
                        }
                    },
                    Some(ns1) => {
                        assert(ns1 == ns2);
                        match type_name_id(it@, e) {
                            None => {
                                match type_name_id(it2@, e) {
                                    None => {},
                                    Some(c) => {
                                        assert(!names.contains(c.0));
                                        assert(!aliases.contains_key(c.0));
                                    },
                                }
                            },
                            Some(c) => {
                                if names.contains(c.0) {
                                    lemma_resolve_segments_stable(names, aliases, it, it2, c, segs.drop_first(), visited);
                                } else if aliases.contains_key(c.0) {
                                    if !visited.contains(c.0) {
                                        lemma_unvisited_shrinks(aliases, visited, c.0);
                                        let t = aliases[c.0];
                                        lemma_resolve_namespace_stable(names, aliases, it, it2, t.0, t.1, visited.insert(c.0));
                                        match resolve_namespace(names, aliases, it, t.0, t.1, visited.insert(c.0)) {
                                            None => {},
                                            Some(a) => {
                                                lemma_resolve_namespace_declared(names, aliases, it, t.0, t.1, visited.insert(c.0));
                                                lemma_resolve_segments_stable(names, aliases, it, it2, a, segs.drop_first(), visited);
                                            },
                                        }
                                    }
                                }
                            },
                        }
                    },
                }
            },
        }
    }
}

} // verus!
