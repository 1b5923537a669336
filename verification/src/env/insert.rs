//! Registering the declarations of a parsed signature in an environment.
//!
//! Declared names are anchored at the absolute root (nested ones under
//! their enclosing class or module). A name declared twice in
//! incompatible ways is an error. Every type name the declarations
//! mention is interned on the way, so resolution can later look each
//! one up.
use vstd::prelude::*;

use crate::env::{context_value, entry_value, DeclEntry, Environment, EntryValue};
use crate::error::Error;
use crate::interner::{
    name_value, path_texts, value_interned, NameValue, NamespaceSym, Sym, TypeNameInterner, TypeNameKind, TypeNameSym,
};
use crate::resolver::name_resolver::valid_context;
use crate::signature::{
    decl_preorder, declared_ref, decls_preorder, member_refs, members_preorder, mentioned, decl_cost, decls_cost, members_cost, ref_cost, ref_value, refs_cost, texts, Decl, Member, Signature, TypeNameRef,
};

verus! {

/// A namespace spelled out: segment texts and whether it is absolute.
pub type ScopeValue = (Seq<Seq<char>>, bool);

/// What interned namespace `ns` spells.
pub open spec fn scope_value(it: TypeNameInterner, ns: NamespaceSym) -> ScopeValue {
    let (path, abs) = it.spaces()[ns.0 as int];
    (path_texts(it.syms(), path), abs)
}

/// `TypeName#with_prefix`: a relative name is moved under `prefix`; an
/// absolute one stays as it is.
pub open spec fn prefixed(prefix: ScopeValue, v: NameValue) -> NameValue {
    if v.1 {
        v
    } else {
        (prefix.0 + v.0, prefix.1, v.2, v.3)
    }
}

/// `TypeName#to_namespace`: the namespace a name stands for.
pub open spec fn as_scope(v: NameValue) -> ScopeValue {
    (v.0.push(v.2), v.1)
}

/// Each segment followed by `::`.
pub open spec fn segments_text(segs: Seq<Seq<char>>) -> Seq<char>
    decreases segs.len(),
{
    if segs.len() == 0 {
        Seq::empty()
    } else {
        segments_text(segs.drop_last()) + segs.last() + seq![':', ':']
    }
}

/// The printed form of a name: `::` when absolute, the segments, the name.
pub open spec fn name_text(v: NameValue) -> Seq<char> {
    let lead: Seq<char> = if v.1 {
        seq![':', ':']
    } else {
        Seq::empty()
    };
    lead + segments_text(v.0) + v.2
}

/// Declared names and declared globals.
pub type DeclState = (Map<NameValue, EntryValue>, Set<Seq<char>>);

/// Register declaration `d` found in the scopes `ctx` (whose innermost
/// namespace is `prefix`): the new state, and the printed name of the
/// first duplicate, if any (the state is then as far as insertion got).
pub open spec fn insert_decl_spec(st: DeclState, d: Decl, ctx: Seq<NameValue>, prefix: ScopeValue) -> (DeclState, Option<
    Seq<char>,
>)
    decreases d,
{
    match d {
        Decl::Class { name, params, super_refs, members } => {
            let full = prefixed(prefix, ref_value(name));
            if st.0.contains_key(full) && st.0[full] != EntryValue::Class {
                (st, Some(name_text(full)))
            } else {
                insert_members_spec((st.0.insert(full, EntryValue::Class), st.1), members@, ctx.push(full), as_scope(full))
            }
        },
        Decl::Module { name, params, members } => {
            let full = prefixed(prefix, ref_value(name));
            if st.0.contains_key(full) && st.0[full] != EntryValue::Module {
                (st, Some(name_text(full)))
            } else {
                insert_members_spec((st.0.insert(full, EntryValue::Module), st.1), members@, ctx.push(full), as_scope(full))
            }
        },
        Decl::Interface { name, refs } => {
            let full = prefixed(prefix, ref_value(name));
            let next = (st.0.insert(full, EntryValue::Interface), st.1);
            (next, if st.0.contains_key(full) { Some(name_text(full)) } else { None })
        },
        Decl::TypeAlias { name, refs } => {
            let full = prefixed(prefix, ref_value(name));
            let next = (st.0.insert(full, EntryValue::TypeAlias), st.1);
            (next, if st.0.contains_key(full) { Some(name_text(full)) } else { None })
        },
        Decl::Constant { name, refs } => {
            let full = prefixed(prefix, ref_value(name));
            if st.0.contains_key(full) {
                (st, Some(name_text(full)))
            } else {
                ((st.0.insert(full, EntryValue::Constant), st.1), None)
            }
        },
        Decl::Global { name, refs } => {
            if st.1.contains(name@) {
                (st, Some(name@))
            } else {
                ((st.0, st.1.insert(name@)), None)
            }
        },
        Decl::ClassAlias { new_name, old_name } => {
            let full = prefixed(prefix, ref_value(new_name));
            if st.0.contains_key(full) {
                (st, Some(name_text(full)))
            } else {
                ((st.0.insert(full, EntryValue::Alias(ref_value(old_name), ctx)), st.1), None)
            }
        },
        Decl::ModuleAlias { new_name, old_name } => {
            let full = prefixed(prefix, ref_value(new_name));
            if st.0.contains_key(full) {
                (st, Some(name_text(full)))
            } else {
                ((st.0.insert(full, EntryValue::Alias(ref_value(old_name), ctx)), st.1), None)
            }
        },
    }
}

/// Register the nested declarations among members `ms`, in order,
/// stopping at the first duplicate.
pub open spec fn insert_members_spec(st: DeclState, ms: Seq<Member>, ctx: Seq<NameValue>, prefix: ScopeValue) -> (
    DeclState,
    Option<Seq<char>>,
)
    decreases ms,
{
    if ms.len() == 0 {
        (st, None)
    } else {
        let (st1, e1) = insert_members_spec(st, ms.drop_last(), ctx, prefix);
        if e1 is Some {
            (st1, e1)
        } else {
            match ms.last() {
                Member::Decl(d) => insert_decl_spec(st1, d, ctx, prefix),
                Member::Refs(_) => (st1, None),
            }
        }
    }
}

/// Members that declare nothing change nothing and report nothing.
pub proof fn lemma_members_without_decls(st: DeclState, ms: Seq<Member>, ctx: Seq<NameValue>, prefix: ScopeValue)
    requires
        forall|i: int| 0 <= i < ms.len() ==> (#[trigger] ms[i]) is Refs,
    ensures
        insert_members_spec(st, ms, ctx, prefix) == (st, None::<Seq<char>>),
    decreases ms.len(),
{
    if ms.len() > 0 {
        assert forall|i: int| 0 <= i < ms.drop_last().len() implies (#[trigger] ms.drop_last()[i]) is Refs by {
            assert(ms.drop_last()[i] == ms[i]);
        }
        lemma_members_without_decls(st, ms.drop_last(), ctx, prefix);
        assert(ms.last() is Refs);
    }
}

/// Reopening a module: declaring a module whose name is already
/// declared as a module is no duplicate; with no nested declarations it
/// succeeds and leaves the declarations as they were.
pub proof fn lemma_reopen_module(
    st: DeclState,
    name: TypeNameRef,
    params: Vec<TypeNameRef>,
    members: Vec<Member>,
    ctx: Seq<NameValue>,
    prefix: ScopeValue,
)
    requires
        st.0.contains_key(prefixed(prefix, ref_value(name))),
        st.0[prefixed(prefix, ref_value(name))] == EntryValue::Module,
        forall|i: int| 0 <= i < members@.len() ==> (#[trigger] members@[i]) is Refs,
    ensures
        insert_decl_spec(st, Decl::Module { name, params, members }, ctx, prefix) == (st, None::<Seq<char>>),
{
    let full = prefixed(prefix, ref_value(name));
    assert(st.0.insert(full, EntryValue::Module) =~= st.0);
    lemma_members_without_decls(st, members@, ctx.push(full), as_scope(full));
}

/// Reopening a class: declaring a class whose name is already declared
/// as a class is no duplicate; with no nested declarations it succeeds
/// and leaves the declarations as they were.
pub proof fn lemma_reopen_class(
    st: DeclState,
    name: TypeNameRef,
    params: Vec<TypeNameRef>,
    super_refs: Vec<TypeNameRef>,
    members: Vec<Member>,
    ctx: Seq<NameValue>,
    prefix: ScopeValue,
)
    requires
        st.0.contains_key(prefixed(prefix, ref_value(name))),
        st.0[prefixed(prefix, ref_value(name))] == EntryValue::Class,
        forall|i: int| 0 <= i < members@.len() ==> (#[trigger] members@[i]) is Refs,
    ensures
        insert_decl_spec(st, Decl::Class { name, params, super_refs, members }, ctx, prefix) == (st, None::<Seq<char>>),
{
    let full = prefixed(prefix, ref_value(name));
    assert(st.0.insert(full, EntryValue::Class) =~= st.0);
    lemma_members_without_decls(st, members@, ctx.push(full), as_scope(full));
}

/// Register top-level declarations `ds`, in order, stopping at the first
/// duplicate.
pub open spec fn insert_decls_spec(st: DeclState, ds: Seq<Decl>, prefix: ScopeValue) -> (DeclState, Option<Seq<char>>)
    decreases ds.len(),
{
    if ds.len() == 0 {
        (st, None)
    } else {
        let (st1, e1) = insert_decls_spec(st, ds.drop_last(), prefix);
        if e1 is Some {
            (st1, e1)
        } else {
            insert_decl_spec(st1, ds.last(), Seq::empty(), prefix)
        }
    }
}

/// Growth of the interner bounded by `n` entries.
pub open spec fn grew_by_at_most(after: TypeNameInterner, before: TypeNameInterner, n: int) -> bool {
    after.used() <= before.used() + n
}

pub proof fn lemma_scope_value_stable(it: TypeNameInterner, old: TypeNameInterner, ns: NamespaceSym)
    requires
        old.wf(),
        it.extends(&old),
        (ns.0 as int) < old.spaces().len(),
    ensures
        (ns.0 as int) < it.spaces().len(),
        scope_value(it, ns) == scope_value(old, ns),
{
    old.lemma_wf_facts();
    assert(it.spaces()[ns.0 as int] == old.spaces()[ns.0 as int]);
    let path = old.spaces()[ns.0 as int].0;
    assert(old.valid_path(path));
    assert(path_texts(it.syms(), path) =~= path_texts(old.syms(), path)) by {
        assert forall|j: int| 0 <= j < path.len() implies it.syms()[path[j].0 as int] == old.syms()[path[j].0 as int] by {
            assert((path[j].0 as int) < old.syms().len());
        }
    }
}

pub proof fn lemma_context_value_stable(it: TypeNameInterner, old: TypeNameInterner, ctx: Seq<TypeNameSym>)
    requires
        old.wf(),
        it.extends(&old),
        crate::resolver::name_resolver::valid_context(old, ctx),
    ensures
        crate::resolver::name_resolver::valid_context(it, ctx),
        context_value(it, ctx) == context_value(old, ctx),
{
    assert forall|i: int| 0 <= i < ctx.len() implies name_value(it, ctx[i]) == name_value(old, ctx[i]) && (ctx[i].0 as int) < it@.len() by {
        assert((ctx[i].0 as int) < old@.len());
        it.lemma_value_stable(&old, ctx[i]);
    }
    assert(context_value(it, ctx) =~= context_value(old, ctx));
}

/// `extends` chains.
pub proof fn lemma_extends_trans(a: TypeNameInterner, b: TypeNameInterner, c: TypeNameInterner)
    requires
        b.extends(&a),
        c.extends(&b),
    ensures
        c.extends(&a),
{
    assert(a.syms().is_prefix_of(c.syms()));
    assert(a.spaces().is_prefix_of(c.spaces()));
    assert(a@.is_prefix_of(c@));
}

/// The printed form of an interned name is its value's printed form.
pub proof fn lemma_text_of(it: TypeNameInterner, t: TypeNameSym)
    requires
        it.wf(),
        (t.0 as int) < it@.len(),
    ensures
        crate::interner::type_name_text(it.syms(), it.spaces(), it@[t.0 as int]) == name_text(name_value(it, t)),
{
    it.lemma_wf_facts();
    let e = it@[t.0 as int];
    assert(it.valid_entry(e));
    let path = it.spaces()[e.0.0 as int].0;
    lemma_path_text(it.syms(), path);
}

proof fn lemma_path_text(syms: Seq<Seq<char>>, path: Seq<Sym>)
    ensures
        crate::interner::path_text(syms, path) == segments_text(path_texts(syms, path)),
    decreases path.len(),
{
    if path.len() > 0 {
        lemma_path_text(syms, path.drop_last());
        assert(path_texts(syms, path).drop_last() =~= path_texts(syms, path.drop_last()));
    }
}

/// Intern the type name `r` spells (its segments, name, namespace and
/// the name itself).
pub fn intern_type_name_ref(it: &mut TypeNameInterner, r: &TypeNameRef) -> (t: TypeNameSym)
    requires
        old(it).wf(),
        old(it).used() + ref_cost(*r) < u32::MAX,
    ensures
        final(it).wf(),
        final(it).extends(old(it)),
        grew_by_at_most(*final(it), *old(it), ref_cost(*r) as int),
        (t.0 as int) < final(it)@.len(),
        name_value(*final(it), t) == ref_value(*r),
{
    let mut path: Vec<Sym> = Vec::new();
    let mut i: usize = 0;
    while i < r.path.len()
        invariant
            it.wf(),
            it.extends(old(it)),
            it.spaces() == old(it).spaces(),
            it@ == old(it)@,
            it.syms().len() <= old(it).syms().len() + i,
            old(it).used() + ref_cost(*r) < u32::MAX,
            i <= r.path@.len(),
            path@.len() == i,
            it.valid_path(path@),
            path_texts(it.syms(), path@) == texts(r.path@).take(i as int),
        decreases r.path.len() - i,
    {
        let ghost before = *it;
        let sym = it.intern_symbol(r.path[i].as_str());
        proof {
            assert(before.syms().is_prefix_of(it.syms()));
        }
        let ghost p0 = path@;
        path.push(sym);
        proof {
            assert(path_texts(it.syms(), path@) =~= texts(r.path@).take(i + 1)) by {
                assert forall|j: int| 0 <= j < i + 1 implies path_texts(it.syms(), path@)[j] == texts(r.path@).take(i + 1)[j] by {
                    if j < i {
                        assert((p0[j].0 as int) < before.syms().len());
                        assert(path_texts(before.syms(), p0)[j] == texts(r.path@)[j]);
                    }
                }
            }
            assert(old(it).syms().is_prefix_of(it.syms()));
        }
        i = i + 1;
    }
    proof {
        assert(texts(r.path@).take(r.path@.len() as int) =~= texts(r.path@));
    }
    let ghost mid = *it;
    let name = it.intern_symbol(r.name.as_str());
    proof {
        assert(mid.syms().is_prefix_of(it.syms()));
        assert(path_texts(it.syms(), path@) =~= path_texts(mid.syms(), path@)) by {
            assert forall|j: int| 0 <= j < path@.len() implies it.syms()[path@[j].0 as int] == mid.syms()[path@[j].0 as int] by {
                assert((path@[j].0 as int) < mid.syms().len());
            }
        }
        assert(old(it).syms().is_prefix_of(it.syms()));
    }
    let ns = it.intern_namespace(path.as_slice(), r.absolute);
    let kind = TypeNameKind::detect(r.name.as_str());
    let t = it.intern(ns, name, kind);
    proof {
        assert(old(it).syms().is_prefix_of(it.syms()));
        assert(old(it).spaces().is_prefix_of(it.spaces()));
        assert(old(it)@.is_prefix_of(it@));
    }
    t
}

/// Intern every type name of `refs`.
fn intern_refs(it: &mut TypeNameInterner, refs: &Vec<TypeNameRef>)
    requires
        old(it).wf(),
        old(it).used() + refs_cost(refs@) < u32::MAX,
    ensures
        final(it).wf(),
        final(it).extends(old(it)),
        grew_by_at_most(*final(it), *old(it), refs_cost(refs@) as int),
        refs_interned(*final(it), refs@),
{
    let mut i: usize = 0;
    proof {
        assert(refs@.take(0) =~= Seq::<TypeNameRef>::empty());
    }
    while i < refs.len()
        invariant
            it.wf(),
            it.extends(old(it)),
            i <= refs@.len(),
            grew_by_at_most(*it, *old(it), refs_cost(refs@.take(i as int)) as int),
            old(it).used() + refs_cost(refs@) < u32::MAX,
            refs_interned(*it, refs@.take(i as int)),
        decreases refs.len() - i,
    {
        proof {
            assert(refs@.take(i + 1).drop_last() =~= refs@.take(i as int));
            lemma_refs_cost_prefix(refs@, i + 1);
        }
        let ghost before = *it;
        let t = intern_type_name_ref(it, &refs[i]);
        proof {
            lemma_extends_trans(*old(it), before, *it);
            lemma_refs_interned_later(before, *it, refs@.take(i as int));
            assert(value_interned(*it, ref_value(refs@[i as int]))) by {
                assert((t.0 as int) < it@.len() && name_value(*it, t) == ref_value(refs@[i as int]));
            }
            assert(refs@.take(i + 1) =~= refs@.take(i as int).push(refs@[i as int]));
        }
        i = i + 1;
    }
    proof {
        assert(refs@.take(refs@.len() as int) =~= refs@);
    }
}

proof fn lemma_refs_cost_prefix(rs: Seq<TypeNameRef>, n: int)
    requires
        0 <= n <= rs.len(),
    ensures
        refs_cost(rs.take(n)) <= refs_cost(rs),
    decreases rs.len() - n,
{
    if n < rs.len() {
        lemma_refs_cost_prefix(rs, n + 1);
        assert(rs.take(n + 1).drop_last() =~= rs.take(n));
    } else {
        assert(rs.take(n) =~= rs);
    }
}

proof fn lemma_texts_stable(it: TypeNameInterner, old: TypeNameInterner, path: Seq<Sym>)
    requires
        old.wf(),
        it.extends(&old),
        old.valid_path(path),
    ensures
        path_texts(it.syms(), path) == path_texts(old.syms(), path),
{
    assert(path_texts(it.syms(), path) =~= path_texts(old.syms(), path)) by {
        assert forall|j: int| 0 <= j < path.len() implies it.syms()[path[j].0 as int] == old.syms()[path[j].0 as int] by {
            assert((path[j].0 as int) < old.syms().len());
        }
    }
}

/// What `with_prefix` interned spells the prefixed name.
pub(crate) proof fn lemma_prefixed_value(before: TypeNameInterner, after: TypeNameInterner, prefix: NamespaceSym, inner: TypeNameSym, full: TypeNameSym)
    requires
        before.wf(),
        after.wf(),
        after.extends(&before),
        (prefix.0 as int) < before.spaces().len(),
        (inner.0 as int) < before@.len(),
        (full.0 as int) < after@.len(),
        after@[full.0 as int].1 == before@[inner.0 as int].1,
        after@[full.0 as int].2 == before@[inner.0 as int].2,
        after.spaces()[after@[full.0 as int].0.0 as int] == crate::interner::join_namespaces(
            before.spaces()[prefix.0 as int],
            before.spaces()[before@[inner.0 as int].0.0 as int],
        ),
    ensures
        name_value(after, full) == prefixed(scope_value(before, prefix), name_value(before, inner)),
{
    before.lemma_wf_facts();
    let e = before@[inner.0 as int];
    assert(before.valid_entry(e));
    let lp = before.spaces()[prefix.0 as int].0;
    let rp = before.spaces()[e.0.0 as int].0;
    assert(before.valid_path(lp));
    assert(before.valid_path(rp));
    lemma_texts_stable(after, before, lp);
    lemma_texts_stable(after, before, rp);
    assert(after.syms()[e.1.0 as int] == before.syms()[e.1.0 as int]);
    assert(path_texts(after.syms(), lp + rp) =~= path_texts(after.syms(), lp) + path_texts(after.syms(), rp));
}

/// What `to_namespace` interned spells the name's namespace.
pub(crate) proof fn lemma_scope_of_value(before: TypeNameInterner, after: TypeNameInterner, tn: TypeNameSym, ns: NamespaceSym)
    requires
        before.wf(),
        after.wf(),
        after.extends(&before),
        (tn.0 as int) < before@.len(),
        (ns.0 as int) < after.spaces().len(),
        after.spaces()[ns.0 as int] == crate::interner::namespace_of_type_name(before.spaces(), before@[tn.0 as int]),
    ensures
        scope_value(after, ns) == as_scope(name_value(before, tn)),
{
    before.lemma_wf_facts();
    let e = before@[tn.0 as int];
    assert(before.valid_entry(e));
    let p = before.spaces()[e.0.0 as int].0;
    assert(before.valid_path(p));
    lemma_texts_stable(after, before, p);
    assert(after.syms()[e.1.0 as int] == before.syms()[e.1.0 as int]);
    assert(path_texts(after.syms(), p.push(e.1)) =~= path_texts(after.syms(), p).push(after.syms()[e.1.0 as int]));
}

/// `after` holds the state `out` describes, and `r` reports its outcome:
/// `Ok` when no duplicate was met, else the duplicate's printed name.
pub open spec fn inserted(after: Environment, out: (DeclState, Option<Seq<char>>), r: Result<(), Error>) -> bool {
    &&& after.decl_values() == out.0.0
    &&& after.global_values() == out.0.1
    &&& match r {
        Ok(_) => out.1 is None,
        Err(e) => out.1 is Some && (e matches Error::DuplicatedDeclaration { name } && name@ == out.1->0),
    }
}

/// The state of `env`.
pub open spec fn state_of(env: Environment) -> DeclState {
    (env.decl_values(), env.global_values())
}

proof fn lemma_members_error_sticky(st: DeclState, ms: Seq<Member>, n: int, ctx: Seq<NameValue>, prefix: ScopeValue)
    requires
        0 <= n <= ms.len(),
        insert_members_spec(st, ms.take(n), ctx, prefix).1 is Some,
    ensures
        insert_members_spec(st, ms, ctx, prefix) == insert_members_spec(st, ms.take(n), ctx, prefix),
    decreases ms.len() - n,
{
    if n < ms.len() {
        assert(ms.take(n + 1).drop_last() =~= ms.take(n));
        lemma_members_error_sticky(st, ms, n + 1, ctx, prefix);
    } else {
        assert(ms.take(n) =~= ms);
    }
}

proof fn lemma_decls_error_sticky(st: DeclState, ds: Seq<Decl>, n: int, prefix: ScopeValue)
    requires
        0 <= n <= ds.len(),
        insert_decls_spec(st, ds.take(n), prefix).1 is Some,
    ensures
        insert_decls_spec(st, ds, prefix) == insert_decls_spec(st, ds.take(n), prefix),
    decreases ds.len() - n,
{
    if n < ds.len() {
        assert(ds.take(n + 1).drop_last() =~= ds.take(n));
        lemma_decls_error_sticky(st, ds, n + 1, prefix);
    } else {
        assert(ds.take(n) =~= ds);
    }
}

proof fn lemma_members_cost_prefix(ms: Seq<Member>, n: int)
    requires
        0 <= n <= ms.len(),
    ensures
        members_cost(ms.take(n)) <= members_cost(ms),
    decreases ms.len() - n,
{
    if n < ms.len() {
        lemma_members_cost_prefix(ms, n + 1);
        assert(ms.take(n + 1).drop_last() =~= ms.take(n));
    } else {
        assert(ms.take(n) =~= ms);
    }
}

proof fn lemma_decls_cost_prefix(ds: Seq<Decl>, n: int)
    requires
        0 <= n <= ds.len(),
    ensures
        decls_cost(ds.take(n)) <= decls_cost(ds),
    decreases ds.len() - n,
{
    if n < ds.len() {
        lemma_decls_cost_prefix(ds, n + 1);
        assert(ds.take(n + 1).drop_last() =~= ds.take(n));
    } else {
        assert(ds.take(n) =~= ds);
    }
}

/// Intern declared name `r` under namespace `ns` (`with_prefix`).
fn declare_name(env: &mut Environment, r: &TypeNameRef, ns: NamespaceSym) -> (full: TypeNameSym)
    requires
        old(env).wf(),
        (ns.0 as int) < old(env).interner.spaces().len(),
        old(env).interner.used() + ref_cost(*r) + 2 < u32::MAX,
    ensures
        final(env).wf(),
        final(env).interner.extends(&old(env).interner),
        grew_by_at_most(final(env).interner, old(env).interner, (ref_cost(*r) + 2) as int),
        final(env).decl_list == old(env).decl_list,
        final(env).decl_index == old(env).decl_index,
        final(env).global_decls == old(env).global_decls,
        final(env).sources == old(env).sources,
        state_of(*final(env)) == state_of(*old(env)),
        (full.0 as int) < final(env).interner@.len(),
        name_value(final(env).interner, full) == prefixed(scope_value(old(env).interner, ns), ref_value(*r)),
        value_interned(final(env).interner, ref_value(*r)),
{
    let ghost e0 = *env;
    let inner = intern_type_name_ref(&mut env.interner, r);
    let ghost mid = env.interner;
    proof {
        assert(value_interned(mid, ref_value(*r)));
    }
    proof {
        lemma_scope_value_stable(mid, e0.interner, ns);
    }
    let full = env.interner.with_prefix(ns, inner);
    proof {
        lemma_prefixed_value(mid, env.interner, ns, inner, full);
        lemma_extends_trans(e0.interner, mid, env.interner);
        env.lemma_interner_grew(&e0);
        env.interner.lemma_value_interned_stable(&mid, ref_value(*r));
    }
    full
}

/// `insert_decl`: register declaration `d` found in scopes `ctx` whose
/// innermost namespace is `ns`.
fn insert_decl(env: &mut Environment, d: &Decl, ctx: &Vec<TypeNameSym>, ns: NamespaceSym) -> (r: Result<(), Error>)
    requires
        old(env).wf(),
        valid_context(old(env).interner, ctx@),
        (ns.0 as int) < old(env).interner.spaces().len(),
        old(env).interner.used() + decl_cost(*d) < u32::MAX,
    ensures
        final(env).wf(),
        final(env).interner.extends(&old(env).interner),
        grew_by_at_most(final(env).interner, old(env).interner, decl_cost(*d) as int),
        final(env).sources == old(env).sources,
        inserted(
            *final(env),
            insert_decl_spec(state_of(*old(env)), *d, context_value(old(env).interner, ctx@), scope_value(old(env).interner, ns)),
            r,
        ),
        r is Ok ==> mentions_interned(final(env).interner, decl_preorder(*d)),
    decreases *d,
{
    let ghost e0 = *env;
    let ghost cv = context_value(e0.interner, ctx@);
    let ghost sv = scope_value(e0.interner, ns);
    match d {
        Decl::Class { name, params, super_refs, members } => {
            let full = declare_name(env, name, ns);
            let ghost fv = name_value(env.interner, full);
            proof {
                env.lemma_decl_value_at(full);
            }
            let dup = match env.decl(full) {
                Some(DeclEntry::Class) => false,
                None => false,
                Some(_) => true,
            };
            if dup {
                let text = env.interner.to_string(full);
                proof {
                    lemma_text_of(env.interner, full);
                }
                return Err(Error::DuplicatedDeclaration { name: text });
            }
            env.set_decl(full, DeclEntry::Class);
            let ghost e1 = *env;
            intern_refs(&mut env.interner, params);
            proof {
                env.lemma_interner_grew(&e1);
            }
            let ghost e2 = *env;
            intern_refs(&mut env.interner, super_refs);
            proof {
                env.lemma_interner_grew(&e2);
                lemma_extends_trans(e1.interner, e2.interner, env.interner);
                lemma_refs_interned_later(e2.interner, env.interner, params@);
                lemma_refs_interned_concat(env.interner, params@, super_refs@);
            }
            let ghost ps = env.interner;
            let ghost e3 = *env;
            let inner_ns = env.interner.to_namespace(full);
            proof {
                e1.interner.lemma_value_stable(&e1.interner, full);
                env.interner.lemma_value_stable(&e1.interner, full);
                assert((full.0 as int) < e3.interner@.len());
                e3.interner.lemma_value_stable(&e1.interner, full);
                lemma_scope_of_value(e3.interner, env.interner, full, inner_ns);
                env.lemma_interner_grew(&e3);
                lemma_extends_trans(e1.interner, e3.interner, env.interner);
                lemma_extends_trans(e0.interner, e1.interner, env.interner);
                env.interner.lemma_value_stable(&e1.interner, full);
            }
            let mut inner_ctx = copy_ctx(ctx);
            inner_ctx.push(full);
            proof {
                lemma_context_value_stable(env.interner, e0.interner, ctx@);
                assert(context_value(env.interner, inner_ctx@) =~= cv.push(fv));
                assert(valid_context(env.interner, inner_ctx@));
            }
            let ghost e4 = *env;
            let r = insert_members(env, members, &inner_ctx, inner_ns);
            proof {
                lemma_extends_trans(e0.interner, e4.interner, env.interner);
                if r is Ok {
                    lemma_extends_trans(ps, e4.interner, env.interner);
                    lemma_refs_interned_later(ps, env.interner, params@ + super_refs@);
                    lemma_refs_interned_concat(env.interner, params@ + super_refs@, member_refs(members@));
                    assert(mentioned(*d) == params@ + super_refs@ + member_refs(members@));
                    lemma_extends_trans(e1.interner, e4.interner, env.interner);
                    env.interner.lemma_value_interned_stable(&e1.interner, ref_value(*name));
                    assert(refs_interned(env.interner, declared_ref(*d)));
                    assert(mentions_interned(env.interner, seq![*d]));
                    lemma_mentions_interned_concat(env.interner, seq![*d], members_preorder(members@));
                }
            }
            r
        },
        Decl::Module { name, params, members } => {
            let full = declare_name(env, name, ns);
            let ghost fv = name_value(env.interner, full);
            proof {
                env.lemma_decl_value_at(full);
            }
            let dup = match env.decl(full) {
                Some(DeclEntry::Module) => false,
                None => false,
                Some(_) => true,
            };
            if dup {
                let text = env.interner.to_string(full);
                proof {
                    lemma_text_of(env.interner, full);
                }
                return Err(Error::DuplicatedDeclaration { name: text });
            }
            env.set_decl(full, DeclEntry::Module);
            let ghost e1 = *env;
            intern_refs(&mut env.interner, params);
            proof {
                env.lemma_interner_grew(&e1);
            }
            let ghost ps = env.interner;
            let ghost e3 = *env;
            let inner_ns = env.interner.to_namespace(full);
            proof {
                e3.interner.lemma_value_stable(&e1.interner, full);
                lemma_scope_of_value(e3.interner, env.interner, full, inner_ns);
                env.lemma_interner_grew(&e3);
                lemma_extends_trans(e1.interner, e3.interner, env.interner);
                lemma_extends_trans(e0.interner, e1.interner, env.interner);
                env.interner.lemma_value_stable(&e1.interner, full);
            }
            let mut inner_ctx = copy_ctx(ctx);
            inner_ctx.push(full);
            proof {
                lemma_context_value_stable(env.interner, e0.interner, ctx@);
                assert(context_value(env.interner, inner_ctx@) =~= cv.push(fv));
                assert(valid_context(env.interner, inner_ctx@));
            }
            let ghost e4 = *env;
            let r = insert_members(env, members, &inner_ctx, inner_ns);
            proof {
                lemma_extends_trans(e0.interner, e4.interner, env.interner);
                if r is Ok {
                    lemma_extends_trans(ps, e4.interner, env.interner);
                    lemma_refs_interned_later(ps, env.interner, params@);
                    lemma_refs_interned_concat(env.interner, params@, member_refs(members@));
                    lemma_extends_trans(e1.interner, e4.interner, env.interner);
                    env.interner.lemma_value_interned_stable(&e1.interner, ref_value(*name));
                    assert(refs_interned(env.interner, declared_ref(*d)));
                    assert(mentions_interned(env.interner, seq![*d]));
                    lemma_mentions_interned_concat(env.interner, seq![*d], members_preorder(members@));
                }
            }
            r
        },
        Decl::Interface { name, refs } => {
            let full = declare_name(env, name, ns);
            proof {
                env.lemma_decl_value_at(full);
            }
            let present = env.decl(full).is_some();
            env.set_decl(full, DeclEntry::Interface);
            if present {
                let text = env.interner.to_string(full);
                proof {
                    lemma_text_of(env.interner, full);
                }
                return Err(Error::DuplicatedDeclaration { name: text });
            }
            let ghost e1 = *env;
            intern_refs(&mut env.interner, refs);
            proof {
                env.lemma_interner_grew(&e1);
                lemma_extends_trans(e0.interner, e1.interner, env.interner);
                env.interner.lemma_value_interned_stable(&e1.interner, ref_value(*name));
                assert(refs_interned(env.interner, declared_ref(*d)));
                assert(decl_preorder(*d) =~= seq![*d]);
                assert(mentions_interned(env.interner, seq![*d]));
            }
            Ok(())
        },
        Decl::TypeAlias { name, refs } => {
            let full = declare_name(env, name, ns);
            proof {
                env.lemma_decl_value_at(full);
            }
            let present = env.decl(full).is_some();
            env.set_decl(full, DeclEntry::TypeAlias);
            if present {
                let text = env.interner.to_string(full);
                proof {
                    lemma_text_of(env.interner, full);
                }
                return Err(Error::DuplicatedDeclaration { name: text });
            }
            let ghost e1 = *env;
            intern_refs(&mut env.interner, refs);
            proof {
                env.lemma_interner_grew(&e1);
                lemma_extends_trans(e0.interner, e1.interner, env.interner);
                env.interner.lemma_value_interned_stable(&e1.interner, ref_value(*name));
                assert(refs_interned(env.interner, declared_ref(*d)));
                assert(decl_preorder(*d) =~= seq![*d]);
                assert(mentions_interned(env.interner, seq![*d]));
            }
            Ok(())
        },
        Decl::Constant { name, refs } => {
            let full = declare_name(env, name, ns);
            proof {
                env.lemma_decl_value_at(full);
            }
            if env.decl(full).is_some() {
                let text = env.interner.to_string(full);
                proof {
                    lemma_text_of(env.interner, full);
                }
                return Err(Error::DuplicatedDeclaration { name: text });
            }
            env.set_decl(full, DeclEntry::Constant);
            let ghost e1 = *env;
            intern_refs(&mut env.interner, refs);
            proof {
                env.lemma_interner_grew(&e1);
                lemma_extends_trans(e0.interner, e1.interner, env.interner);
                env.interner.lemma_value_interned_stable(&e1.interner, ref_value(*name));
                assert(refs_interned(env.interner, declared_ref(*d)));
                assert(decl_preorder(*d) =~= seq![*d]);
                assert(mentions_interned(env.interner, seq![*d]));
            }
            Ok(())
        },
        Decl::Global { name, refs } => {
            let sym = env.interner.intern_symbol(name.as_str());
            proof {
                assert(e0.interner.syms().is_prefix_of(env.interner.syms()));
                assert(env.interner.extends(&e0.interner));
                env.lemma_interner_grew(&e0);
            }
            let ghost e1 = *env;
            if !env.add_global(sym) {
                let text = env.interner.symbol(sym).to_owned();
                proof {
                    assert(env.global_values() =~= e1.global_values());
                }
                return Err(Error::DuplicatedDeclaration { name: text });
            }
            let ghost e2 = *env;
            intern_refs(&mut env.interner, refs);
            proof {
                env.lemma_interner_grew(&e2);
                lemma_extends_trans(e0.interner, e2.interner, env.interner);
                assert(declared_ref(*d) =~= Seq::<TypeNameRef>::empty());
                assert(decl_preorder(*d) =~= seq![*d]);
                assert(mentions_interned(env.interner, seq![*d]));
            }
            Ok(())
        },
        Decl::ClassAlias { new_name, old_name } => {
            let r = insert_alias(env, new_name, old_name, ctx, ns);
            proof {
                assert(decl_preorder(*d) =~= seq![*d]);
                if r is Ok {
                    assert(refs_interned(env.interner, mentioned(*d)));
                    assert(refs_interned(env.interner, declared_ref(*d)));
                    assert(mentions_interned(env.interner, seq![*d]));
                }
            }
            r
        },
        Decl::ModuleAlias { new_name, old_name } => {
            let r = insert_alias(env, new_name, old_name, ctx, ns);
            proof {
                assert(decl_preorder(*d) =~= seq![*d]);
                if r is Ok {
                    assert(refs_interned(env.interner, mentioned(*d)));
                    assert(refs_interned(env.interner, declared_ref(*d)));
                    assert(mentions_interned(env.interner, seq![*d]));
                }
            }
            r
        },
    }
}

/// A class or module alias `new_name = old_name` in scopes `ctx`.
fn insert_alias(env: &mut Environment, new_name: &TypeNameRef, old_name: &TypeNameRef, ctx: &Vec<TypeNameSym>, ns: NamespaceSym) -> (r:
    Result<(), Error>)
    requires
        old(env).wf(),
        valid_context(old(env).interner, ctx@),
        (ns.0 as int) < old(env).interner.spaces().len(),
        old(env).interner.used() + ref_cost(*new_name) + 2 + ref_cost(*old_name) < u32::MAX,
    ensures
        final(env).wf(),
        final(env).interner.extends(&old(env).interner),
        grew_by_at_most(final(env).interner, old(env).interner, (ref_cost(*new_name) + 2 + ref_cost(*old_name)) as int),
        final(env).sources == old(env).sources,
        ({
            let st = state_of(*old(env));
            let full = prefixed(scope_value(old(env).interner, ns), ref_value(*new_name));
            let out = if st.0.contains_key(full) {
                (st, Some(name_text(full)))
            } else {
                ((st.0.insert(full, EntryValue::Alias(ref_value(*old_name), context_value(old(env).interner, ctx@))), st.1), None)
            };
            inserted(*final(env), out, r)
        }),
        r is Ok ==> value_interned(final(env).interner, ref_value(*old_name)),
        r is Ok ==> value_interned(final(env).interner, ref_value(*new_name)),
{
    let ghost e0 = *env;
    let full = declare_name(env, new_name, ns);
    let ghost e1 = *env;
    let old_tn = intern_type_name_ref(&mut env.interner, old_name);
    proof {
        assert((old_tn.0 as int) < env.interner@.len() && name_value(env.interner, old_tn) == ref_value(*old_name));
        env.lemma_interner_grew(&e1);
        lemma_extends_trans(e0.interner, e1.interner, env.interner);
        env.interner.lemma_value_stable(&e1.interner, full);
        env.lemma_decl_value_at(full);
        lemma_context_value_stable(env.interner, e0.interner, ctx@);
    }
    if env.decl(full).is_some() {
        let text = env.interner.to_string(full);
        proof {
            lemma_text_of(env.interner, full);
        }
        return Err(Error::DuplicatedDeclaration { name: text });
    }
    let c = copy_ctx(ctx);
    let entry = DeclEntry::ClassAlias(Box::new(crate::env::ClassAliasEntry { old_name: old_tn, context: c }));
    proof {
        assert(crate::env::entry_refs_valid(entry, env.interner@.len() as int));
        assert(entry_value(env.interner, entry) == EntryValue::Alias(ref_value(*old_name), context_value(e0.interner, ctx@)));
    }
    let ghost ib = env.interner;
    env.set_decl(full, entry);
    proof {
        env.interner.lemma_value_interned_stable(&ib, ref_value(*old_name));
        env.interner.lemma_value_interned_stable(&e1.interner, ref_value(*new_name));
    }
    Ok(())
}

/// Register the nested declarations among `members`, in order.
fn insert_members(env: &mut Environment, members: &Vec<Member>, ctx: &Vec<TypeNameSym>, ns: NamespaceSym) -> (r: Result<
    (),
    Error,
>)
    requires
        old(env).wf(),
        valid_context(old(env).interner, ctx@),
        (ns.0 as int) < old(env).interner.spaces().len(),
        old(env).interner.used() + members_cost(members@) < u32::MAX,
    ensures
        final(env).wf(),
        final(env).interner.extends(&old(env).interner),
        grew_by_at_most(final(env).interner, old(env).interner, members_cost(members@) as int),
        final(env).sources == old(env).sources,
        inserted(
            *final(env),
            insert_members_spec(state_of(*old(env)), members@, context_value(old(env).interner, ctx@), scope_value(old(env).interner, ns)),
            r,
        ),
        r is Ok ==> refs_interned(final(env).interner, member_refs(members@)) && mentions_interned(
            final(env).interner,
            members_preorder(members@),
        ),
    decreases members@,
{
    let ghost e0 = *env;
    let ghost st0 = state_of(e0);
    let ghost cv = context_value(e0.interner, ctx@);
    let ghost sv = scope_value(e0.interner, ns);
    let mut i: usize = 0;
    proof {
        assert(members@.take(0) =~= Seq::<Member>::empty());
        assert(member_refs(members@.take(0)) =~= Seq::<TypeNameRef>::empty());
        assert(members_preorder(members@.take(0)) =~= Seq::<Decl>::empty());
    }
    while i < members.len()
        invariant
            env.wf(),
            e0.wf(),
            env.interner.extends(&e0.interner),
            e0 == *old(env),
            env.sources == e0.sources,
            valid_context(e0.interner, ctx@),
            (ns.0 as int) < e0.interner.spaces().len(),
            cv == context_value(e0.interner, ctx@),
            sv == scope_value(e0.interner, ns),
            st0 == state_of(e0),
            e0.interner.used() + members_cost(members@) < u32::MAX,
            i <= members@.len(),
            grew_by_at_most(env.interner, e0.interner, members_cost(members@.take(i as int)) as int),
            state_of(*env) == insert_members_spec(st0, members@.take(i as int), cv, sv).0,
            insert_members_spec(st0, members@.take(i as int), cv, sv).1 is None,
            refs_interned(env.interner, member_refs(members@.take(i as int))),
            mentions_interned(env.interner, members_preorder(members@.take(i as int))),
        decreases members.len() - i,
    {
        proof {
            assert(members@.take(i + 1).drop_last() =~= members@.take(i as int));
            assert(members@.take(i + 1).last() == members@[i as int]);
            lemma_members_cost_prefix(members@, i + 1);
            lemma_context_value_stable(env.interner, e0.interner, ctx@);
            lemma_scope_value_stable(env.interner, e0.interner, ns);
        }
        let ghost ei = *env;
        match &members[i] {
            Member::Decl(d) => {
                let r = insert_decl(env, d, ctx, ns);
                proof {
                    lemma_extends_trans(e0.interner, ei.interner, env.interner);
                    if r is Ok {
                        let pre = members@.take(i as int);
                        lemma_refs_interned_later(ei.interner, env.interner, member_refs(pre));
                        lemma_mentions_interned_later(ei.interner, env.interner, members_preorder(pre));
                        assert(member_refs(members@.take(i + 1)) =~= member_refs(pre) + Seq::<TypeNameRef>::empty());
                        lemma_mentions_interned_concat(env.interner, members_preorder(pre), decl_preorder(*d));
                    }
                }
                match r {
                    Ok(()) => {},
                    Err(e) => {
                        proof {
                            lemma_members_error_sticky(st0, members@, i + 1, cv, sv);
                            lemma_members_cost_prefix(members@, i + 1);
                        }
                        return Err(e);
                    },
                }
            },
            Member::Refs(rs) => {
                intern_refs(&mut env.interner, rs);
                proof {
                    env.lemma_interner_grew(&ei);
                    lemma_extends_trans(e0.interner, ei.interner, env.interner);
                    let pre = members@.take(i as int);
                    lemma_refs_interned_later(ei.interner, env.interner, member_refs(pre));
                    lemma_mentions_interned_later(ei.interner, env.interner, members_preorder(pre));
                    lemma_refs_interned_concat(env.interner, member_refs(pre), rs@);
                    assert(members_preorder(members@.take(i + 1)) =~= members_preorder(pre) + Seq::<Decl>::empty());
                }
            },
        }
        i = i + 1;
    }
    proof {
        assert(members@.take(members@.len() as int) =~= members@);
    }
    Ok(())
}

fn copy_ctx(v: &Vec<TypeNameSym>) -> (r: Vec<TypeNameSym>)
    ensures
        r@ == v@,
{
    let mut r: Vec<TypeNameSym> = Vec::new();
    let mut i: usize = 0;
    while i < v.len()
        invariant
            i <= v@.len(),
            r@ == v@.take(i as int),
        decreases v.len() - i,
    {
        r.push(v[i]);
        proof {
            assert(v@.take(i + 1) =~= v@.take(i as int).push(v@[i as int]));
        }
        i = i + 1;
    }
    proof {
        assert(v@.take(v@.len() as int) =~= v@);
    }
    r
}

/// Whether the interner has room to insert `signature`: the limit
/// [`insert_rbs_source`] asks for.
pub fn insert_fits(env: &Environment, signature: &Signature) -> (b: bool)
    requires
        env.wf(),
    ensures
        b == (env.interner.used() + decls_cost(signature.declarations@) < u32::MAX),
{
    proof {
        env.lemma_decls_valid();
    }
    let used = env.interner.used_count();
    let cost = crate::signature::decls_cost_capped(&signature.declarations);
    used < u32::MAX as u64 && cost < u32::MAX as u64 - used
}

/// Register every declaration of `signature`, top-level ones anchored at
/// the absolute root. Stops at the first name declared twice in
/// incompatible ways (a class and a module, two interfaces, two type
/// aliases, a constant over any name, an alias over any name, or a
/// global twice) and reports its printed name. On success every type
/// name a declaration mentions (`mentioned`), and the name it declares
/// as written (`declared_ref`), nested ones included, is interned, so
/// resolution finds each one.
pub fn insert_rbs_source(env: &mut Environment, signature: &Signature) -> (r: Result<(), Error>)
    requires
        old(env).wf(),
        old(env).interner.used() + decls_cost(signature.declarations@) < u32::MAX,
    ensures
        final(env).wf(),
        final(env).interner.extends(&old(env).interner),
        grew_by_at_most(final(env).interner, old(env).interner, decls_cost(signature.declarations@) as int),
        final(env).sources == old(env).sources,
        inserted(
            *final(env),
            insert_decls_spec(state_of(*old(env)), signature.declarations@, (Seq::empty(), true)),
            r,
        ),
        r is Ok ==> mentions_interned(final(env).interner, decls_preorder(signature.declarations@)),
{
    let ghost e0 = *env;
    let ghost st0 = state_of(e0);
    let decls = &signature.declarations;
    let root = env.interner.root_absolute();
    let context: Vec<TypeNameSym> = Vec::new();
    proof {
        e0.interner.lemma_wf_facts();
        assert(scope_value(e0.interner, root) =~= (Seq::<Seq<char>>::empty(), true));
        assert(context_value(e0.interner, context@) =~= Seq::<NameValue>::empty());
        assert(decls@.take(0) =~= Seq::<Decl>::empty());
        assert(decls_preorder(decls@.take(0)) =~= Seq::<Decl>::empty());
    }
    let mut i: usize = 0;
    while i < decls.len()
        invariant
            env.wf(),
            e0.wf(),
            env.interner.extends(&e0.interner),
            e0 == *old(env),
            env.sources == e0.sources,
            context@ == Seq::<TypeNameSym>::empty(),
            (root.0 as int) < e0.interner.spaces().len(),
            scope_value(e0.interner, root) == (Seq::<Seq<char>>::empty(), true),
            st0 == state_of(e0),
            *decls == signature.declarations,
            e0.interner.used() + decls_cost(decls@) < u32::MAX,
            i <= decls@.len(),
            grew_by_at_most(env.interner, e0.interner, decls_cost(decls@.take(i as int)) as int),
            state_of(*env) == insert_decls_spec(st0, decls@.take(i as int), (Seq::empty(), true)).0,
            insert_decls_spec(st0, decls@.take(i as int), (Seq::empty(), true)).1 is None,
            mentions_interned(env.interner, decls_preorder(decls@.take(i as int))),
        decreases decls.len() - i,
    {
        proof {
            assert(decls@.take(i + 1).drop_last() =~= decls@.take(i as int));
            lemma_decls_cost_prefix(decls@, i + 1);
            lemma_scope_value_stable(env.interner, e0.interner, root);
            assert(context_value(env.interner, context@) =~= Seq::<NameValue>::empty());
        }
        let ghost ei = *env;
        let r = insert_decl(env, &decls[i], &context, root);
        proof {
            lemma_extends_trans(e0.interner, ei.interner, env.interner);
        }
        match r {
            Ok(()) => {
                proof {
                    let pre = decls@.take(i as int);
                    lemma_mentions_interned_later(ei.interner, env.interner, decls_preorder(pre));
                    assert(decls@.take(i + 1).last() == decls@[i as int]);
                    lemma_mentions_interned_concat(env.interner, decls_preorder(pre), decl_preorder(decls@[i as int]));
                }
            },
            Err(e) => {
                proof {
                    lemma_decls_error_sticky(st0, decls@, i + 1, (Seq::empty(), true));
                }
                return Err(e);
            },
        }
        i = i + 1;
    }
    proof {
        assert(decls@.take(decls@.len() as int) =~= decls@);
    }
    Ok(())
}

/// The interned type name `r` spells, when every part of it is
/// interned already.
pub fn find_type_name_ref(it: &TypeNameInterner, r: &TypeNameRef) -> (t: Option<TypeNameSym>)
    requires
        it.wf(),
    ensures
        t matches Some(x) ==> (x.0 as int) < it@.len() && name_value(*it, x) == ref_value(*r),
        t is None ==> !value_interned(*it, ref_value(*r)),
{
    proof {
        it.lemma_wf_facts();
    }
    let mut path: Vec<Sym> = Vec::new();
    let mut i: usize = 0;
    while i < r.path.len()
        invariant
            it.wf(),
            i <= r.path@.len(),
            path@.len() == i,
            it.valid_path(path@),
            path_texts(it.syms(), path@) == texts(r.path@).take(i as int),
        decreases r.path.len() - i,
    {
        let sym = match it.find_symbol(r.path[i].as_str()) {
            Some(s) => s,
            None => {
                proof {
                    it.lemma_wf_facts();
                    if value_interned(*it, ref_value(*r)) {
                        let x = choose|x: TypeNameSym| (x.0 as int) < it@.len() && #[trigger] name_value(*it, x) == ref_value(*r);
                        let e = it@[x.0 as int];
                        assert(it.valid_entry(e));
                        let px = it.spaces()[e.0.0 as int].0;
                        assert(it.valid_path(px));
                        assert(path_texts(it.syms(), px) == texts(r.path@));
                        assert(path_texts(it.syms(), px).len() == px.len());
                        assert(texts(r.path@).len() == r.path@.len());
                        assert(px.len() == r.path@.len());
                        assert(texts(r.path@)[i as int] == r.path@[i as int]@);
                        assert(path_texts(it.syms(), px)[i as int] == it.syms()[px[i as int].0 as int]);
                        assert(it.syms()[px[i as int].0 as int] == texts(r.path@)[i as int]);
                        assert(it.syms().contains(r.path@[i as int]@));
                    }
                }
                return None;
            },
        };
        let ghost p0 = path@;
        path.push(sym);
        proof {
            assert(path_texts(it.syms(), path@) =~= texts(r.path@).take(i + 1)) by {
                assert forall|j: int| 0 <= j < i + 1 implies path_texts(it.syms(), path@)[j] == texts(r.path@).take(i + 1)[j] by {
                    if j < i {
                        assert(path_texts(it.syms(), p0)[j] == texts(r.path@)[j]);
                    }
                }
            }
        }
        i = i + 1;
    }
    proof {
        assert(texts(r.path@).take(r.path@.len() as int) =~= texts(r.path@));
    }
    let name = match it.find_symbol(r.name.as_str()) {
        Some(s) => s,
        None => {
            proof {
                if value_interned(*it, ref_value(*r)) {
                    let x = choose|x: TypeNameSym| (x.0 as int) < it@.len() && #[trigger] name_value(*it, x) == ref_value(*r);
                    let e = it@[x.0 as int];
                    assert(it.valid_entry(e));
                    assert(it.syms()[e.1.0 as int] == r.name@);
                }
            }
            return None;
        },
    };
    let ns = match it.find_namespace(path.as_slice(), r.absolute) {
        Some(n) => n,
        None => {
            proof {
                if value_interned(*it, ref_value(*r)) {
                    let x = choose|x: TypeNameSym| (x.0 as int) < it@.len() && #[trigger] name_value(*it, x) == ref_value(*r);
                    let e = it@[x.0 as int];
                    assert(it.valid_entry(e));
                    let px = it.spaces()[e.0.0 as int].0;
                    assert(it.valid_path(px));
                    lemma_same_texts_same_path(it.syms(), px, path@);
                    assert(it.spaces()[e.0.0 as int] == (path@, r.absolute));
                }
            }
            return None;
        },
    };
    let kind = TypeNameKind::detect(r.name.as_str());
    let found = it.find(ns, name, kind);
    proof {
        if found is None && value_interned(*it, ref_value(*r)) {
            let x = choose|x: TypeNameSym| (x.0 as int) < it@.len() && #[trigger] name_value(*it, x) == ref_value(*r);
            let e = it@[x.0 as int];
            assert(it.valid_entry(e));
            let px = it.spaces()[e.0.0 as int].0;
            assert(it.valid_path(px));
            lemma_same_texts_same_path(it.syms(), px, path@);
            assert(it.spaces()[e.0.0 as int] == it.spaces()[ns.0 as int]);
            assert(e.0 == ns);
            assert(it.syms()[e.1.0 as int] == it.syms()[name.0 as int]);
            assert(e.1 == name);
            assert(it@[x.0 as int] == (ns, name, kind));
        }
    }
    found
}

/// Paths of interned strings with the same texts are the same path.
pub(crate) proof fn lemma_same_texts_same_path(syms: Seq<Seq<char>>, a: Seq<Sym>, b: Seq<Sym>)
    requires
        syms.no_duplicates(),
        forall|j: int| 0 <= j < a.len() ==> (#[trigger] a[j].0 as int) < syms.len(),
        forall|j: int| 0 <= j < b.len() ==> (#[trigger] b[j].0 as int) < syms.len(),
        path_texts(syms, a) == path_texts(syms, b),
    ensures
        a == b,
{
    assert(a.len() == path_texts(syms, a).len());
    assert(b.len() == path_texts(syms, b).len());
    assert forall|j: int| 0 <= j < a.len() implies a[j] == b[j] by {
        assert(path_texts(syms, a)[j] == syms[a[j].0 as int]);
        assert(path_texts(syms, b)[j] == syms[b[j].0 as int]);
        if a[j].0 != b[j].0 {
            assert(syms[a[j].0 as int] != syms[b[j].0 as int]);
        }
    }
    assert(a =~= b);
}

/// Every type name of `rs` is interned in `it`.
pub open spec fn refs_interned(it: TypeNameInterner, rs: Seq<TypeNameRef>) -> bool {
    forall|i: int| 0 <= i < rs.len() ==> value_interned(it, ref_value(#[trigger] rs[i]))
}

/// Every type name each declaration of `ds` mentions, and the name it
/// declares as written (with the namespace written before it), is
/// interned in `it`.
pub open spec fn mentions_interned(it: TypeNameInterner, ds: Seq<Decl>) -> bool {
    forall|k: int|
        0 <= k < ds.len() ==> refs_interned(it, mentioned(#[trigger] ds[k])) && refs_interned(it, declared_ref(ds[k]))
}

proof fn lemma_refs_interned_later(it: TypeNameInterner, it2: TypeNameInterner, rs: Seq<TypeNameRef>)
    requires
        it.wf(),
        it2.extends(&it),
        refs_interned(it, rs),
    ensures
        refs_interned(it2, rs),
{
    assert forall|i: int| 0 <= i < rs.len() implies value_interned(it2, ref_value(#[trigger] rs[i])) by {
        it2.lemma_value_interned_stable(&it, ref_value(rs[i]));
    }
}

proof fn lemma_mentions_interned_later(it: TypeNameInterner, it2: TypeNameInterner, ds: Seq<Decl>)
    requires
        it.wf(),
        it2.extends(&it),
        mentions_interned(it, ds),
    ensures
        mentions_interned(it2, ds),
{
    assert forall|k: int| 0 <= k < ds.len() implies refs_interned(it2, mentioned(#[trigger] ds[k])) && refs_interned(
        it2,
        declared_ref(ds[k]),
    ) by {
        lemma_refs_interned_later(it, it2, mentioned(ds[k]));
        lemma_refs_interned_later(it, it2, declared_ref(ds[k]));
    }
}

proof fn lemma_refs_interned_concat(it: TypeNameInterner, a: Seq<TypeNameRef>, b: Seq<TypeNameRef>)
    requires
        refs_interned(it, a),
        refs_interned(it, b),
    ensures
        refs_interned(it, a + b),
{
    assert forall|i: int| 0 <= i < (a + b).len() implies value_interned(it, ref_value(#[trigger] (a + b)[i])) by {
        if i < a.len() {
            assert((a + b)[i] == a[i]);
        } else {
            assert((a + b)[i] == b[i - a.len()]);
        }
    }
}

proof fn lemma_mentions_interned_concat(it: TypeNameInterner, a: Seq<Decl>, b: Seq<Decl>)
    requires
        mentions_interned(it, a),
        mentions_interned(it, b),
    ensures
        mentions_interned(it, a + b),
{
    assert forall|k: int| 0 <= k < (a + b).len() implies refs_interned(it, mentioned(#[trigger] (a + b)[k])) && refs_interned(
        it,
        declared_ref((a + b)[k]),
    ) by {
        if k < a.len() {
            assert((a + b)[k] == a[k]);
        } else {
            assert((a + b)[k] == b[k - a.len()]);
        }
    }
}

} // verus!
