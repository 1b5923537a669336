//! `RBS::Environment#resolve_type_names`: walk every declaration of every
//! source and record, per declaration, how each type name it mentions
//! resolves.
//!
//! Declarations are numbered per source in pre-order (nested ones
//! included), the numbering insertion uses; each occurrence is first
//! rewritten by the source's `# use` map, then resolved in the scopes
//! around it.
use std::collections::HashSet;
use vstd::prelude::*;

use crate::directive::{is_type_name_resolution_disabled, resolution_disabled};
use crate::env::insert::{
    find_type_name_ref, grew_by_at_most, intern_type_name_ref, lemma_extends_trans,
};
use crate::env::resolution::{Resolution, ResolvedRef};
use crate::env::use_map::{all_interned, child_index, Table, UseMap};
use crate::env::{context_value, resolvable, DeclRef, Environment};
use crate::env::use_map::rewrite_target;
use crate::resolver::outcome::{
    lemma_walked_later, lemma_walked_none, lemma_walked_trans, mapped_at, mapped_ready, outcome_at, outcome_in_state,
    outcome_of, outcomes_of, recorded, refs_occ, value_number, walked, Occurrence, full_value, scope_for,
    dref, own_occ, decl_tree, members_tree, members_occ, inner_scopes, lemma_walked_rebase, lemma_walked_nest, lemma_walked_fresh,
    lemma_decl_tree_len, selected, decl_name_ref, source_resolved, lemma_source_resolved_empty, lemma_decls_tree_len,
    lemma_selected_later, source_outcome, lemma_source_step_skip, clause_applied, sym_path, uses_chain, uses_built,
    kids_interned, lemma_clause_applied_later, lemma_uses_built_later, lemma_source_step_walk, lemma_source_resolved_later,
};
use crate::env::insert::{
    prefixed, lemma_context_value_stable, lemma_prefixed_value, lemma_scope_of_value, lemma_scope_value_stable, scope_value,
};
use crate::interner::{name_value, path_texts as path_texts_of_syms, value_interned, NameValue, NamespaceSym, Sym, TypeNameInterner, TypeNameSym};
use crate::resolver::name_resolver::{alias_target, lemma_resolve_declared, valid_context, TypeNameResolver};
use crate::signature::{
    texts, ref_value, decl_cost, decl_count, decls_cost, decls_count, lemma_decl_count_le_cost, lemma_refs_len_le_cost, members_cost,
    members_count, ref_cost, refs_cost, signature_cost, uses_cost, Decl, Member, Signature, TypeNameRef, UseClause,
    decl_preorder, decls_preorder, members_preorder, lemma_decl_preorder_len, lemma_decls_preorder_len, lemma_decls_preorder_prefix,
    lemma_members_preorder_prefix, capped, signature_cost_capped,
};
use crate::source::Source;

verus! {

/// A recorded outcome is a declared name, or an interned name that did
/// not resolve.
pub open spec fn outcome_ok(e: ResolvedRef, names: Set<u32>, n: int) -> bool {
    match e {
        ResolvedRef::Resolved(t) => names.contains(t.0),
        ResolvedRef::Unresolved(m) => (m.0 as int) < n,
    }
}

/// Every outcome recorded in `res` is [`outcome_ok`].
pub open spec fn outcomes_ok(res: Map<DeclRef, Seq<ResolvedRef>>, names: Set<u32>, n: int) -> bool {
    forall|d: DeclRef, i: int| #[trigger] res.contains_key(d) && 0 <= i < res[d].len() ==> outcome_ok(
        #[trigger] res[d][i],
        names,
        n,
    )
}

/// Records were only added for declarations `lo..hi` of source `src`.
pub open spec fn recorded_within(
    before: Map<DeclRef, Seq<ResolvedRef>>,
    after: Map<DeclRef, Seq<ResolvedRef>>,
    src: u32,
    lo: int,
    hi: int,
) -> bool {
    forall|d: DeclRef| #[trigger] after.contains_key(d) ==> before.contains_key(d) || (d.source_index == src
        && lo <= d.decl_index < hi)
}

/// Work bound for resolving all of `srcs`.
pub open spec fn sources_cost(srcs: Seq<Source>) -> nat
    decreases srcs.len(),
{
    if srcs.len() == 0 {
        0
    } else {
        sources_cost(srcs.drop_last()) + signature_cost(srcs.last().signature)
    }
}

/// What stays fixed while walking: the resolver, the use map and the
/// interner they are valid for.
pub open spec fn walk_ready(
    it: TypeNameInterner,
    resolver: &TypeNameResolver,
    use_map: &UseMap,
    res: &Resolution,
    names: Set<u32>,
) -> bool {
    &&& it.wf()
    &&& resolver.valid_for(it)
    &&& use_map.valid_for(it)
    &&& res.wf()
    &&& resolver.names() == names
    &&& outcomes_ok(res@, names, it@.len() as int)
}

proof fn lemma_ready_grows(
    before: TypeNameInterner,
    after: TypeNameInterner,
    resolver: &TypeNameResolver,
    use_map: &UseMap,
    res: &Resolution,
    names: Set<u32>,
)
    requires
        walk_ready(before, resolver, use_map, res, names),
        after.wf(),
        after.extends(&before),
    ensures
        walk_ready(after, resolver, use_map, res, names),
{
    assert(before@.is_prefix_of(after@));
    assert forall|k: u32| #[trigger] resolver.alias_map().contains_key(k) implies (resolver.alias_map()[k].0.0 as int) < after@.len()
        && valid_context(after, resolver.alias_map()[k].1) by {
        assert(valid_context(before, resolver.alias_map()[k].1));
    }
    assert forall|d: DeclRef, i: int| #[trigger] res@.contains_key(d) && 0 <= i < res@[d].len() implies outcome_ok(
        #[trigger] res@[d][i],
        names,
        after@.len() as int,
    ) by {
        assert(outcome_ok(res@[d][i], names, before@.len() as int));
    }
}

/// A name spelling the prefixed value of `inner` has `inner`'s name and
/// kind and the joined namespace.
proof fn lemma_prefixed_lookup(it: TypeNameInterner, prefix: NamespaceSym, inner: TypeNameSym, x: TypeNameSym)
    requires
        it.wf(),
        (prefix.0 as int) < it.spaces().len(),
        (inner.0 as int) < it@.len(),
        (x.0 as int) < it@.len(),
        name_value(it, x) == prefixed(scope_value(it, prefix), name_value(it, inner)),
    ensures
        ({
            let target = crate::interner::join_namespaces(it.spaces()[prefix.0 as int], it.spaces()[it@[inner.0 as int].0.0 as int]);
            &&& it@[x.0 as int].1 == it@[inner.0 as int].1
            &&& it@[x.0 as int].2 == it@[inner.0 as int].2
            &&& it.spaces()[it@[x.0 as int].0.0 as int] == target
        }),
{
    it.lemma_wf_facts();
    let ex = it@[x.0 as int];
    let ei = it@[inner.0 as int];
    assert(it.valid_entry(ex));
    assert(it.valid_entry(ei));
    let (px, ax) = it.spaces()[ex.0.0 as int];
    let (pi, ai) = it.spaces()[ei.0.0 as int];
    let (pp, ap) = it.spaces()[prefix.0 as int];
    assert(it.valid_path(px));
    assert(it.valid_path(pi));
    assert(it.valid_path(pp));
    if it.syms()[ex.1.0 as int] == it.syms()[ei.1.0 as int] && ex.1 != ei.1 {
        assert(false);
    }
    if ai {
        crate::env::insert::lemma_same_texts_same_path(it.syms(), px, pi);
    } else {
        assert(path_texts_of_syms(it.syms(), pp + pi) =~= path_texts_of_syms(it.syms(), pp) + path_texts_of_syms(it.syms(), pi));
        assert forall|j: int| 0 <= j < (pp + pi).len() implies (#[trigger] (pp + pi)[j].0 as int) < it.syms().len() by {
            if j < pp.len() {
                assert((pp + pi)[j] == pp[j]);
            } else {
                assert((pp + pi)[j] == pi[j - pp.len()]);
            }
        }
        crate::env::insert::lemma_same_texts_same_path(it.syms(), px, pp + pi);
    }
}

/// The use map's rewrite of `tn`, read in a longer interner, is the same.
proof fn lemma_rewrite_target_stable(m: Map<u32, u32>, it: TypeNameInterner, it2: TypeNameInterner, tn: TypeNameSym)
    requires
        it.wf(),
        it2.extends(&it),
        (tn.0 as int) < it@.len(),
        forall|k: u32| #[trigger] m.contains_key(k) ==> (m[k] as int) < it@.len(),
    ensures
        rewrite_target(m, it2, tn) == rewrite_target(m, it, tn),
{
    it.lemma_wf_facts();
    let e = it@[tn.0 as int];
    assert(it2@[tn.0 as int] == e);
    assert(it.valid_entry(e));
    assert(it2.spaces()[e.0.0 as int] == it.spaces()[e.0.0 as int]);
    let (path, abs) = it.spaces()[e.0.0 as int];
    if !abs && path.len() > 0 && m.contains_key(path[0].0) {
        let t = m[path[0].0] as int;
        assert(it2@[t] == it@[t]);
        assert(it.valid_entry(it@[t]));
        assert(it2.spaces()[it@[t].0.0 as int] == it.spaces()[it@[t].0.0 as int]);
    }
}

/// What the use map gave for `raw` is its rewrite in the interner after
/// the call, and that rewrite is interned there.
proof fn lemma_mapped(m: Map<u32, u32>, before: TypeNameInterner, after: TypeNameInterner, raw: TypeNameSym, mapped: TypeNameSym)
    requires
        before.wf(),
        after.wf(),
        after.extends(&before),
        (raw.0 as int) < before@.len(),
        forall|k: u32| #[trigger] m.contains_key(k) ==> (m[k] as int) < before@.len(),
        ({
            let (ns, name, kind) = before@[raw.0 as int];
            let (path, abs) = before.spaces()[ns.0 as int];
            if abs {
                mapped == raw && after == before
            } else if path.len() == 0 {
                after == before && mapped == (if m.contains_key(name.0) {
                    TypeNameSym(m[name.0])
                } else {
                    raw
                })
            } else {
                match rewrite_target(m, before, raw) {
                    None => mapped == raw && after == before,
                    Some((new_path, n, k)) => (mapped.0 as int) < after@.len() && after@[mapped.0 as int].1 == n
                        && after@[mapped.0 as int].2 == k && after.spaces()[after@[mapped.0 as int].0.0 as int] == (new_path, true),
                }
            }
        }),
    ensures
        mapped == mapped_at(m, after, raw),
        mapped_ready(m, after, raw),
{
    before.lemma_wf_facts();
    after.lemma_wf_facts();
    assert(after@[raw.0 as int] == before@[raw.0 as int]);
    assert(before.valid_entry(before@[raw.0 as int]));
    let (ns, name, kind) = before@[raw.0 as int];
    assert(after.spaces()[ns.0 as int] == before.spaces()[ns.0 as int]);
    lemma_rewrite_target_stable(m, before, after, raw);
    let (path, abs) = before.spaces()[ns.0 as int];
    if !abs && path.len() > 0 {
        match rewrite_target(m, before, raw) {
            None => {},
            Some((new_path, n, k)) => {
                let e = after@[mapped.0 as int];
                assert(after.valid_entry(e));
                after.lemma_namespace_id(e.0);
                assert(e == (e.0, n, k));
                after.lemma_type_name_id(mapped);
            },
        }
    }
}

/// The numbers of an occurrence's values, read in a later interner, are
/// the numbers it was recorded with.
proof fn lemma_occurrence_numbers(before: TypeNameInterner, after: TypeNameInterner, raw: TypeNameSym, ctx: Seq<TypeNameSym>)
    requires
        before.wf(),
        after.wf(),
        after.extends(&before),
        (raw.0 as int) < before@.len(),
        valid_context(before, ctx),
    ensures
        value_interned(after, name_value(before, raw)),
        value_number(after, name_value(before, raw)) == raw,
        forall|i: int| 0 <= i < ctx.len() ==> value_interned(after, #[trigger] context_value(before, ctx)[i]),
        context_value(before, ctx).map_values(|v: NameValue| value_number(after, v)) == ctx,
{
    after.lemma_value_stable(&before, raw);
    lemma_number_of_value(after, raw);
    assert forall|i: int| 0 <= i < ctx.len() implies value_interned(after, #[trigger] context_value(before, ctx)[i])
        && value_number(after, context_value(before, ctx)[i]) == ctx[i] by {
        assert((ctx[i].0 as int) < before@.len());
        after.lemma_value_stable(&before, ctx[i]);
        lemma_number_of_value(after, ctx[i]);
    }
    assert(context_value(before, ctx).map_values(|v: NameValue| value_number(after, v)) =~= ctx);
}

/// An interned name is the number of its own value.
proof fn lemma_number_of_value(it: TypeNameInterner, t: TypeNameSym)
    requires
        it.wf(),
        (t.0 as int) < it@.len(),
    ensures
        value_interned(it, name_value(it, t)),
        value_number(it, name_value(it, t)) == t,
{
    let v = name_value(it, t);
    assert((t.0 as int) < it@.len() && name_value(it, t) == v);
    let c = value_number(it, v);
    it.lemma_value_injective(c, t);
}

/// `absolute_type_name`: rewrite `raw` through the use map, resolve it in
/// `ctx`, and record the outcome for `decl_ref`.
fn record_type_name(
    raw: TypeNameSym,
    ctx: &Vec<TypeNameSym>,
    decl_ref: DeclRef,
    it: &mut TypeNameInterner,
    resolver: &TypeNameResolver,
    use_map: &UseMap,
    res: &mut Resolution,
    Ghost(names): Ghost<Set<u32>>,
    Ghost(start): Ghost<TypeNameInterner>,
)
    requires
        walk_ready(*old(it), resolver, use_map, old(res), names),
        (raw.0 as int) < old(it)@.len(),
        valid_context(*old(it), ctx@),
        old(it).used() + 2 < u32::MAX,
        old(res).total() + 1 < usize::MAX,
        start.wf(),
        old(it).extends(&start),
    ensures
        walk_ready(*final(it), resolver, use_map, final(res), names),
        final(it).extends(old(it)),
        grew_by_at_most(*final(it), *old(it), 2),
        final(res).total() == old(res).total() + 1,
        recorded_within(old(res)@, final(res)@, decl_ref.source_index, decl_ref.decl_index as int, decl_ref.decl_index + 1),
        walked(
            old(res)@,
            final(res)@,
            decl_ref,
            seq![(name_value(*old(it), raw), context_value(*old(it), ctx@))],
            decl_ref.source_index,
            0,
            0,
            Seq::empty(),
            use_map.aliases(),
            names,
            resolver.alias_map(),
            start,
            *final(it),
        ),
{
    let ghost it0 = *it;
    let mapped = use_map.resolve(raw, it);
    proof {
        lemma_mapped(use_map.aliases(), it0, *it, raw, mapped);
    }
    proof {
        assert(it0.spaces().is_prefix_of(it.spaces()));
        assert(it0@.is_prefix_of(it@));
        assert(it.used() <= it0.used() + 2);
        lemma_ready_grows(it0, *it, resolver, use_map, res, names);
        assert(valid_context(*it, ctx@)) by {
            assert forall|i: int| 0 <= i < ctx@.len() implies (#[trigger] ctx@[i].0 as int) < it@.len() by {
                assert((ctx@[i].0 as int) < it0@.len());
            }
        }
    }
    let resolved = resolver.resolve(mapped, ctx, it);
    proof {
        resolver.lemma_finite();
        lemma_resolve_declared(resolver.names(), resolver.alias_map(), *it, mapped, ctx@);
    }
    let entry = match resolved {
        Some(t) => ResolvedRef::Resolved(t),
        None => ResolvedRef::Unresolved(mapped),
    };
    let ghost r0 = res@;
    res.record(decl_ref, entry);
    proof {
        let occ = (name_value(it0, raw), context_value(it0, ctx@));
        lemma_occurrence_numbers(it0, *it, raw, ctx@);
        assert(entry == outcome_at(use_map.aliases(), names, resolver.alias_map(), *it, raw, ctx@));
        lemma_extends_trans(start, it0, *it);
        assert(outcome_in_state(entry, occ, use_map.aliases(), names, resolver.alias_map(), start, *it, *it));
        let prev = recorded(r0, decl_ref);
        assert(recorded(res@, decl_ref) =~= prev.push(entry));
        assert(recorded(res@, decl_ref).take(prev.len() as int) =~= prev);
        assert(recorded(res@, decl_ref).skip(prev.len() as int) =~= seq![entry]);
        assert(outcome_of(entry, occ, use_map.aliases(), names, resolver.alias_map(), start, *it));
        assert(outcomes_of(seq![entry], seq![occ], use_map.aliases(), names, resolver.alias_map(), start, *it));
    }
    proof {
        assert forall|d: DeclRef, i: int| #[trigger] res@.contains_key(d) && 0 <= i < res@[d].len() implies outcome_ok(
            #[trigger] res@[d][i],
            names,
            it@.len() as int,
        ) by {
            if d != decl_ref {
                assert(r0.contains_key(d) && res@[d] == r0[d]);
            } else if r0.contains_key(d) && i < r0[d].len() {
                assert(res@[d][i] == r0[d][i]);
            }
        }
    }
}

/// Record every reference of `refs` for `decl_ref`, in order.
fn walk_refs(
    refs: &Vec<TypeNameRef>,
    ctx: &Vec<TypeNameSym>,
    decl_ref: DeclRef,
    it: &mut TypeNameInterner,
    resolver: &TypeNameResolver,
    use_map: &UseMap,
    res: &mut Resolution,
    Ghost(names): Ghost<Set<u32>>,
    Ghost(start): Ghost<TypeNameInterner>,
)
    requires
        start.wf(),
        old(it).extends(&start),
        walk_ready(*old(it), resolver, use_map, old(res), names),
        valid_context(*old(it), ctx@),
        old(it).used() + 2 * refs_cost(refs@) < u32::MAX,
        old(res).total() + refs_cost(refs@) < usize::MAX,
    ensures
        walk_ready(*final(it), resolver, use_map, final(res), names),
        final(it).extends(old(it)),
        grew_by_at_most(*final(it), *old(it), (2 * refs_cost(refs@)) as int),
        final(res).total() <= old(res).total() + refs_cost(refs@),
        recorded_within(old(res)@, final(res)@, decl_ref.source_index, decl_ref.decl_index as int, decl_ref.decl_index + 1),
        walked(
            old(res)@,
            final(res)@,
            decl_ref,
            refs_occ(refs@, context_value(*old(it), ctx@)),
            decl_ref.source_index,
            0,
            0,
            Seq::empty(),
            use_map.aliases(),
            names,
            resolver.alias_map(),
            start,
            *final(it),
        ),
{
    let ghost it0 = *it;
    let ghost r0 = res@;
    let ghost t0 = res.total();
    let ghost cv = context_value(it0, ctx@);
    let ghost m = use_map.aliases();
    let ghost aliases = resolver.alias_map();
    let mut i: usize = 0;
    proof {
        assert(refs@.take(0) =~= Seq::<TypeNameRef>::empty());
        assert(refs_occ(refs@.take(0), cv) =~= Seq::<Occurrence>::empty());
        lemma_walked_none(r0, decl_ref, decl_ref.source_index, 0, m, names, aliases, start, it0);
    }
    while i < refs.len()
        invariant
            walk_ready(*it, resolver, use_map, res, names),
            it.extends(&it0),
            it0 == *old(it),
            start.wf(),
            it0.extends(&start),
            r0 == old(res)@,
            t0 == old(res).total(),
            valid_context(it0, ctx@),
            it0.used() + 2 * refs_cost(refs@) < u32::MAX,
            t0 + refs_cost(refs@) < usize::MAX,
            i <= refs@.len(),
            grew_by_at_most(*it, it0, (2 * refs_cost(refs@.take(i as int))) as int),
            res.total() <= t0 + refs_cost(refs@.take(i as int)),
            recorded_within(r0, res@, decl_ref.source_index, decl_ref.decl_index as int, decl_ref.decl_index + 1),
            cv == context_value(it0, ctx@),
            it0.wf(),
            m == use_map.aliases(),
            aliases == resolver.alias_map(),
            walked(r0, res@, decl_ref, refs_occ(refs@.take(i as int), cv), decl_ref.source_index, 0, 0, Seq::empty(), m, names, aliases, start, *it),
        decreases refs.len() - i,
    {
        proof {
            assert(refs@.take(i + 1).drop_last() =~= refs@.take(i as int));
            lemma_refs_cost_prefix_le(refs@, i + 1);
        }
        let ghost ia = *it;
        let raw = intern_type_name_ref(it, &refs[i]);
        proof {
            lemma_ready_grows(ia, *it, resolver, use_map, res, names);
            lemma_extends_trans(it0, ia, *it);
            assert(valid_context(*it, ctx@)) by {
                assert forall|k: int| 0 <= k < ctx@.len() implies (#[trigger] ctx@[k].0 as int) < it@.len() by {
                    assert((ctx@[k].0 as int) < it0@.len());
                    assert(it0@.is_prefix_of(it@));
                }
            }
        }
        let ghost ib = *it;
        let ghost rb = res@;
        proof {
            lemma_walked_later(r0, rb, decl_ref, refs_occ(refs@.take(i as int), cv), decl_ref.source_index, 0, 0,
                Seq::empty(), m, names, aliases, start, ia, ib);
        }
        proof {
            lemma_extends_trans(start, it0, *it);
        }
        record_type_name(raw, ctx, decl_ref, it, resolver, use_map, res, Ghost(names), Ghost(start));
        proof {
            lemma_extends_trans(it0, ib, *it);
            lemma_context_value_stable(ib, it0, ctx@);
            let occ = (name_value(ib, raw), context_value(ib, ctx@));
            assert(occ == (ref_value(refs@[i as int]), cv));
            assert(refs_occ(refs@.take(i + 1), cv) =~= refs_occ(refs@.take(i as int), cv) + seq![occ]);
            assert(Seq::<(Decl, Seq<NameValue>)>::empty() + Seq::<(Decl, Seq<NameValue>)>::empty() =~= Seq::<(Decl, Seq<NameValue>)>::empty());
            lemma_walked_trans(r0, rb, res@, decl_ref, refs_occ(refs@.take(i as int), cv), seq![occ], decl_ref.source_index, 0, 0, 0,
                Seq::empty(), Seq::empty(), m, names, aliases, start, ib, *it);
        }
        i = i + 1;
    }
    proof {
        assert(refs@.take(refs@.len() as int) =~= refs@);
    }
}

proof fn lemma_refs_cost_prefix_le(rs: Seq<TypeNameRef>, n: int)
    requires
        0 <= n <= rs.len(),
    ensures
        refs_cost(rs.take(n)) <= refs_cost(rs),
    decreases rs.len() - n,
{
    if n < rs.len() {
        lemma_refs_cost_prefix_le(rs, n + 1);
        assert(rs.take(n + 1).drop_last() =~= rs.take(n));
    } else {
        assert(rs.take(n) =~= rs);
    }
}

proof fn lemma_context_grows(before: TypeNameInterner, after: TypeNameInterner, ctx: Seq<TypeNameSym>)
    requires
        valid_context(before, ctx),
        after.extends(&before),
    ensures
        valid_context(after, ctx),
{
    assert forall|k: int| 0 <= k < ctx.len() implies (#[trigger] ctx[k].0 as int) < after@.len() by {
        assert((ctx[k].0 as int) < before@.len());
        assert(before@.is_prefix_of(after@));
    }
}

fn copy_scopes(v: &Vec<TypeNameSym>) -> (r: Vec<TypeNameSym>)
    ensures
        r@ == v@,
{
    let mut r: Vec<TypeNameSym> = Vec::new();
    let mut i: usize = 0;
    while i < v.len()
        invariant
            i <= v@.len(),
            r@ == v@.take(i as int),
        decreases v.len() - i,
    {
        r.push(v[i]);
        proof {
            assert(v@.take(i + 1) =~= v@.take(i as int).push(v@[i as int]));
        }
        i = i + 1;
    }
    proof {
        assert(v@.take(v@.len() as int) =~= v@);
    }
    r
}

/// `decl.name.with_prefix(prefix)` for a declaration found in scopes
/// `ctx`: under the innermost scope's namespace, or the absolute root.
fn full_decl_name(name: &TypeNameRef, ctx: &Vec<TypeNameSym>, it: &mut TypeNameInterner) -> (full: TypeNameSym)
    requires
        old(it).wf(),
        valid_context(*old(it), ctx@),
        old(it).used() + ref_cost(*name) + 3 < u32::MAX,
    ensures
        final(it).wf(),
        final(it).extends(old(it)),
        grew_by_at_most(*final(it), *old(it), (ref_cost(*name) + 3) as int),
        (full.0 as int) < final(it)@.len(),
        name_value(*final(it), full) == full_value(context_value(*old(it), ctx@), *name),
{
    let ghost it0 = *it;
    let ghost cv = context_value(it0, ctx@);
    let prefix = if ctx.len() > 0 {
        let p = it.to_namespace(ctx[ctx.len() - 1]);
        proof {
            lemma_scope_of_value(it0, *it, ctx@[ctx@.len() - 1], p);
            assert(cv.last() == name_value(it0, ctx@[ctx@.len() - 1]));
        }
        p
    } else {
        let p = it.root_absolute();
        proof {
            assert(scope_value(*it, p) =~= (Seq::<Seq<char>>::empty(), true));
        }
        p
    };
    let ghost it1 = *it;
    proof {
        assert(scope_value(it1, prefix) == scope_for(cv));
    }
    let inner = intern_type_name_ref(it, name);
    proof {
        lemma_extends_trans(it0, it1, *it);
        assert(it1.spaces().is_prefix_of(it.spaces()));
        lemma_scope_value_stable(*it, it1, prefix);
    }
    let ghost it2 = *it;
    let full = it.with_prefix(prefix, inner);
    proof {
        lemma_extends_trans(it0, it2, *it);
        lemma_prefixed_value(it2, *it, prefix, inner, full);
    }
    full
}

/// `resolve_declaration`: number declaration `d`, then record the
/// occurrences it mentions (nested declarations get their own numbers).
fn walk_declaration(
    d: &Decl,
    ctx: &Vec<TypeNameSym>,
    src: u32,
    counter: &mut u32,
    it: &mut TypeNameInterner,
    resolver: &TypeNameResolver,
    use_map: &UseMap,
    res: &mut Resolution,
    Ghost(names): Ghost<Set<u32>>,
    Ghost(start): Ghost<TypeNameInterner>,
)
    requires
        start.wf(),
        old(it).extends(&start),
        walk_ready(*old(it), resolver, use_map, old(res), names),
        valid_context(*old(it), ctx@),
        old(it).used() + 2 * decl_cost(*d) < u32::MAX,
        old(res).total() + decl_cost(*d) < usize::MAX,
        *old(counter) + decl_cost(*d) < u32::MAX,
        forall|k: DeclRef| #[trigger] old(res)@.contains_key(k) && k.source_index == src ==> k.decl_index < *old(counter),
    ensures
        walk_ready(*final(it), resolver, use_map, final(res), names),
        final(it).extends(old(it)),
        grew_by_at_most(*final(it), *old(it), (2 * decl_cost(*d)) as int),
        final(res).total() <= old(res).total() + decl_cost(*d),
        *final(counter) == *old(counter) + decl_count(*d),
        recorded_within(old(res)@, final(res)@, src, *old(counter) as int, *final(counter) as int),
        walked(
            old(res)@,
            final(res)@,
            dref(src, *old(counter)),
            own_occ(*d, context_value(*old(it), ctx@)),
            src,
            *old(counter) + 1,
            *final(counter) as int,
            decl_tree(*d, context_value(*old(it), ctx@)).drop_first(),
            use_map.aliases(),
            names,
            resolver.alias_map(),
            start,
            *final(it),
        ),
        forall|k: DeclRef| #[trigger] final(res)@.contains_key(k) && k.source_index == src ==> k.decl_index < *final(counter),
    decreases *d,
{
    proof {
        lemma_decl_count_le_cost(*d);
    }
    let ghost it0 = *it;
    let ghost r0 = res@;
    let ghost c0 = *counter;
    let ghost cv = context_value(it0, ctx@);
    let ghost m = use_map.aliases();
    let ghost aliases = resolver.alias_map();
    let decl_ref = DeclRef { source_index: src, decl_index: *counter };
    *counter = *counter + 1;
    proof {
        assert(decl_ref == dref(src, c0));
        assert(!r0.contains_key(decl_ref));
        lemma_decl_tree_len(*d, cv);
    }
    match d {
        Decl::Global { name, refs } => {
            let empty: Vec<TypeNameSym> = Vec::new();
            proof {
                lemma_extends_trans(start, it0, *it);
                assert(context_value(it0, empty@) =~= Seq::<NameValue>::empty());
            }
            walk_refs(refs, &empty, decl_ref, it, resolver, use_map, res, Ghost(names), Ghost(start));
            proof {
                lemma_walked_rebase(r0, res@, decl_ref, own_occ(*d, cv), src, 0, c0 + 1, m, names, aliases, start, *it);
                assert(decl_tree(*d, cv).drop_first() =~= Seq::<(Decl, Seq<NameValue>)>::empty());
            }
        },
        Decl::Class { name, params, super_refs, members } => {
            let full = full_decl_name(name, ctx, it);
            proof {
                lemma_ready_grows(it0, *it, resolver, use_map, res, names);
                lemma_context_grows(it0, *it, ctx@);
            }
            let mut inner = copy_scopes(ctx);
            inner.push(full);
            let ghost it1 = *it;
            let ghost icv = inner_scopes(cv, *name);
            proof {
                assert(valid_context(*it, inner@));
                lemma_context_value_stable(it1, it0, ctx@);
                assert(context_value(it1, inner@) =~= context_value(it1, ctx@).push(name_value(it1, full)));
                assert(context_value(it1, inner@) == icv);
                lemma_extends_trans(start, it0, *it);
            }
            walk_refs(params, &inner, decl_ref, it, resolver, use_map, res, Ghost(names), Ghost(start));
            let ghost r1 = res@;
            proof {
                lemma_extends_trans(it0, it1, *it);
                lemma_context_grows(it0, *it, ctx@);
                lemma_context_grows(it1, *it, inner@);
                lemma_walked_rebase(r0, r1, decl_ref, refs_occ(params@, icv), src, 0, c0 + 1, m, names, aliases, start, *it);
            }
            let ghost it2 = *it;
            proof {
                lemma_extends_trans(start, it0, *it);
                lemma_context_value_stable(it2, it0, ctx@);
            }
            walk_refs(super_refs, ctx, decl_ref, it, resolver, use_map, res, Ghost(names), Ghost(start));
            let ghost r2 = res@;
            proof {
                lemma_extends_trans(it0, it2, *it);
                lemma_context_grows(it2, *it, inner@);
                lemma_walked_rebase(r1, r2, decl_ref, refs_occ(super_refs@, cv), src, 0, c0 + 1, m, names, aliases, start, *it);
                lemma_walked_later(r0, r1, decl_ref, refs_occ(params@, icv), src, c0 + 1, c0 + 1, Seq::empty(), m, names,
                    aliases, start, it2, *it);
                lemma_walked_trans(r0, r1, r2, decl_ref, refs_occ(params@, icv), refs_occ(super_refs@, cv), src, c0 + 1,
                    c0 + 1, c0 + 1, Seq::empty(), Seq::empty(), m, names, aliases, start, *it, *it);
                assert(Seq::<(Decl, Seq<NameValue>)>::empty() + Seq::<(Decl, Seq<NameValue>)>::empty()
                    =~= Seq::<(Decl, Seq<NameValue>)>::empty());
                lemma_walked_fresh(r0, r2, decl_ref, refs_occ(params@, icv) + refs_occ(super_refs@, cv), src, c0 + 1, c0 + 1,
                    Seq::empty(), m, names, aliases, start, *it);
            }
            let ghost it3 = *it;
            proof {
                lemma_extends_trans(start, it0, *it);
                lemma_context_value_stable(it3, it1, inner@);
            }
            walk_members(members, &inner, decl_ref, src, counter, it, resolver, use_map, res, Ghost(names), Ghost(start));
            proof {
                lemma_extends_trans(it0, it3, *it);
                lemma_walked_later(r0, r2, decl_ref, refs_occ(params@, icv) + refs_occ(super_refs@, cv), src, c0 + 1, c0 + 1,
                    Seq::empty(), m, names, aliases, start, it3, *it);
                lemma_walked_trans(r0, r2, res@, decl_ref, refs_occ(params@, icv) + refs_occ(super_refs@, cv),
                    members_occ(members@, icv), src, c0 + 1, c0 + 1, *counter as int, Seq::empty(), members_tree(members@, icv), m,
                    names, aliases, start, *it, *it);
                assert(Seq::<(Decl, Seq<NameValue>)>::empty() + members_tree(members@, icv) =~= decl_tree(*d, cv).drop_first());
            }
        },
        Decl::Module { name, params, members } => {
            let full = full_decl_name(name, ctx, it);
            proof {
                lemma_ready_grows(it0, *it, resolver, use_map, res, names);
                lemma_context_grows(it0, *it, ctx@);
            }
            let mut inner = copy_scopes(ctx);
            inner.push(full);
            let ghost it1 = *it;
            let ghost icv = inner_scopes(cv, *name);
            proof {
                assert(valid_context(*it, inner@));
                lemma_context_value_stable(it1, it0, ctx@);
                assert(context_value(it1, inner@) =~= context_value(it1, ctx@).push(name_value(it1, full)));
                lemma_extends_trans(start, it0, *it);
            }
            walk_refs(params, &inner, decl_ref, it, resolver, use_map, res, Ghost(names), Ghost(start));
            let ghost r1 = res@;
            proof {
                lemma_extends_trans(it0, it1, *it);
                lemma_context_grows(it1, *it, inner@);
                lemma_walked_rebase(r0, r1, decl_ref, refs_occ(params@, icv), src, 0, c0 + 1, m, names, aliases, start, *it);
                lemma_walked_fresh(r0, r1, decl_ref, refs_occ(params@, icv), src, c0 + 1, c0 + 1, Seq::empty(), m, names,
                    aliases, start, *it);
            }
            let ghost it3 = *it;
            proof {
                lemma_extends_trans(start, it0, *it);
                lemma_context_value_stable(it3, it1, inner@);
            }
            walk_members(members, &inner, decl_ref, src, counter, it, resolver, use_map, res, Ghost(names), Ghost(start));
            proof {
                lemma_extends_trans(it0, it3, *it);
                lemma_walked_later(r0, r1, decl_ref, refs_occ(params@, icv), src, c0 + 1, c0 + 1, Seq::empty(), m, names,
                    aliases, start, it3, *it);
                lemma_walked_trans(r0, r1, res@, decl_ref, refs_occ(params@, icv), members_occ(members@, icv), src, c0 + 1,
                    c0 + 1, *counter as int, Seq::empty(), members_tree(members@, icv), m, names, aliases, start, *it, *it);
                assert(Seq::<(Decl, Seq<NameValue>)>::empty() + members_tree(members@, icv) =~= decl_tree(*d, cv).drop_first());
            }
        },
        Decl::Interface { name, refs } => {
            proof {
                lemma_extends_trans(start, it0, *it);
            }
            walk_refs(refs, ctx, decl_ref, it, resolver, use_map, res, Ghost(names), Ghost(start));
            proof {
                lemma_walked_rebase(r0, res@, decl_ref, own_occ(*d, cv), src, 0, c0 + 1, m, names, aliases, start, *it);
                assert(decl_tree(*d, cv).drop_first() =~= Seq::<(Decl, Seq<NameValue>)>::empty());
            }
        },
        Decl::TypeAlias { name, refs } => {
            proof {
                lemma_extends_trans(start, it0, *it);
            }
            walk_refs(refs, ctx, decl_ref, it, resolver, use_map, res, Ghost(names), Ghost(start));
            proof {
                lemma_walked_rebase(r0, res@, decl_ref, own_occ(*d, cv), src, 0, c0 + 1, m, names, aliases, start, *it);
                assert(decl_tree(*d, cv).drop_first() =~= Seq::<(Decl, Seq<NameValue>)>::empty());
            }
        },
        Decl::Constant { name, refs } => {
            proof {
                lemma_extends_trans(start, it0, *it);
            }
            walk_refs(refs, ctx, decl_ref, it, resolver, use_map, res, Ghost(names), Ghost(start));
            proof {
                lemma_walked_rebase(r0, res@, decl_ref, own_occ(*d, cv), src, 0, c0 + 1, m, names, aliases, start, *it);
                assert(decl_tree(*d, cv).drop_first() =~= Seq::<(Decl, Seq<NameValue>)>::empty());
            }
        },
        Decl::ClassAlias { new_name, old_name } => {
            let raw = intern_type_name_ref(it, old_name);
            proof {
                lemma_ready_grows(it0, *it, resolver, use_map, res, names);
                lemma_context_grows(it0, *it, ctx@);
            }
            let ghost it1 = *it;
            proof {
                lemma_extends_trans(start, it0, *it);
                lemma_context_value_stable(it1, it0, ctx@);
            }
            record_type_name(raw, ctx, decl_ref, it, resolver, use_map, res, Ghost(names), Ghost(start));
            proof {
                lemma_extends_trans(it0, it1, *it);
                lemma_walked_rebase(r0, res@, decl_ref, own_occ(*d, cv), src, 0, c0 + 1, m, names, aliases, start, *it);
                assert(decl_tree(*d, cv).drop_first() =~= Seq::<(Decl, Seq<NameValue>)>::empty());
            }
        },
        Decl::ModuleAlias { new_name, old_name } => {
            let raw = intern_type_name_ref(it, old_name);
            proof {
                lemma_ready_grows(it0, *it, resolver, use_map, res, names);
                lemma_context_grows(it0, *it, ctx@);
            }
            let ghost it1 = *it;
            proof {
                lemma_extends_trans(start, it0, *it);
                lemma_context_value_stable(it1, it0, ctx@);
            }
            record_type_name(raw, ctx, decl_ref, it, resolver, use_map, res, Ghost(names), Ghost(start));
            proof {
                lemma_extends_trans(it0, it1, *it);
                lemma_walked_rebase(r0, res@, decl_ref, own_occ(*d, cv), src, 0, c0 + 1, m, names, aliases, start, *it);
                assert(decl_tree(*d, cv).drop_first() =~= Seq::<(Decl, Seq<NameValue>)>::empty());
            }
        },
    }
    proof {
        lemma_walked_fresh(r0, res@, decl_ref, own_occ(*d, cv), src, c0 + 1, *counter as int, decl_tree(*d, cv).drop_first(), m,
            names, aliases, start, *it);
    }
}

/// Walk a class or module body: nested declarations get their own
/// numbers; members' occurrences are recorded for `owner`.
fn walk_members(
    members: &Vec<Member>,
    ctx: &Vec<TypeNameSym>,
    owner: DeclRef,
    src: u32,
    counter: &mut u32,
    it: &mut TypeNameInterner,
    resolver: &TypeNameResolver,
    use_map: &UseMap,
    res: &mut Resolution,
    Ghost(names): Ghost<Set<u32>>,
    Ghost(start): Ghost<TypeNameInterner>,
)
    requires
        start.wf(),
        old(it).extends(&start),
        walk_ready(*old(it), resolver, use_map, old(res), names),
        valid_context(*old(it), ctx@),
        owner.source_index == src,
        owner.decl_index < *old(counter),
        old(it).used() + 2 * members_cost(members@) < u32::MAX,
        old(res).total() + members_cost(members@) < usize::MAX,
        *old(counter) + members_cost(members@) < u32::MAX,
        forall|k: DeclRef| #[trigger] old(res)@.contains_key(k) && k.source_index == src ==> k.decl_index < *old(counter),
    ensures
        walk_ready(*final(it), resolver, use_map, final(res), names),
        final(it).extends(old(it)),
        grew_by_at_most(*final(it), *old(it), (2 * members_cost(members@)) as int),
        final(res).total() <= old(res).total() + members_cost(members@),
        *final(counter) == *old(counter) + members_count(members@),
        recorded_within(old(res)@, final(res)@, src, owner.decl_index as int, *final(counter) as int),
        walked(
            old(res)@,
            final(res)@,
            owner,
            members_occ(members@, context_value(*old(it), ctx@)),
            src,
            *old(counter) as int,
            *final(counter) as int,
            members_tree(members@, context_value(*old(it), ctx@)),
            use_map.aliases(),
            names,
            resolver.alias_map(),
            start,
            *final(it),
        ),
        forall|k: DeclRef| #[trigger] final(res)@.contains_key(k) && k.source_index == src ==> k.decl_index < *final(counter),
    decreases members@,
{
    let ghost it0 = *it;
    let ghost r0 = res@;
    let ghost t0 = res.total();
    let ghost c0 = *counter;
    let ghost cv = context_value(it0, ctx@);
    let ghost m = use_map.aliases();
    let ghost aliases = resolver.alias_map();
    let mut i: usize = 0;
    proof {
        assert(members@.take(0) =~= Seq::<Member>::empty());
        assert(members_occ(members@.take(0), cv) =~= Seq::<Occurrence>::empty());
        assert(members_tree(members@.take(0), cv) =~= Seq::<(Decl, Seq<NameValue>)>::empty());
        lemma_walked_none(r0, owner, src, c0 as int, m, names, aliases, start, it0);
    }
    while i < members.len()
        invariant
            walk_ready(*it, resolver, use_map, res, names),
            it.extends(&it0),
            it0 == *old(it),
            start.wf(),
            it0.extends(&start),
            it0.wf(),
            r0 == old(res)@,
            t0 == old(res).total(),
            c0 == *old(counter),
            owner.source_index == src,
            owner.decl_index < c0,
            valid_context(it0, ctx@),
            it0.used() + 2 * members_cost(members@) < u32::MAX,
            t0 + members_cost(members@) < usize::MAX,
            c0 + members_cost(members@) < u32::MAX,
            i <= members@.len(),
            grew_by_at_most(*it, it0, (2 * members_cost(members@.take(i as int))) as int),
            res.total() <= t0 + members_cost(members@.take(i as int)),
            *counter == c0 + members_count(members@.take(i as int)),
            recorded_within(r0, res@, src, owner.decl_index as int, *counter as int),
            cv == context_value(it0, ctx@),
            m == use_map.aliases(),
            aliases == resolver.alias_map(),
            walked(r0, res@, owner, members_occ(members@.take(i as int), cv), src, c0 as int, *counter as int,
                members_tree(members@.take(i as int), cv), m, names, aliases, start, *it),
            forall|k: DeclRef| #[trigger] res@.contains_key(k) && k.source_index == src ==> k.decl_index < *counter,
        decreases members.len() - i,
    {
        proof {
            assert(members@.take(i + 1).drop_last() =~= members@.take(i as int));
            lemma_members_prefix(members@, i + 1);
            crate::signature::lemma_members_count_le_cost(members@.take(i as int));
            lemma_context_grows(it0, *it, ctx@);
            lemma_context_value_stable(*it, it0, ctx@);
            assert(members@.take(i + 1).last() == members@[i as int]);
        }
        let ghost ia = *it;
        let ghost ra = res@;
        let ghost ca = *counter;
        match &members[i] {
            Member::Decl(nd) => {
                proof {
                    lemma_extends_trans(start, it0, *it);
                }
                walk_declaration(nd, ctx, src, counter, it, resolver, use_map, res, Ghost(names), Ghost(start));
                proof {
                    lemma_walked_nest(ra, res@, owner, *nd, cv, src, ca, *counter as int, decl_tree(*nd, cv).drop_first(), m,
                        names, aliases, start, *it);
                    assert(seq![(*nd, cv)] + decl_tree(*nd, cv).drop_first() =~= decl_tree(*nd, cv));
                    lemma_walked_later(r0, ra, owner, members_occ(members@.take(i as int), cv), src, c0 as int, ca as int,
                        members_tree(members@.take(i as int), cv), m, names, aliases, start, ia, *it);
                    lemma_extends_trans(it0, ia, *it);
                    lemma_walked_trans(r0, ra, res@, owner, members_occ(members@.take(i as int), cv), Seq::empty(), src,
                        c0 as int, ca as int, *counter as int, members_tree(members@.take(i as int), cv), decl_tree(*nd, cv), m,
                        names, aliases, start, *it, *it);
                    assert(members_occ(members@.take(i as int), cv) + Seq::<Occurrence>::empty()
                        =~= members_occ(members@.take(i + 1), cv));
                }
            },
            Member::Refs(rs) => {
                proof {
                    lemma_extends_trans(start, it0, *it);
                }
                walk_refs(rs, ctx, owner, it, resolver, use_map, res, Ghost(names), Ghost(start));
                proof {
                    lemma_walked_rebase(ra, res@, owner, refs_occ(rs@, cv), src, 0, ca as int, m, names, aliases, start, *it);
                    lemma_walked_later(r0, ra, owner, members_occ(members@.take(i as int), cv), src, c0 as int, ca as int,
                        members_tree(members@.take(i as int), cv), m, names, aliases, start, ia, *it);
                    lemma_extends_trans(it0, ia, *it);
                    lemma_walked_trans(r0, ra, res@, owner, members_occ(members@.take(i as int), cv), refs_occ(rs@, cv), src,
                        c0 as int, ca as int, ca as int, members_tree(members@.take(i as int), cv), Seq::empty(), m, names,
                        aliases, start, *it, *it);
                    assert(members_tree(members@.take(i as int), cv) + Seq::<(Decl, Seq<NameValue>)>::empty()
                        =~= members_tree(members@.take(i + 1), cv));
                    lemma_walked_fresh(ra, res@, owner, refs_occ(rs@, cv), src, ca as int, ca as int, Seq::empty(), m, names,
                        aliases, start, *it);
                }
            },
        }
        proof {
            lemma_extends_trans(it0, ia, *it);
        }
        i = i + 1;
    }
    proof {
        assert(members@.take(members@.len() as int) =~= members@);
    }
}

proof fn lemma_members_prefix(ms: Seq<Member>, n: int)
    requires
        0 <= n <= ms.len(),
    ensures
        members_cost(ms.take(n)) <= members_cost(ms),
        members_count(ms.take(n)) <= members_count(ms),
    decreases ms.len() - n,
{
    if n < ms.len() {
        lemma_members_prefix(ms, n + 1);
        assert(ms.take(n + 1).drop_last() =~= ms.take(n));
    } else {
        assert(ms.take(n) =~= ms);
    }
}

/// Advance `counter` past declaration `d` and every declaration nested
/// in it, as walking it would.
pub fn consume_decl_ref(d: &Decl, counter: &mut u32)
    requires
        *old(counter) + decl_count(*d) <= u32::MAX,
    ensures
        *final(counter) == *old(counter) + decl_count(*d),
    decreases *d,
{
    *counter = *counter + 1;
    match d {
        Decl::Class { members, .. } => consume_members(members, counter),
        Decl::Module { members, .. } => consume_members(members, counter),
        _ => {},
    }
}

fn consume_members(members: &Vec<Member>, counter: &mut u32)
    requires
        *old(counter) + members_count(members@) <= u32::MAX,
    ensures
        *final(counter) == *old(counter) + members_count(members@),
    decreases members@,
{
    let ghost c0 = *counter;
    let mut i: usize = 0;
    proof {
        assert(members@.take(0) =~= Seq::<Member>::empty());
    }
    while i < members.len()
        invariant
            c0 == *old(counter),
            c0 + members_count(members@) <= u32::MAX,
            i <= members@.len(),
            *counter == c0 + members_count(members@.take(i as int)),
        decreases members.len() - i,
    {
        proof {
            assert(members@.take(i + 1).drop_last() =~= members@.take(i as int));
            lemma_members_prefix(members@, i + 1);
        }
        match &members[i] {
            Member::Decl(nd) => consume_decl_ref(nd, counter),
            Member::Refs(_) => {},
        }
        i = i + 1;
    }
    proof {
        assert(members@.take(members@.len() as int) =~= members@);
    }
}

/// The declaration numbered `decl_ref.decl_index` in `source`, counting
/// its declarations, nested ones included, in pre-order from zero: the
/// numbering declaration references are made with.
pub fn lookup_decl<'a>(source: &'a Source, decl_ref: DeclRef) -> (r: Option<&'a Decl>)
    ensures
        ({
            let all = decls_preorder(source.signature.declarations@);
            match r {
                Some(d) => decl_ref.decl_index < all.len() && *d == all[decl_ref.decl_index as int],
                None => decl_ref.decl_index >= all.len(),
            }
        }),
{
    let decls = &source.signature.declarations;
    let mut rest: u32 = decl_ref.decl_index;
    let mut i: usize = 0;
    proof {
        assert(decls@.take(0) =~= Seq::<Decl>::empty());
    }
    while i < decls.len()
        invariant
            *decls == source.signature.declarations,
            i <= decls@.len(),
            decls_preorder(decls@.take(i as int)).len() <= decl_ref.decl_index,
            rest == decl_ref.decl_index - decls_preorder(decls@.take(i as int)).len(),
        decreases decls.len() - i,
    {
        let ghost before = decls_preorder(decls@.take(i as int));
        proof {
            assert(decls@.take(i + 1).drop_last() =~= decls@.take(i as int));
            assert(decls@.take(i + 1).last() == decls@[i as int]);
            lemma_decl_preorder_len(decls@[i as int]);
        }
        match find_in_decl(&decls[i], rest) {
            Ok(d) => {
                proof {
                    lemma_decls_preorder_prefix(decls@, i + 1);
                    let k = decl_ref.decl_index as int;
                    assert(decls_preorder(decls@.take(i + 1))[k] == decl_preorder(decls@[i as int])[rest as int]);
                }
                return Some(d);
            },
            Err(r) => {
                rest = r;
            },
        }
        i = i + 1;
    }
    proof {
        assert(decls@.take(decls@.len() as int) =~= decls@);
    }
    None
}

/// Find the declaration numbered `k` in `d`'s pre-order, or say how far
/// past `d`'s declarations `k` lies.
fn find_in_decl<'a>(d: &'a Decl, k: u32) -> (r: Result<&'a Decl, u32>)
    ensures
        match r {
            Ok(x) => k < decl_preorder(*d).len() && *x == decl_preorder(*d)[k as int],
            Err(rest) => k >= decl_preorder(*d).len() && rest == k - decl_preorder(*d).len(),
        },
    decreases *d,
{
    if k == 0 {
        return Ok(d);
    }
    match d {
        Decl::Class { members, .. } => match find_in_members(members, k - 1) {
            Ok(x) => Ok(x),
            Err(rest) => Err(rest),
        },
        Decl::Module { members, .. } => match find_in_members(members, k - 1) {
            Ok(x) => Ok(x),
            Err(rest) => Err(rest),
        },
        _ => Err(k - 1),
    }
}

fn find_in_members<'a>(members: &'a Vec<Member>, k: u32) -> (r: Result<&'a Decl, u32>)
    ensures
        match r {
            Ok(x) => k < members_preorder(members@).len() && *x == members_preorder(members@)[k as int],
            Err(rest) => k >= members_preorder(members@).len() && rest == k - members_preorder(members@).len(),
        },
    decreases members@,
{
    let mut rest: u32 = k;
    let mut i: usize = 0;
    proof {
        assert(members@.take(0) =~= Seq::<Member>::empty());
    }
    while i < members.len()
        invariant
            i <= members@.len(),
            members_preorder(members@.take(i as int)).len() <= k,
            rest == k - members_preorder(members@.take(i as int)).len(),
        decreases members.len() - i,
    {
        proof {
            assert(members@.take(i + 1).drop_last() =~= members@.take(i as int));
            assert(members@.take(i + 1).last() == members@[i as int]);
        }
        match &members[i] {
            Member::Decl(nd) => {
                match find_in_decl(nd, rest) {
                    Ok(x) => {
                        proof {
                            lemma_members_preorder_prefix(members@, i + 1);
                            assert(members_preorder(members@.take(i + 1))[k as int] == decl_preorder(*nd)[rest as int]);
                        }
                        return Ok(x);
                    },
                    Err(r) => {
                        rest = r;
                    },
                }
            },
            Member::Refs(_) => {},
        }
        i = i + 1;
    }
    proof {
        assert(members@.take(members@.len() as int) =~= members@);
    }
    Err(rest)
}

/// Whether top-level declaration `d`'s absolute name is interned and in
/// `only`; globals never are.
fn decl_matches_only(d: &Decl, only: &HashSet<u32>, it: &TypeNameInterner) -> (b: bool)
    requires
        it.wf(),
    ensures
        b == selected(*it, *d, only@),
{
    broadcast use vstd::std_specs::hash::group_hash_axioms;

    let name = match d {
        Decl::Class { name, .. } => name,
        Decl::Module { name, .. } => name,
        Decl::Interface { name, .. } => name,
        Decl::TypeAlias { name, .. } => name,
        Decl::Constant { name, .. } => name,
        Decl::ClassAlias { new_name, .. } => new_name,
        Decl::ModuleAlias { new_name, .. } => new_name,
        Decl::Global { .. } => return false,
    };
    proof {
        assert(decl_name_ref(*d) == Some(*name));
        it.lemma_wf_facts();
    }
    let inner = match find_type_name_ref(it, name) {
        Some(t) => t,
        None => return false,
    };
    let root = it.root_absolute();
    let ghost full_v = full_value(Seq::empty(), *name);
    proof {
        assert(scope_value(*it, root) =~= (Seq::<Seq<char>>::empty(), true));
        assert(it.extends(it));
    }
    match it.find_with_prefix(root, inner) {
        Some(full) => {
            proof {
                lemma_prefixed_value(*it, *it, root, inner, full);
                assert(name_value(*it, full) == full_v);
                lemma_number_of_value(*it, full);
            }
            only.contains(&full.0)
        },
        None => {
            proof {
                if value_interned(*it, full_v) {
                    let x = choose|x: TypeNameSym| (x.0 as int) < it@.len() && #[trigger] name_value(*it, x) == full_v;
                    lemma_prefixed_lookup(*it, root, inner, x);
                }
            }
            false
        },
    }
}

/// Every child the table lists is interned.
pub open spec fn table_ready(table: Table, it: TypeNameInterner) -> bool {
    forall|ns: u32| #[trigger] table.children_sets().contains_key(ns) ==> all_interned(table.children_sets()[ns], it)
}

proof fn lemma_table_grows(table: Table, before: TypeNameInterner, after: TypeNameInterner)
    requires
        table_ready(table, before),
        after.extends(&before),
    ensures
        table_ready(table, after),
{
    assert(before@.is_prefix_of(after@));
    assert forall|ns: u32| #[trigger] table.children_sets().contains_key(ns) implies all_interned(table.children_sets()[ns], after) by {
        assert forall|t: u32| #[trigger] table.children_sets()[ns].contains(t) implies (t as int) < after@.len() by {
            assert(all_interned(table.children_sets()[ns], before));
        }
    }
}

/// Apply one `# use` clause to the map.
fn apply_use_clause(c: &UseClause, map: &mut UseMap, it: &mut TypeNameInterner)
    requires
        old(it).wf(),
        old(map).valid_for(*old(it)),
        table_ready(old(map).table(), *old(it)),
        old(it).used() + uses_cost(seq![*c]) < u32::MAX,
    ensures
        final(it).wf(),
        final(it).extends(old(it)),
        grew_by_at_most(*final(it), *old(it), uses_cost(seq![*c]) as int),
        final(map).valid_for(*final(it)),
        final(map).table() == old(map).table(),
        clause_applied(old(map).aliases(), final(map).aliases(), *c, old(map).table().children_sets(), *final(it)),
{
    let ghost it0 = *it;
    proof {
        assert(seq![*c].drop_last() =~= Seq::<UseClause>::empty());
    }
    match c {
        UseClause::Single { target, new_name } => {
            let tn = intern_type_name_ref(it, target);
            let ghost it1 = *it;
            let nn: Option<Sym> = match new_name {
                Some(s) => Some(it.intern_symbol(s.as_str())),
                None => None,
            };
            proof {
                assert(it1.syms().is_prefix_of(it.syms()));
                lemma_extends_trans(it0, it1, *it);
                assert(it0@.is_prefix_of(it@));
                it.lemma_value_stable(&it1, tn);
                lemma_number_of_value(*it, tn);
                assert(it@[tn.0 as int] == it1@[tn.0 as int]);
                if let Some(n) = nn {
                    it.lemma_wf_facts();
                    let text = new_name->0@;
                    assert(it.syms()[n.0 as int] == text);
                    let k = it.syms().index_of(text);
                    if k != n.0 as int {
                        assert(it.syms()[k] == text);
                    }
                }
            }
            map.add_single(tn, nn, it);
        },
        UseClause::Wildcard { absolute, path } => {
            let mut segs: Vec<Sym> = Vec::new();
            let mut i: usize = 0;
            while i < path.len()
                invariant
                    it.wf(),
                    it.extends(&it0),
                    it.spaces() == it0.spaces(),
                    it@ == it0@,
                    it.syms().len() <= it0.syms().len() + i,
                    it0.used() + path@.len() + 1 < u32::MAX,
                    i <= path@.len(),
                    it.valid_path(segs@),
                    segs@.len() == i,
                    forall|j: int| 0 <= j < i ==> it.syms()[#[trigger] segs@[j].0 as int] == path@[j]@,
                decreases path.len() - i,
            {
                let ghost ia = *it;
                let sym = it.intern_symbol(path[i].as_str());
                proof {
                    assert(ia.syms().is_prefix_of(it.syms()));
                    assert(it0.syms().is_prefix_of(it.syms()));
                }
                segs.push(sym);
                proof {
                    assert forall|j: int| 0 <= j < i + 1 implies it.syms()[#[trigger] segs@[j].0 as int] == path@[j]@ by {
                        if j < i {
                            assert(segs@[j] == segs@.drop_last()[j]);
                        }
                    }
                }
                i = i + 1;
            }
            let ghost it1 = *it;
            let ns = it.intern_namespace(segs.as_slice(), *absolute);
            proof {
                assert(it1.spaces().is_prefix_of(it.spaces()));
                assert(it0.spaces().is_prefix_of(it.spaces()));
                assert(it0@.is_prefix_of(it@));
                assert(it0.syms().is_prefix_of(it.syms()));
                lemma_table_grows(map.table(), it0, *it);
            }
            let ghost m0 = map.aliases();
            proof {
                it.lemma_wf_facts();
                assert(it.syms() == it1.syms());
                assert forall|j: int| 0 <= j < path@.len() implies it.syms().contains(#[trigger] path@[j]@) by {
                    assert(it.syms()[segs@[j].0 as int] == path@[j]@);
                }
                assert(sym_path(*it, texts(path@)) =~= segs@) by {
                    assert forall|j: int| 0 <= j < segs@.len() implies sym_path(*it, texts(path@))[j] == segs@[j] by {
                        assert(texts(path@)[j] == path@[j]@);
                        let k = it.syms().index_of(path@[j]@);
                        assert(it.syms()[segs@[j].0 as int] == path@[j]@);
                        if k != segs@[j].0 as int {
                            assert(it.syms()[k] == path@[j]@);
                        }
                    }
                }
                it.lemma_namespace_id(ns);
            }
            map.add_wildcard(ns, it);
            proof {
                let kids = map.table().children_sets();
                assert forall|k: u32| #[trigger] map.aliases().contains_key(k) implies (map.aliases()[k] as int) < it@.len() by {
                    if kids.contains_key(ns.0) && crate::env::use_map::named_by(kids[ns.0], *it, k) {
                        assert(all_interned(kids[ns.0], *it));
                        assert(kids[ns.0].contains(map.aliases()[k]));
                    } else {
                        assert(m0.contains_key(k));
                        assert((m0[k] as int) < it0@.len());
                    }
                }
            }
        },
    }
}

proof fn lemma_uses_prefix(us: Seq<UseClause>, n: int)
    requires
        0 <= n < us.len(),
    ensures
        uses_cost(us.take(n + 1)) == uses_cost(us.take(n)) + uses_cost(seq![us[n]]),
        uses_cost(us.take(n + 1)) <= uses_cost(us),
    decreases us.len() - n,
{
    assert(us.take(n + 1).drop_last() =~= us.take(n));
    assert(us.take(n + 1).last() == us[n]);
    assert(seq![us[n]].drop_last() =~= Seq::<UseClause>::empty());
    assert(uses_cost(seq![us[n]].drop_last()) == 0);
    assert(seq![us[n]].last() == us[n]);
    if n + 1 < us.len() {
        lemma_uses_prefix(us, n + 1);
    } else {
        assert(us.take(n + 1) =~= us);
    }
}

proof fn lemma_decls_prefix(ds: Seq<Decl>, n: int)
    requires
        0 <= n <= ds.len(),
    ensures
        decls_cost(ds.take(n)) <= decls_cost(ds),
        decls_count(ds.take(n)) <= decls_cost(ds.take(n)),
    decreases ds.len() - n,
{
    lemma_decls_count_le(ds.take(n));
    if n < ds.len() {
        lemma_decls_prefix(ds, n + 1);
        assert(ds.take(n + 1).drop_last() =~= ds.take(n));
    } else {
        assert(ds.take(n) =~= ds);
    }
}

proof fn lemma_decls_count_le(ds: Seq<Decl>)
    ensures
        decls_count(ds) <= decls_cost(ds),
    decreases ds.len(),
{
    if ds.len() > 0 {
        lemma_decls_count_le(ds.drop_last());
        lemma_decl_count_le_cost(ds.last());
    }
}

/// One source's resolution: nothing when its first line switches
/// resolution off; otherwise build its use map and walk its
/// declarations, skipping (but still numbering) those `only` leaves out.
fn resolve_source(
    src: u32,
    source: &Source,
    it: &mut TypeNameInterner,
    resolver: &TypeNameResolver,
    table: &Table,
    res: &mut Resolution,
    only: Option<&HashSet<u32>>,
    Ghost(names): Ghost<Set<u32>>,
    Ghost(start): Ghost<TypeNameInterner>,
) -> (r: Ghost<(Map<u32, u32>, Seq<bool>)>)
    requires
        start.wf(),
        old(it).extends(&start),
        old(it).wf(),
        resolver.valid_for(*old(it)),
        resolver.names() == names,
        old(res).wf(),
        outcomes_ok(old(res)@, names, old(it)@.len() as int),
        table_ready(*table, *old(it)),
        old(it).used() + 2 * signature_cost(source.signature) < u32::MAX,
        old(res).total() + signature_cost(source.signature) < usize::MAX,
        forall|d: DeclRef| #[trigger] old(res)@.contains_key(d) ==> d.source_index != src,
    ensures
        final(it).wf(),
        final(it).extends(old(it)),
        grew_by_at_most(*final(it), *old(it), (2 * signature_cost(source.signature)) as int),
        resolver.valid_for(*final(it)),
        final(res).wf(),
        outcomes_ok(final(res)@, names, final(it)@.len() as int),
        final(res).total() <= old(res).total() + signature_cost(source.signature),
        recorded_within(old(res)@, final(res)@, src, 0, decls_count(source.signature.declarations@) as int),
        resolution_disabled(source.buffer.content@) ==> final(res)@ == old(res)@ && *final(it) == *old(it),
        !resolution_disabled(source.buffer.content@) ==> {
            let ds = source.signature.declarations@;
            &&& source_resolved(final(res)@, src, ds, r@.1, r@.0, names, resolver.alias_map(), start, *final(it))
            &&& uses_built(r@.0, source.signature.uses@, table.children_sets(), *final(it))
            &&& forall|i: int| 0 <= i < ds.len() && #[trigger] r@.1[i] ==> (only matches Some(o) && !selected(
                *old(it),
                ds[i],
                o@,
            ))
            &&& forall|i: int| 0 <= i < ds.len() && !#[trigger] r@.1[i] ==> (only matches Some(o) ==> selected(
                *final(it),
                ds[i],
                o@,
            ))
        },
        forall|d: DeclRef| d.source_index != src ==> #[trigger] final(res)@.contains_key(d) == old(res)@.contains_key(d)
            && recorded(final(res)@, d) == recorded(old(res)@, d),
{
    if is_type_name_resolution_disabled(source.buffer.content.as_str()) {
        return Ghost((Map::empty(), Seq::empty()));
    }
    let ghost it0 = *it;
    let ghost r0 = res@;
    let ghost t0 = res.total();
    let sig = &source.signature;
    let mut use_map = UseMap::new(table);
    let mut u: usize = 0;
    let ghost kids = table.children_sets();
    let ghost mut chain: Seq<Map<u32, u32>> = seq![Map::<u32, u32>::empty()];
    proof {
        assert(sig.uses@.take(0) =~= Seq::<UseClause>::empty());
        assert(uses_chain(chain, sig.uses@.take(0), kids, *it));
    }
    while u < sig.uses.len()
        invariant
            it.wf(),
            it.extends(&it0),
            it0 == *old(it),
            start.wf(),
            it0.extends(&start),
            use_map.valid_for(*it),
            use_map.table() == *table,
            table_ready(*table, it0),
            it0.used() + 2 * signature_cost(source.signature) < u32::MAX,
            *sig == source.signature,
            u <= sig.uses@.len(),
            grew_by_at_most(*it, it0, uses_cost(sig.uses@.take(u as int)) as int),
            kids == table.children_sets(),
            uses_chain(chain, sig.uses@.take(u as int), kids, *it),
            chain.last() == use_map.aliases(),
        decreases sig.uses.len() - u,
    {
        proof {
            lemma_uses_prefix(sig.uses@, u as int);
            lemma_table_grows(*table, it0, *it);
        }
        let ghost ia = *it;
        apply_use_clause(&sig.uses[u], &mut use_map, it);
        proof {
            lemma_extends_trans(it0, ia, *it);
            lemma_table_grows(*table, it0, ia);
            let pre = sig.uses@.take(u as int);
            let next = sig.uses@.take(u + 1);
            assert(kids_interned(kids, ia)) by {
                assert forall|ns: u32, t: u32| #[trigger] kids.contains_key(ns) && #[trigger] kids[ns].contains(t) implies (t as int) < ia@.len() by {
                    assert(all_interned(kids[ns], ia));
                }
            }
            assert forall|k: int| 0 <= k < pre.len() implies clause_applied(#[trigger] chain[k], chain[k + 1], pre[k], kids, *it) by {
                lemma_clause_applied_later(chain[k], chain[k + 1], pre[k], kids, ia, *it);
            }
            chain = chain.push(use_map.aliases());
            assert forall|k: int| 0 <= k < next.len() implies clause_applied(#[trigger] chain[k], chain[k + 1], next[k], kids, *it) by {
                if k < pre.len() {
                    assert(chain[k] == chain.drop_last()[k]);
                    assert(chain[k + 1] == chain.drop_last()[k + 1]);
                    assert(next[k] == pre[k]);
                } else {
                    assert(next[k] == sig.uses@[u as int]);
                }
            }
            assert(uses_chain(chain, next, kids, *it));
        }
        u = u + 1;
    }
    proof {
        assert(sig.uses@.take(sig.uses@.len() as int) =~= sig.uses@);
        lemma_ready_grows_no_map(it0, *it, resolver, res, names);
        assert(uses_built(use_map.aliases(), sig.uses@, kids, *it));
    }
    let ghost it1 = *it;
    let decls = &sig.declarations;
    let context: Vec<TypeNameSym> = Vec::new();
    let mut counter: u32 = 0;
    let mut i: usize = 0;
    let ghost m = use_map.aliases();
    let ghost aliases = resolver.alias_map();
    let ghost mut skipped: Seq<bool> = Seq::empty();
    proof {
        assert(decls@.take(0) =~= Seq::<Decl>::empty());
        lemma_source_resolved_empty(r0, src, m, names, aliases, start, it1);
    }
    while i < decls.len()
        invariant
            walk_ready(*it, resolver, &use_map, res, names),
            it.extends(&it1),
            it1.extends(&it0),
            it0 == *old(it),
            start.wf(),
            it0.extends(&start),
            r0 == old(res)@,
            t0 == old(res).total(),
            context@ == Seq::<TypeNameSym>::empty(),
            *decls == source.signature.declarations,
            grew_by_at_most(it1, it0, uses_cost(source.signature.uses@) as int),
            it0.used() + 2 * signature_cost(source.signature) < u32::MAX,
            t0 + signature_cost(source.signature) < usize::MAX,
            i <= decls@.len(),
            grew_by_at_most(*it, it1, (2 * decls_cost(decls@.take(i as int))) as int),
            res.total() <= t0 + decls_cost(decls@.take(i as int)),
            counter == decls_count(decls@.take(i as int)),
            recorded_within(r0, res@, src, 0, counter as int),
            start.wf(),
            it0.extends(&start),
            m == use_map.aliases(),
            aliases == resolver.alias_map(),
            source_resolved(res@, src, decls@.take(i as int), skipped, m, names, aliases, start, *it),
            it0.wf(),
            forall|d: DeclRef| d.source_index != src ==> #[trigger] res@.contains_key(d) == r0.contains_key(d)
                && recorded(res@, d) == recorded(r0, d),
            forall|j: int| 0 <= j < i && #[trigger] skipped[j] ==> (only matches Some(o) && !selected(it0, decls@[j], o@)),
            forall|j: int| 0 <= j < i && !#[trigger] skipped[j] ==> (only matches Some(o) ==> selected(*it, decls@[j], o@)),
        decreases decls.len() - i,
    {
        proof {
            assert(decls@.take(i + 1).drop_last() =~= decls@.take(i as int));
            lemma_decls_prefix(decls@, i + 1);
            lemma_decls_prefix(decls@, i as int);
            lemma_decl_count_le_cost(decls@[i as int]);
            assert(valid_context(*it, context@));
        }
        let ghost ia = *it;
        let ghost ra = res@;
        proof {
            lemma_decls_tree_len(decls@.take(i as int));
            lemma_decls_tree_len(decls@.take(i + 1));
            assert(decls@.take(i + 1).drop_last() =~= decls@.take(i as int));
            lemma_extends_trans(it0, it1, *it);
        }
        let skip = match only {
            Some(set) => !decl_matches_only(&decls[i], set, it),
            None => false,
        };
        proof {
            if skip {
                let o = only->0;
                if selected(it0, decls@[i as int], o@) {
                    lemma_selected_later(it0, *it, decls@[i as int], o@);
                }
            }
        }
        if skip {
            consume_decl_ref(&decls[i], &mut counter);
            proof {
                lemma_source_step_skip(res@, src, decls@, i as int, skipped, m, names, aliases, start, *it);
                skipped = skipped.push(true);
            }
        } else {
            proof {
                lemma_extends_trans(start, it0, *it);
            }
            proof {
                assert(context_value(*it, context@) =~= Seq::<NameValue>::empty());
            }
            walk_declaration(&decls[i], &context, src, &mut counter, it, resolver, &use_map, res, Ghost(names), Ghost(start));
            proof {
                assert(decls@.take(i + 1).last() == decls@[i as int]);
                lemma_source_step_walk(ra, res@, src, decls@, i as int, skipped, m, names, aliases, start, ia, *it);
                skipped = skipped.push(false);
            }
        }
        proof {
            assert forall|j: int| 0 <= j < i + 1 && !#[trigger] skipped[j] implies (only matches Some(o) ==> selected(*it, decls@[j], o@)) by {
                if let Some(o) = only {
                    if j < i {
                        assert(skipped[j] == skipped.drop_last()[j]);
                        assert(selected(ia, decls@[j], o@));
                    } else {
                        assert(!skip);
                        assert(selected(ia, decls@[j], o@));
                    }
                    lemma_selected_later(ia, *it, decls@[j], o@);
                }
            }
        }
        proof {
            lemma_extends_trans(it1, ia, *it);
        }
        i = i + 1;
    }
    proof {
        assert(decls@.take(decls@.len() as int) =~= decls@);
        lemma_extends_trans(it0, it1, *it);
        lemma_table_grows(*table, it0, it1);
        assert(kids_interned(kids, it1)) by {
            assert forall|ns: u32, t: u32| #[trigger] kids.contains_key(ns) && #[trigger] kids[ns].contains(t) implies (t as int) < it1@.len() by {
                assert(all_interned(kids[ns], it1));
            }
        }
        lemma_uses_built_later(m, sig.uses@, kids, it1, *it);
    }
    Ghost((m, skipped))
}

proof fn lemma_ready_grows_no_map(
    before: TypeNameInterner,
    after: TypeNameInterner,
    resolver: &TypeNameResolver,
    res: &Resolution,
    names: Set<u32>,
)
    requires
        before.wf(),
        resolver.valid_for(before),
        res.wf(),
        resolver.names() == names,
        outcomes_ok(res@, names, before@.len() as int),
        after.wf(),
        after.extends(&before),
    ensures
        resolver.valid_for(after),
        outcomes_ok(res@, names, after@.len() as int),
{
    assert(before@.is_prefix_of(after@));
    assert forall|k: u32| #[trigger] resolver.alias_map().contains_key(k) implies (resolver.alias_map()[k].0.0 as int) < after@.len()
        && valid_context(after, resolver.alias_map()[k].1) by {
        assert(valid_context(before, resolver.alias_map()[k].1));
        lemma_context_grows(before, after, resolver.alias_map()[k].1);
    }
    assert forall|d: DeclRef, i: int| #[trigger] res@.contains_key(d) && 0 <= i < res@[d].len() implies outcome_ok(
        #[trigger] res@[d][i],
        names,
        after@.len() as int,
    ) by {
        assert(outcome_ok(res@[d][i], names, before@.len() as int));
    }
}

proof fn lemma_sources_prefix(srcs: Seq<Source>, n: int)
    requires
        0 <= n < srcs.len(),
    ensures
        sources_cost(srcs.take(n + 1)) == sources_cost(srcs.take(n)) + signature_cost(srcs[n].signature),
        sources_cost(srcs.take(n + 1)) <= sources_cost(srcs),
    decreases srcs.len() - n,
{
    assert(srcs.take(n + 1).drop_last() =~= srcs.take(n));
    if n + 1 < srcs.len() {
        lemma_sources_prefix(srcs, n + 1);
    } else {
        assert(srcs.take(n + 1) =~= srcs);
    }
}

/// The selection `only` as a set of numbers, if given.
pub open spec fn only_view(only: Option<&HashSet<u32>>) -> Option<Set<u32>> {
    match only {
        Some(o) => Some(o@),
        None => None,
    }
}

/// The declared class, module, interface and type-alias names: what type
/// names resolve to.
pub open spec fn declared_names(env: Environment) -> Set<u32> {
    Set::new(|k: u32| env.decls().contains_key(k) && resolvable(env.decls()[k]))
}

/// The declared class and module aliases, each with what it points at
/// and the scopes it was declared in.
pub open spec fn declared_aliases(env: Environment) -> Map<u32, (TypeNameSym, Seq<TypeNameSym>)> {
    Map::new(|k: u32| env.decls().contains_key(k) && env.decls()[k] is ClassAlias, |k: u32| alias_target(env.decls()[k]))
}

/// Whether the environment is within the limits [`resolve`] asks for:
/// source numbers fit a `u32`, and the interner has room for what
/// resolving the sources may intern.
pub fn resolve_fits(env: &Environment) -> (b: bool)
    requires
        env.wf(),
    ensures
        b == (env.sources@.len() <= u32::MAX && env.interner.used() + 2 * sources_cost(env.sources@) < u32::MAX
            && sources_cost(env.sources@) < usize::MAX),
{
    proof {
        env.lemma_decls_valid();
    }
    if env.sources.len() > u32::MAX as usize {
        return false;
    }
    let mut total: u64 = 0;
    let mut i: usize = 0;
    proof {
        assert(env.sources@.take(0) =~= Seq::<Source>::empty());
    }
    while i < env.sources.len()
        invariant
            i <= env.sources@.len(),
            total == capped(sources_cost(env.sources@.take(i as int)) as int),
        decreases env.sources.len() - i,
    {
        proof {
            assert(env.sources@.take(i + 1).drop_last() =~= env.sources@.take(i as int));
            assert(env.sources@.take(i + 1).last() == env.sources@[i as int]);
        }
        let c = signature_cost_capped(&env.sources[i].signature);
        total = if total + c < u32::MAX as u64 {
            total + c
        } else {
            u32::MAX as u64
        };
        i = i + 1;
    }
    proof {
        assert(env.sources@.take(env.sources@.len() as int) =~= env.sources@);
    }
    let used = env.interner.used_count();
    used < u32::MAX as u64 && total < u32::MAX as u64 && 2 * total < u32::MAX as u64 - used
}

/// `Environment#resolve_type_names`: resolve every type-name occurrence
/// of every source. Outcomes are recorded per declaration, numbered per
/// source in pre-order as [`lookup_decl`] finds them. A source whose first
/// line is `# resolve-type-names: false` records nothing. With `only`, a
/// top-level declaration it does not select is skipped with everything
/// nested in it, but still numbered.
///
/// For every other declaration, an entry is recorded exactly when it has
/// occurrences (`own_occ`), holding one outcome per occurrence in walk
/// order: the occurrence rewritten by the source's `# use` map
/// (`uses_built`), then resolved in the scopes around it against the
/// declared names and aliases (`resolve_spec`); the rewritten name when
/// it does not resolve. Names are looked up in the interner as it stands
/// when the occurrence is reached, which interning by earlier `# use`
/// rewrites may have extended. The declarations themselves do not
/// change.
pub fn resolve(env: &mut Environment, only: Option<&HashSet<u32>>) -> (r: Resolution)
    requires
        old(env).wf(),
        old(env).sources@.len() <= u32::MAX,
        old(env).interner.used() + 2 * sources_cost(old(env).sources@) < u32::MAX,
        sources_cost(old(env).sources@) < usize::MAX,
    ensures
        final(env).wf(),
        final(env).interner.extends(&old(env).interner),
        final(env).decls() == old(env).decls(),
        final(env).decl_values() == old(env).decl_values(),
        final(env).global_values() == old(env).global_values(),
        final(env).sources == old(env).sources,
        r.wf(),
        outcomes_ok(
            r@,
            Set::new(|k: u32| old(env).decls().contains_key(k) && resolvable(old(env).decls()[k])),
            final(env).interner@.len() as int,
        ),
        forall|d: DeclRef| #[trigger] r@.contains_key(d) ==> {
            let s = old(env).sources@[d.source_index as int];
            &&& (d.source_index as int) < old(env).sources@.len()
            &&& !resolution_disabled(s.buffer.content@)
            &&& (d.decl_index as int) < decls_count(s.signature.declarations@)
            &&& (d.decl_index as int) < decls_preorder(s.signature.declarations@).len()
        },
        forall|s: u32| (s as int) < old(env).sources@.len() && !resolution_disabled(old(env).sources@[s as int].buffer.content@)
            ==> exists|m: Map<u32, u32>, skipped: Seq<bool>| #[trigger] source_outcome(
            r@,
            s,
            old(env).sources@[s as int],
            m,
            skipped,
            only_view(only),
            declared_names(*old(env)),
            declared_aliases(*old(env)),
            child_index(declared_names(*old(env)), old(env).interner),
            old(env).interner,
            final(env).interner,
        ),
{
    let ghost e0 = *env;
    let ghost only_v: Option<Set<u32>> = only_view(only);
    let resolver = TypeNameResolver::build(env);
    let ghost names = resolver.names();
    let mut table = Table::new();
    table.populate_from(env);
    proof {
        env.lemma_decls_valid();
        assert(all_interned(table.known_types@, env.interner)) by {
            assert forall|t: u32| #[trigger] table.known_types@.contains(t) implies (t as int) < env.interner@.len() by {
                assert(env.decls().contains_key(t));
            }
        }
    }
    table.compute_children(&env.interner);
    proof {
        assert(table.known_types@ =~= declared_names(e0));
    }
    proof {
        assert(table_ready(table, env.interner)) by {
            assert forall|ns: u32| #[trigger] table.children_sets().contains_key(ns) implies all_interned(table.children_sets()[ns], env.interner) by {
                assert forall|t: u32| #[trigger] table.children_sets()[ns].contains(t) implies (t as int) < env.interner@.len() by {
                    assert(table.known_types@.contains(t));
                    assert(env.decls().contains_key(t));
                }
            }
        }
    }
    let mut resolution = Resolution::new();
    let n = env.sources.len();
    let mut idx: usize = 0;
    proof {
        assert(env.sources@.take(0) =~= Seq::<Source>::empty());
    }
    while idx < n
        invariant
            e0.wf(),
            e0.interner.wf(),
            e0 == *old(env),
            n == env.sources@.len(),
            env.sources == e0.sources,
            env.decl_list == e0.decl_list,
            env.decl_index == e0.decl_index,
            env.global_decls == e0.global_decls,
            env.interner.wf(),
            env.interner.extends(&e0.interner),
            resolver.valid_for(env.interner),
            resolver.names() == names,
            names == Set::new(|k: u32| e0.decls().contains_key(k) && resolvable(e0.decls()[k])),
            table_ready(table, env.interner),
            resolution.wf(),
            outcomes_ok(resolution@, names, env.interner@.len() as int),
            n <= u32::MAX,
            e0.interner.used() + 2 * sources_cost(e0.sources@) < u32::MAX,
            sources_cost(e0.sources@) < usize::MAX,
            idx <= n,
            grew_by_at_most(env.interner, e0.interner, (2 * sources_cost(e0.sources@.take(idx as int))) as int),
            resolution.total() <= sources_cost(e0.sources@.take(idx as int)),
            forall|d: DeclRef| #[trigger] resolution@.contains_key(d) ==> {
                let s = e0.sources@[d.source_index as int];
                &&& (d.source_index as int) < idx
                &&& !resolution_disabled(s.buffer.content@)
                &&& (d.decl_index as int) < decls_count(s.signature.declarations@)
            },
            only_v == only_view(only),
            resolver.alias_map() == declared_aliases(e0),
            names == declared_names(e0),
            forall|s: u32| (s as int) < idx && !resolution_disabled(e0.sources@[s as int].buffer.content@)
                ==> exists|m: Map<u32, u32>, skipped: Seq<bool>| #[trigger] source_outcome(
                resolution@, s, e0.sources@[s as int], m, skipped, only_v, names, resolver.alias_map(), table.children_sets(),
                e0.interner, env.interner),
            table.children_sets() == child_index(declared_names(e0), e0.interner),
            e0.interner.wf(),
        decreases n - idx,
    {
        proof {
            lemma_sources_prefix(e0.sources@, idx as int);
        }
        let ghost ia = env.interner;
        let ghost ra = resolution@;
        let got = resolve_source(idx as u32, &env.sources[idx], &mut env.interner, &resolver, &table, &mut resolution, only, Ghost(names), Ghost(e0.interner));
        proof {
            let aliases = resolver.alias_map();
            let kids = table.children_sets();
            assert(table_ready(table, ia));
            assert(kids_interned(kids, ia)) by {
                assert forall|ns: u32, t: u32| #[trigger] kids.contains_key(ns) && #[trigger] kids[ns].contains(t) implies (t as int) < ia@.len() by {
                    assert(all_interned(kids[ns], ia));
                }
            }
            assert forall|s: u32| (s as int) < idx + 1 && !resolution_disabled(e0.sources@[s as int].buffer.content@)
                implies exists|m: Map<u32, u32>, skipped: Seq<bool>| #[trigger] source_outcome(
                resolution@, s, e0.sources@[s as int], m, skipped, only_v, names, aliases, kids, e0.interner, env.interner) by {
                let src = e0.sources@[s as int];
                let ds = src.signature.declarations@;
                if (s as int) < idx {
                    let (m, sk) = choose|m: Map<u32, u32>, skipped: Seq<bool>| #[trigger] source_outcome(
                        ra, s, src, m, skipped, only_v, names, aliases, kids, e0.interner, ia);
                    lemma_source_resolved_later(ra, resolution@, s, ds, sk, m, names, aliases, e0.interner, ia, env.interner);
                    lemma_uses_built_later(m, src.signature.uses@, kids, ia, env.interner);
                    assert forall|i: int| 0 <= i < ds.len() && !#[trigger] sk[i] implies (only_v matches Some(o) ==> selected(env.interner, ds[i], o)) by {
                        if let Some(o) = only_v {
                            lemma_selected_later(ia, env.interner, ds[i], o);
                        }
                    }
                    assert(source_outcome(resolution@, s, src, m, sk, only_v, names, aliases, kids, e0.interner, env.interner));
                } else {
                    assert(s == idx as u32);
                    let (m, sk) = got@;
                    assert forall|i: int| 0 <= i < ds.len() && #[trigger] sk[i] implies (only_v matches Some(o) && !selected(e0.interner, ds[i], o)) by {
                        if let Some(o) = only_v {
                            if selected(e0.interner, ds[i], o) {
                                lemma_selected_later(e0.interner, ia, ds[i], o);
                            }
                        }
                    }
                    assert(source_outcome(resolution@, s, src, m, sk, only_v, names, aliases, kids, e0.interner, env.interner));
                }
            }
            lemma_extends_trans(e0.interner, ia, env.interner);
            lemma_table_grows(table, ia, env.interner);
            assert forall|d: DeclRef| #[trigger] resolution@.contains_key(d) implies {
                let s = e0.sources@[d.source_index as int];
                &&& (d.source_index as int) < idx + 1
                &&& !resolution_disabled(s.buffer.content@)
                &&& (d.decl_index as int) < decls_count(s.signature.declarations@)
            } by {
                if !ra.contains_key(d) {
                    assert(d.source_index == idx as u32);
                    if resolution_disabled(e0.sources@[idx as int].buffer.content@) {
                        assert(resolution@ == ra);
                    }
                }
            }
        }
        idx = idx + 1;
    }
    proof {
        env.lemma_interner_grew(&e0);
        assert forall|d: DeclRef| #[trigger] resolution@.contains_key(d) implies (d.decl_index as int)
            < decls_preorder(e0.sources@[d.source_index as int].signature.declarations@).len() by {
            lemma_decls_preorder_len(e0.sources@[d.source_index as int].signature.declarations@);
        }
    }
    resolution
}

} // verus!
