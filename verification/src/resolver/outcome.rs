//! What resolving a signature records, stated over values: the type-name
//! occurrences of each declaration with the scopes around them, and the
//! outcome each occurrence must get.
use vstd::prelude::*;

use crate::env::insert::{as_scope, prefixed, ScopeValue};
use crate::env::resolution::ResolvedRef;
use crate::env::use_map::{named_by, rewrite_target};
use crate::env::DeclRef;
use crate::interner::{
    name_value, namespace_id, type_name_id, value_interned, NameValue, Sym, TypeNameInterner, TypeNameSym,
};
use crate::resolver::name_resolver::resolve_spec;
use crate::signature::{decl_count, decl_preorder, decls_count, decls_preorder, members_count, members_preorder, ref_value, texts, Decl, Member, TypeNameRef, UseClause};

verus! {

/// One type-name occurrence: the name as written and the values of the
/// class/module scopes around it, outermost first.
pub type Occurrence = (NameValue, Seq<NameValue>);

/// The namespace the innermost of scopes `cv` stands for, or the
/// absolute root.
pub open spec fn scope_for(cv: Seq<NameValue>) -> ScopeValue {
    if cv.len() == 0 {
        (Seq::empty(), true)
    } else {
        as_scope(cv.last())
    }
}

/// The absolute name of a declaration named `name` inside scopes `cv`.
pub open spec fn full_value(cv: Seq<NameValue>, name: TypeNameRef) -> NameValue {
    prefixed(scope_for(cv), ref_value(name))
}

/// The occurrences of `rs`, each in scopes `cv`.
pub open spec fn refs_occ(rs: Seq<TypeNameRef>, cv: Seq<NameValue>) -> Seq<Occurrence> {
    rs.map_values(|r: TypeNameRef| (ref_value(r), cv))
}

/// The occurrences of a class or module body's members (not those of its
/// nested declarations), in scopes `cv`.
pub open spec fn members_occ(ms: Seq<Member>, cv: Seq<NameValue>) -> Seq<Occurrence>
    decreases ms.len(),
{
    if ms.len() == 0 {
        Seq::empty()
    } else {
        members_occ(ms.drop_last(), cv) + match ms.last() {
            Member::Refs(rs) => refs_occ(rs@, cv),
            Member::Decl(_) => Seq::empty(),
        }
    }
}

/// The scopes inside a class or module named `name` declared in `cv`.
pub open spec fn inner_scopes(cv: Seq<NameValue>, name: TypeNameRef) -> Seq<NameValue> {
    cv.push(full_value(cv, name))
}

/// The occurrences recorded for declaration `d` itself, found in scopes
/// `cv`, in walk order: a class's type parameters inside it, its super
/// class outside, its members inside; a module's parameters and self
/// types and its members inside; a global's type at the top level; an
/// alias's old name.
pub open spec fn own_occ(d: Decl, cv: Seq<NameValue>) -> Seq<Occurrence> {
    match d {
        Decl::Class { name, params, super_refs, members } => {
            let inner = inner_scopes(cv, name);
            refs_occ(params@, inner) + refs_occ(super_refs@, cv) + members_occ(members@, inner)
        },
        Decl::Module { name, params, members } => {
            let inner = inner_scopes(cv, name);
            refs_occ(params@, inner) + members_occ(members@, inner)
        },
        Decl::Interface { refs, .. } => refs_occ(refs@, cv),
        Decl::TypeAlias { refs, .. } => refs_occ(refs@, cv),
        Decl::Constant { refs, .. } => refs_occ(refs@, cv),
        Decl::Global { refs, .. } => refs_occ(refs@, Seq::empty()),
        Decl::ClassAlias { old_name, .. } => seq![(ref_value(old_name), cv)],
        Decl::ModuleAlias { old_name, .. } => seq![(ref_value(old_name), cv)],
    }
}

/// `d` and its nested declarations in pre-order, each with the scopes it
/// is found in.
pub open spec fn decl_tree(d: Decl, cv: Seq<NameValue>) -> Seq<(Decl, Seq<NameValue>)>
    decreases d,
{
    seq![(d, cv)] + match d {
        Decl::Class { name, members, .. } => members_tree(members@, inner_scopes(cv, name)),
        Decl::Module { name, members, .. } => members_tree(members@, inner_scopes(cv, name)),
        _ => Seq::empty(),
    }
}

/// The declarations nested among members `ms` in pre-order, with their
/// scopes.
pub open spec fn members_tree(ms: Seq<Member>, cv: Seq<NameValue>) -> Seq<(Decl, Seq<NameValue>)>
    decreases ms,
{
    if ms.len() == 0 {
        Seq::empty()
    } else {
        members_tree(ms.drop_last(), cv) + match ms.last() {
            Member::Decl(d) => decl_tree(d, cv),
            Member::Refs(_) => Seq::empty(),
        }
    }
}

/// The interned type name spelling `v`.
pub open spec fn value_number(it: TypeNameInterner, v: NameValue) -> TypeNameSym {
    choose|t: TypeNameSym| (t.0 as int) < it@.len() && name_value(it, t) == v
}

/// What the use map `m` (name -> type name) rewrites `tn` to in `it`.
pub open spec fn mapped_at(m: Map<u32, u32>, it: TypeNameInterner, tn: TypeNameSym) -> TypeNameSym {
    let (ns, name, kind) = it@[tn.0 as int];
    let (path, abs) = it.spaces()[ns.0 as int];
    if abs {
        tn
    } else if path.len() == 0 {
        if m.contains_key(name.0) {
            TypeNameSym(m[name.0])
        } else {
            tn
        }
    } else {
        match rewrite_target(m, it, tn) {
            None => tn,
            Some((p, n, k)) => match namespace_id(it.spaces(), (p, true)) {
                None => tn,
                Some(nsid) => match type_name_id(it@, (nsid, n, k)) {
                    None => tn,
                    Some(t) => t,
                },
            },
        }
    }
}

/// What `tn` is rewritten to is interned in `it`.
pub open spec fn mapped_ready(m: Map<u32, u32>, it: TypeNameInterner, tn: TypeNameSym) -> bool {
    let (ns, name, kind) = it@[tn.0 as int];
    let (path, abs) = it.spaces()[ns.0 as int];
    &&& (!abs && path.len() == 0 && m.contains_key(name.0) ==> (m[name.0] as int) < it@.len())
    &&& (!abs && path.len() > 0 ==> match rewrite_target(m, it, tn) {
        None => true,
        Some((p, n, k)) => match namespace_id(it.spaces(), (p, true)) {
            None => false,
            Some(nsid) => type_name_id(it@, (nsid, n, k)) is Some,
        },
    })
}

/// The outcome recorded for `raw` found in scopes `ctx`: rewritten by the
/// use map, then resolved against the declared `names` and `aliases`;
/// the rewritten name itself when it does not resolve.
pub open spec fn outcome_at(
    m: Map<u32, u32>,
    names: Set<u32>,
    aliases: Map<u32, (TypeNameSym, Seq<TypeNameSym>)>,
    it: TypeNameInterner,
    raw: TypeNameSym,
    ctx: Seq<TypeNameSym>,
) -> ResolvedRef {
    let mapped = mapped_at(m, it, raw);
    match resolve_spec(names, aliases, it, mapped, ctx) {
        Some(t) => ResolvedRef::Resolved(t),
        None => ResolvedRef::Unresolved(mapped),
    }
}

/// `e` is the outcome of occurrence `occ` against interner `j`, a state
/// between `start` and `end`.
pub open spec fn outcome_in_state(
    e: ResolvedRef,
    occ: Occurrence,
    m: Map<u32, u32>,
    names: Set<u32>,
    aliases: Map<u32, (TypeNameSym, Seq<TypeNameSym>)>,
    start: TypeNameInterner,
    end: TypeNameInterner,
    j: TypeNameInterner,
) -> bool {
    &&& j.wf()
    &&& j.extends(&start)
    &&& end.extends(&j)
    &&& value_interned(j, occ.0)
    &&& forall|i: int| 0 <= i < occ.1.len() ==> value_interned(j, #[trigger] occ.1[i])
    &&& mapped_ready(m, j, value_number(j, occ.0))
    &&& e == outcome_at(m, names, aliases, j, value_number(j, occ.0), occ.1.map_values(|v: NameValue| value_number(j, v)))
}

/// `e` is the outcome of occurrence `occ` against the interner as it
/// stood at some point between `start` and `end`.
pub open spec fn outcome_of(
    e: ResolvedRef,
    occ: Occurrence,
    m: Map<u32, u32>,
    names: Set<u32>,
    aliases: Map<u32, (TypeNameSym, Seq<TypeNameSym>)>,
    start: TypeNameInterner,
    end: TypeNameInterner,
) -> bool {
    exists|j: TypeNameInterner| #[trigger] outcome_in_state(e, occ, m, names, aliases, start, end, j)
}

/// `es` are the outcomes of `occs`, one for one.
pub open spec fn outcomes_of(
    es: Seq<ResolvedRef>,
    occs: Seq<Occurrence>,
    m: Map<u32, u32>,
    names: Set<u32>,
    aliases: Map<u32, (TypeNameSym, Seq<TypeNameSym>)>,
    start: TypeNameInterner,
    end: TypeNameInterner,
) -> bool {
    &&& es.len() == occs.len()
    &&& forall|i: int| 0 <= i < es.len() ==> outcome_of(#[trigger] es[i], occs[i], m, names, aliases, start, end)
}

/// Declaration `k` of source `src`.
pub open spec fn dref(src: u32, k: u32) -> DeclRef {
    DeclRef { source_index: src, decl_index: k }
}

/// What was recorded for `d` in `res`, or nothing.
pub open spec fn recorded(res: Map<DeclRef, Seq<ResolvedRef>>, d: DeclRef) -> Seq<ResolvedRef> {
    if res.contains_key(d) {
        res[d]
    } else {
        Seq::empty()
    }
}

/// `after` is `before` with the outcomes of `occs` appended for `owner`
/// (no entry is made for none), and with fresh entries for declarations
/// `lo..hi` of source `src`, the `k`-th made for `tree[k - lo]` exactly
/// when that declaration has occurrences; nothing else changes.
pub open spec fn walked(
    before: Map<DeclRef, Seq<ResolvedRef>>,
    after: Map<DeclRef, Seq<ResolvedRef>>,
    owner: DeclRef,
    occs: Seq<Occurrence>,
    src: u32,
    lo: int,
    hi: int,
    tree: Seq<(Decl, Seq<NameValue>)>,
    m: Map<u32, u32>,
    names: Set<u32>,
    aliases: Map<u32, (TypeNameSym, Seq<TypeNameSym>)>,
    start: TypeNameInterner,
    end: TypeNameInterner,
) -> bool {
    let prev = recorded(before, owner);
    &&& hi - lo == tree.len()
    &&& after.contains_key(owner) == (before.contains_key(owner) || occs.len() > 0)
    &&& recorded(after, owner).len() == prev.len() + occs.len()
    &&& recorded(after, owner).take(prev.len() as int) == prev
    &&& outcomes_of(recorded(after, owner).skip(prev.len() as int), occs, m, names, aliases, start, end)
    &&& forall|k: u32| lo <= k < hi ==> {
        let d = #[trigger] dref(src, k);
        &&& after.contains_key(d) == (own_occ(tree[k - lo].0, tree[k - lo].1).len() > 0)
        &&& outcomes_of(recorded(after, d), own_occ(tree[k - lo].0, tree[k - lo].1), m, names, aliases, start, end)
    }
    &&& forall|d: DeclRef| #![trigger after.contains_key(d)] #![trigger before.contains_key(d)]
        d != owner && !(d.source_index == src && lo <= d.decl_index < hi) ==> after.contains_key(d) == before.contains_key(d)
            && recorded(after, d) == recorded(before, d)
}

/// An outcome against an earlier end state is one against a later one.
pub proof fn lemma_outcome_of_later(
    e: ResolvedRef,
    occ: Occurrence,
    m: Map<u32, u32>,
    names: Set<u32>,
    aliases: Map<u32, (TypeNameSym, Seq<TypeNameSym>)>,
    start: TypeNameInterner,
    end: TypeNameInterner,
    later: TypeNameInterner,
)
    requires
        outcome_of(e, occ, m, names, aliases, start, end),
        later.extends(&end),
    ensures
        outcome_of(e, occ, m, names, aliases, start, later),
{
    let j = choose|j: TypeNameInterner| #[trigger] outcome_in_state(e, occ, m, names, aliases, start, end, j);
    crate::env::insert::lemma_extends_trans(j, end, later);
    assert(outcome_in_state(e, occ, m, names, aliases, start, later, j));
}

pub proof fn lemma_outcomes_of_later(
    es: Seq<ResolvedRef>,
    occs: Seq<Occurrence>,
    m: Map<u32, u32>,
    names: Set<u32>,
    aliases: Map<u32, (TypeNameSym, Seq<TypeNameSym>)>,
    start: TypeNameInterner,
    end: TypeNameInterner,
    later: TypeNameInterner,
)
    requires
        outcomes_of(es, occs, m, names, aliases, start, end),
        later.extends(&end),
    ensures
        outcomes_of(es, occs, m, names, aliases, start, later),
{
    assert forall|i: int| 0 <= i < es.len() implies outcome_of(#[trigger] es[i], occs[i], m, names, aliases, start, later) by {
        lemma_outcome_of_later(es[i], occs[i], m, names, aliases, start, end, later);
    }
}

/// Outcomes of two runs of occurrences, put together.
pub proof fn lemma_outcomes_of_concat(
    a: Seq<ResolvedRef>,
    b: Seq<ResolvedRef>,
    oa: Seq<Occurrence>,
    ob: Seq<Occurrence>,
    m: Map<u32, u32>,
    names: Set<u32>,
    aliases: Map<u32, (TypeNameSym, Seq<TypeNameSym>)>,
    start: TypeNameInterner,
    end: TypeNameInterner,
)
    requires
        outcomes_of(a, oa, m, names, aliases, start, end),
        outcomes_of(b, ob, m, names, aliases, start, end),
    ensures
        outcomes_of(a + b, oa + ob, m, names, aliases, start, end),
{
    assert forall|i: int| 0 <= i < (a + b).len() implies outcome_of(#[trigger] (a + b)[i], (oa + ob)[i], m, names, aliases, start, end) by {
        if i < a.len() {
            assert((a + b)[i] == a[i]);
            assert((oa + ob)[i] == oa[i]);
        } else {
            assert((a + b)[i] == b[i - a.len()]);
            assert((oa + ob)[i] == ob[i - a.len()]);
        }
    }
}

/// Nothing walked: nothing changes.
pub proof fn lemma_walked_none(
    res: Map<DeclRef, Seq<ResolvedRef>>,
    owner: DeclRef,
    src: u32,
    lo: int,
    m: Map<u32, u32>,
    names: Set<u32>,
    aliases: Map<u32, (TypeNameSym, Seq<TypeNameSym>)>,
    start: TypeNameInterner,
    end: TypeNameInterner,
)
    ensures
        walked(res, res, owner, Seq::empty(), src, lo, lo, Seq::empty(), m, names, aliases, start, end),
{
    let prev = recorded(res, owner);
    assert(prev.take(prev.len() as int) =~= prev);
    assert(prev.skip(prev.len() as int) =~= Seq::<ResolvedRef>::empty());
}

/// A walk stays a walk when the interner grows further.
pub proof fn lemma_walked_later(
    before: Map<DeclRef, Seq<ResolvedRef>>,
    after: Map<DeclRef, Seq<ResolvedRef>>,
    owner: DeclRef,
    occs: Seq<Occurrence>,
    src: u32,
    lo: int,
    hi: int,
    tree: Seq<(Decl, Seq<NameValue>)>,
    m: Map<u32, u32>,
    names: Set<u32>,
    aliases: Map<u32, (TypeNameSym, Seq<TypeNameSym>)>,
    start: TypeNameInterner,
    end: TypeNameInterner,
    later: TypeNameInterner,
)
    requires
        walked(before, after, owner, occs, src, lo, hi, tree, m, names, aliases, start, end),
        later.extends(&end),
    ensures
        walked(before, after, owner, occs, src, lo, hi, tree, m, names, aliases, start, later),
{
    let prev = recorded(before, owner);
    lemma_outcomes_of_later(recorded(after, owner).skip(prev.len() as int), occs, m, names, aliases, start, end, later);
    assert forall|k: u32| lo <= k < hi implies {
        let d = #[trigger] dref(src, k);
        &&& after.contains_key(d) == (own_occ(tree[k - lo].0, tree[k - lo].1).len() > 0)
        &&& outcomes_of(recorded(after, d), own_occ(tree[k - lo].0, tree[k - lo].1), m, names, aliases, start, later)
    } by {
        let d = dref(src, k);
        lemma_outcomes_of_later(recorded(after, d), own_occ(tree[k - lo].0, tree[k - lo].1), m, names, aliases, start, end, later);
    }
}

/// Two walks one after the other, the second starting where the first
/// stopped numbering, make one walk.
pub proof fn lemma_walked_trans(
    r0: Map<DeclRef, Seq<ResolvedRef>>,
    r1: Map<DeclRef, Seq<ResolvedRef>>,
    r2: Map<DeclRef, Seq<ResolvedRef>>,
    owner: DeclRef,
    o1: Seq<Occurrence>,
    o2: Seq<Occurrence>,
    src: u32,
    lo: int,
    mid: int,
    hi: int,
    t1: Seq<(Decl, Seq<NameValue>)>,
    t2: Seq<(Decl, Seq<NameValue>)>,
    m: Map<u32, u32>,
    names: Set<u32>,
    aliases: Map<u32, (TypeNameSym, Seq<TypeNameSym>)>,
    start: TypeNameInterner,
    e1: TypeNameInterner,
    e2: TypeNameInterner,
)
    requires
        walked(r0, r1, owner, o1, src, lo, mid, t1, m, names, aliases, start, e1),
        walked(r1, r2, owner, o2, src, mid, hi, t2, m, names, aliases, start, e2),
        e2.extends(&e1),
        !(owner.source_index == src && lo <= owner.decl_index < hi),
    ensures
        walked(r0, r2, owner, o1 + o2, src, lo, hi, t1 + t2, m, names, aliases, start, e2),
{
    lemma_walked_later(r0, r1, owner, o1, src, lo, mid, t1, m, names, aliases, start, e1, e2);
    let p0 = recorded(r0, owner);
    let p1 = recorded(r1, owner);
    let p2 = recorded(r2, owner);
    assert(p2.take(p0.len() as int) =~= p0) by {
        assert(p2.take(p1.len() as int) == p1);
        assert forall|i: int| 0 <= i < p0.len() implies p2[i] == p0[i] by {
            assert(p2[i] == p2.take(p1.len() as int)[i]);
            assert(p1[i] == p1.take(p0.len() as int)[i]);
        }
    }
    assert(p2.skip(p0.len() as int) =~= p1.skip(p0.len() as int) + p2.skip(p1.len() as int)) by {
        assert forall|i: int| 0 <= i < p2.skip(p0.len() as int).len() implies p2.skip(p0.len() as int)[i] == (p1.skip(p0.len() as int) + p2.skip(p1.len() as int))[i] by {
            if p0.len() + i < p1.len() {
                assert(p2[p0.len() + i] == p2.take(p1.len() as int)[p0.len() + i]);
            }
        }
    }
    lemma_outcomes_of_concat(p1.skip(p0.len() as int), p2.skip(p1.len() as int), o1, o2, m, names, aliases, start, e2);
    let t = t1 + t2;
    assert forall|k: u32| lo <= k < hi implies {
        let d = #[trigger] dref(src, k);
        &&& r2.contains_key(d) == (own_occ(t[k - lo].0, t[k - lo].1).len() > 0)
        &&& outcomes_of(recorded(r2, d), own_occ(t[k - lo].0, t[k - lo].1), m, names, aliases, start, e2)
    } by {
        let d = dref(src, k);
        if k < mid {
            assert(t[k - lo] == t1[k - lo]);
            assert(d != owner);
            assert(r2.contains_key(d) == r1.contains_key(d));
        } else {
            assert(t[k - lo] == t2[k - mid]);
        }
    }
    assert forall|d: DeclRef| #![trigger r2.contains_key(d)] #![trigger r0.contains_key(d)]
        d != owner && !(d.source_index == src && lo <= d.decl_index < hi) implies r2.contains_key(d) == r0.contains_key(d)
            && recorded(r2, d) == recorded(r0, d) by {
        assert(r1.contains_key(d) == r0.contains_key(d));
        assert(r2.contains_key(d) == r1.contains_key(d));
    }
}

/// A walk that numbered no declarations can be placed at any number.
pub proof fn lemma_walked_rebase(
    before: Map<DeclRef, Seq<ResolvedRef>>,
    after: Map<DeclRef, Seq<ResolvedRef>>,
    owner: DeclRef,
    occs: Seq<Occurrence>,
    src: u32,
    lo: int,
    at: int,
    m: Map<u32, u32>,
    names: Set<u32>,
    aliases: Map<u32, (TypeNameSym, Seq<TypeNameSym>)>,
    start: TypeNameInterner,
    end: TypeNameInterner,
)
    requires
        walked(before, after, owner, occs, src, lo, lo, Seq::empty(), m, names, aliases, start, end),
    ensures
        walked(before, after, owner, occs, src, at, at, Seq::empty(), m, names, aliases, start, end),
{
    assert forall|d: DeclRef| #![trigger after.contains_key(d)] #![trigger before.contains_key(d)]
        d != owner && !(d.source_index == src && at <= d.decl_index < at) implies after.contains_key(d) == before.contains_key(d)
            && recorded(after, d) == recorded(before, d) by {
        assert(!(d.source_index == src && lo <= d.decl_index < lo));
    }
}

/// A declaration walked on its own, seen from the body it is nested in:
/// the body's owner is untouched and the declaration's own entry is the
/// first of the fresh ones.
pub proof fn lemma_walked_nest(
    before: Map<DeclRef, Seq<ResolvedRef>>,
    after: Map<DeclRef, Seq<ResolvedRef>>,
    owner: DeclRef,
    d: Decl,
    cv: Seq<NameValue>,
    src: u32,
    k: u32,
    hi: int,
    tree: Seq<(Decl, Seq<NameValue>)>,
    m: Map<u32, u32>,
    names: Set<u32>,
    aliases: Map<u32, (TypeNameSym, Seq<TypeNameSym>)>,
    start: TypeNameInterner,
    end: TypeNameInterner,
)
    requires
        walked(before, after, dref(src, k), own_occ(d, cv), src, k + 1, hi, tree, m, names, aliases, start, end),
        !before.contains_key(dref(src, k)),
        owner.source_index == src ==> owner.decl_index < k,
    ensures
        walked(before, after, owner, Seq::empty(), src, k as int, hi, seq![(d, cv)] + tree, m, names, aliases, start, end),
{
    let me = dref(src, k);
    let t = seq![(d, cv)] + tree;
    assert(owner != me);
    assert(after.contains_key(owner) == before.contains_key(owner));
    assert(recorded(after, owner) == recorded(before, owner));
    let prev = recorded(before, owner);
    assert(prev.take(prev.len() as int) =~= prev);
    assert(recorded(after, owner).skip(prev.len() as int) =~= Seq::<ResolvedRef>::empty());
    assert(recorded(before, me) =~= Seq::<ResolvedRef>::empty());
    assert(recorded(after, me).skip(0) =~= recorded(after, me));
    assert forall|j: u32| k <= j < hi implies {
        let dd = #[trigger] dref(src, j);
        &&& after.contains_key(dd) == (own_occ(t[j - k].0, t[j - k].1).len() > 0)
        &&& outcomes_of(recorded(after, dd), own_occ(t[j - k].0, t[j - k].1), m, names, aliases, start, end)
    } by {
        if j == k {
            assert(t[0] == (d, cv));
        } else {
            assert(t[j - k] == tree[j - (k + 1)]);
        }
    }
    assert forall|dd: DeclRef| #![trigger after.contains_key(dd)] #![trigger before.contains_key(dd)]
        dd != owner && !(dd.source_index == src && k <= dd.decl_index < hi) implies after.contains_key(dd) == before.contains_key(dd)
            && recorded(after, dd) == recorded(before, dd) by {
        assert(dd != me);
    }
}

/// After a walk, the source's entries are all below `hi` when they were
/// below `lo` before and the owner is.
pub proof fn lemma_walked_fresh(
    before: Map<DeclRef, Seq<ResolvedRef>>,
    after: Map<DeclRef, Seq<ResolvedRef>>,
    owner: DeclRef,
    occs: Seq<Occurrence>,
    src: u32,
    lo: int,
    hi: int,
    tree: Seq<(Decl, Seq<NameValue>)>,
    m: Map<u32, u32>,
    names: Set<u32>,
    aliases: Map<u32, (TypeNameSym, Seq<TypeNameSym>)>,
    start: TypeNameInterner,
    end: TypeNameInterner,
)
    requires
        walked(before, after, owner, occs, src, lo, hi, tree, m, names, aliases, start, end),
        forall|d: DeclRef| #[trigger] before.contains_key(d) && d.source_index == src ==> d.decl_index < lo,
        owner.source_index == src ==> owner.decl_index < hi,
        lo <= hi,
    ensures
        forall|d: DeclRef| #[trigger] after.contains_key(d) && d.source_index == src ==> d.decl_index < hi,
{
    assert forall|d: DeclRef| #[trigger] after.contains_key(d) && d.source_index == src implies d.decl_index < hi by {
        if d != owner && !(lo <= d.decl_index < hi) {
            assert(before.contains_key(d));
        }
    }
}

/// A declaration's tree lists as many declarations as it counts.
pub proof fn lemma_decl_tree_len(d: Decl, cv: Seq<NameValue>)
    ensures
        decl_tree(d, cv).len() == decl_count(d),
    decreases d,
{
    match d {
        Decl::Class { name, members, .. } => lemma_members_tree_len(members@, inner_scopes(cv, name)),
        Decl::Module { name, members, .. } => lemma_members_tree_len(members@, inner_scopes(cv, name)),
        _ => {},
    }
}

pub proof fn lemma_members_tree_len(ms: Seq<Member>, cv: Seq<NameValue>)
    ensures
        members_tree(ms, cv).len() == members_count(ms),
    decreases ms,
{
    if ms.len() > 0 {
        lemma_members_tree_len(ms.drop_last(), cv);
        match ms.last() {
            Member::Decl(d) => lemma_decl_tree_len(d, cv),
            Member::Refs(_) => {},
        }
    }
}

/// The name a declaration is declared under (a global has none here).
pub open spec fn decl_name_ref(d: Decl) -> Option<TypeNameRef> {
    match d {
        Decl::Class { name, .. } => Some(name),
        Decl::Module { name, .. } => Some(name),
        Decl::Interface { name, .. } => Some(name),
        Decl::TypeAlias { name, .. } => Some(name),
        Decl::Constant { name, .. } => Some(name),
        Decl::Global { .. } => None,
        Decl::ClassAlias { new_name, .. } => Some(new_name),
        Decl::ModuleAlias { new_name, .. } => Some(new_name),
    }
}

/// Top-level declaration `d` is one of `only`: its name as written and
/// its absolute name are interned in `it`, and the absolute name's
/// number is in `only`.
pub open spec fn selected(it: TypeNameInterner, d: Decl, only: Set<u32>) -> bool {
    match decl_name_ref(d) {
        None => false,
        Some(nm) => {
            let full = full_value(Seq::empty(), nm);
            &&& value_interned(it, ref_value(nm))
            &&& value_interned(it, full)
            &&& only.contains(value_number(it, full).0)
        },
    }
}

/// `t`'s entries, each marked with `i`.
pub open spec fn tag(t: Seq<(Decl, Seq<NameValue>)>, i: int) -> Seq<(Decl, Seq<NameValue>, int)> {
    t.map_values(|e: (Decl, Seq<NameValue>)| (e.0, e.1, i))
}

/// A file's declarations in pre-order, each with its scopes and the
/// position of the top-level declaration it belongs to.
pub open spec fn decls_tree(ds: Seq<Decl>) -> Seq<(Decl, Seq<NameValue>, int)>
    decreases ds.len(),
{
    if ds.len() == 0 {
        Seq::empty()
    } else {
        decls_tree(ds.drop_last()) + tag(decl_tree(ds.last(), Seq::empty()), ds.len() - 1)
    }
}

pub proof fn lemma_decls_tree_len(ds: Seq<Decl>)
    ensures
        decls_tree(ds).len() == decls_count(ds),
    decreases ds.len(),
{
    if ds.len() > 0 {
        lemma_decls_tree_len(ds.drop_last());
        lemma_decl_tree_len(ds.last(), Seq::empty());
    }
}

/// What resolving the declarations `ds` of source `src` left in `res`:
/// no entry for a declaration under a skipped top-level one; for every
/// other declaration, an entry exactly when it has occurrences, holding
/// their outcomes in order; no entry past the last declaration.
pub open spec fn source_resolved(
    res: Map<DeclRef, Seq<ResolvedRef>>,
    src: u32,
    ds: Seq<Decl>,
    skipped: Seq<bool>,
    m: Map<u32, u32>,
    names: Set<u32>,
    aliases: Map<u32, (TypeNameSym, Seq<TypeNameSym>)>,
    start: TypeNameInterner,
    end: TypeNameInterner,
) -> bool {
    &&& skipped.len() == ds.len()
    &&& forall|k: u32| (k as int) < decls_tree(ds).len() ==> {
        let e = decls_tree(ds)[k as int];
        let key = #[trigger] dref(src, k);
        if skipped[e.2] {
            !res.contains_key(key)
        } else {
            &&& res.contains_key(key) == (own_occ(e.0, e.1).len() > 0)
            &&& outcomes_of(recorded(res, key), own_occ(e.0, e.1), m, names, aliases, start, end)
        }
    }
    &&& forall|d: DeclRef| #[trigger] res.contains_key(d) && d.source_index == src ==> (d.decl_index as int) < decls_tree(ds).len()
}

/// A source's record survives other sources being resolved after it.
pub proof fn lemma_source_resolved_later(
    res: Map<DeclRef, Seq<ResolvedRef>>,
    res2: Map<DeclRef, Seq<ResolvedRef>>,
    src: u32,
    ds: Seq<Decl>,
    skipped: Seq<bool>,
    m: Map<u32, u32>,
    names: Set<u32>,
    aliases: Map<u32, (TypeNameSym, Seq<TypeNameSym>)>,
    start: TypeNameInterner,
    end: TypeNameInterner,
    end2: TypeNameInterner,
)
    requires
        source_resolved(res, src, ds, skipped, m, names, aliases, start, end),
        forall|d: DeclRef| d.source_index == src ==> #[trigger] res2.contains_key(d) == res.contains_key(d) && recorded(res2, d) == recorded(res, d),
        end2.extends(&end),
    ensures
        source_resolved(res2, src, ds, skipped, m, names, aliases, start, end2),
{
    assert forall|k: u32| (k as int) < decls_tree(ds).len() implies {
        let e = decls_tree(ds)[k as int];
        let key = #[trigger] dref(src, k);
        if skipped[e.2] {
            !res2.contains_key(key)
        } else {
            &&& res2.contains_key(key) == (own_occ(e.0, e.1).len() > 0)
            &&& outcomes_of(recorded(res2, key), own_occ(e.0, e.1), m, names, aliases, start, end2)
        }
    } by {
        let e = decls_tree(ds)[k as int];
        let key = dref(src, k);
        assert(res2.contains_key(key) == res.contains_key(key));
        if !skipped[e.2] {
            lemma_outcomes_of_later(recorded(res, key), own_occ(e.0, e.1), m, names, aliases, start, end, end2);
        }
    }
    assert forall|d: DeclRef| #[trigger] res2.contains_key(d) && d.source_index == src implies (d.decl_index as int) < decls_tree(ds).len() by {
        assert(res.contains_key(d));
    }
}

/// Being one of `only` stays so as the interner grows.
pub proof fn lemma_selected_later(it: TypeNameInterner, it2: TypeNameInterner, d: Decl, only: Set<u32>)
    requires
        it.wf(),
        it2.wf(),
        it2.extends(&it),
        selected(it, d, only),
    ensures
        selected(it2, d, only),
{
    let nm = decl_name_ref(d)->0;
    let full = full_value(Seq::empty(), nm);
    it2.lemma_value_interned_stable(&it, ref_value(nm));
    it2.lemma_value_interned_stable(&it, full);
    let t = value_number(it, full);
    let t2 = value_number(it2, full);
    it2.lemma_value_stable(&it, t);
    it2.lemma_value_injective(t, t2);
}

proof fn lemma_decls_tree_step(ds: Seq<Decl>, i: int)
    requires
        0 <= i < ds.len(),
    ensures
        decls_tree(ds.take(i + 1)) == decls_tree(ds.take(i)) + tag(decl_tree(ds[i], Seq::empty()), i),
{
    assert(ds.take(i + 1).drop_last() =~= ds.take(i));
    assert(ds.take(i + 1).last() == ds[i]);
}

/// Resolving the next top-level declaration keeps the source's record.
pub proof fn lemma_source_step_walk(
    before: Map<DeclRef, Seq<ResolvedRef>>,
    after: Map<DeclRef, Seq<ResolvedRef>>,
    src: u32,
    ds: Seq<Decl>,
    i: int,
    skipped: Seq<bool>,
    m: Map<u32, u32>,
    names: Set<u32>,
    aliases: Map<u32, (TypeNameSym, Seq<TypeNameSym>)>,
    start: TypeNameInterner,
    end: TypeNameInterner,
    end2: TypeNameInterner,
)
    requires
        0 <= i < ds.len(),
        source_resolved(before, src, ds.take(i), skipped, m, names, aliases, start, end),
        end2.extends(&end),
        decls_tree(ds.take(i)).len() < u32::MAX,
        walked(
            before,
            after,
            dref(src, decls_tree(ds.take(i)).len() as u32),
            own_occ(ds[i], Seq::empty()),
            src,
            decls_tree(ds.take(i)).len() + 1 as int,
            decls_tree(ds.take(i + 1)).len() as int,
            decl_tree(ds[i], Seq::empty()).drop_first(),
            m,
            names,
            aliases,
            start,
            end2,
        ),
    ensures
        source_resolved(after, src, ds.take(i + 1), skipped.push(false), m, names, aliases, start, end2),
        forall|d: DeclRef| d.source_index != src ==> #[trigger] after.contains_key(d) == before.contains_key(d)
            && recorded(after, d) == recorded(before, d),
{
    let c = decls_tree(ds.take(i)).len();
    lemma_decls_tree_step(ds, i);
    let t = decl_tree(ds[i], Seq::empty());
    lemma_decl_tree_len(ds[i], Seq::empty());
    let all = decls_tree(ds.take(i + 1));
    let sk = skipped.push(false);
    let owner = dref(src, c as u32);
    assert(!before.contains_key(owner));
    assert(recorded(before, owner) =~= Seq::<ResolvedRef>::empty());
    assert(recorded(after, owner).skip(0) =~= recorded(after, owner));
    assert forall|k: u32| (k as int) < all.len() implies {
        let e = all[k as int];
        let key = #[trigger] dref(src, k);
        if sk[e.2] {
            !after.contains_key(key)
        } else {
            &&& after.contains_key(key) == (own_occ(e.0, e.1).len() > 0)
            &&& outcomes_of(recorded(after, key), own_occ(e.0, e.1), m, names, aliases, start, end2)
        }
    } by {
        let e = all[k as int];
        let key = dref(src, k);
        if (k as int) < c {
            let e0 = decls_tree(ds.take(i))[k as int];
            assert(e == e0);
            assert(0 <= e0.2 < i) by {
                lemma_decls_tree_tags(ds.take(i));
            }
            assert(ds.take(i).len() == i);
            assert(skipped.len() == i);
            assert(0 <= e.2 < skipped.len());
            assert(sk[e.2] == skipped[e.2]);
            assert(key != owner);
            assert(after.contains_key(key) == before.contains_key(key));
            if !skipped[e.2] {
                lemma_outcomes_of_later(recorded(before, key), own_occ(e.0, e.1), m, names, aliases, start, end, end2);
            }
        } else if (k as int) == c {
            assert(e == (t[0].0, t[0].1, i));
            assert(t[0] == (ds[i], Seq::<NameValue>::empty()));
            assert(sk[i] == false);
        } else {
            assert(e == (t[k - c].0, t[k - c].1, i));
            assert(t.drop_first()[k - (c + 1)] == t[k - c]);
            assert(sk[i] == false);
        }
    }
    assert forall|d: DeclRef| #[trigger] after.contains_key(d) && d.source_index == src implies (d.decl_index as int) < all.len() by {
        if d != owner && !(c + 1 <= d.decl_index < all.len()) {
            assert(before.contains_key(d));
        }
    }
    assert forall|d: DeclRef| d.source_index != src implies #[trigger] after.contains_key(d) == before.contains_key(d)
        && recorded(after, d) == recorded(before, d) by {
        assert(d != owner);
    }
}

/// Skipping the next top-level declaration keeps the source's record.
pub proof fn lemma_source_step_skip(
    res: Map<DeclRef, Seq<ResolvedRef>>,
    src: u32,
    ds: Seq<Decl>,
    i: int,
    skipped: Seq<bool>,
    m: Map<u32, u32>,
    names: Set<u32>,
    aliases: Map<u32, (TypeNameSym, Seq<TypeNameSym>)>,
    start: TypeNameInterner,
    end: TypeNameInterner,
)
    requires
        0 <= i < ds.len(),
        source_resolved(res, src, ds.take(i), skipped, m, names, aliases, start, end),
    ensures
        source_resolved(res, src, ds.take(i + 1), skipped.push(true), m, names, aliases, start, end),
{
    let c = decls_tree(ds.take(i)).len();
    lemma_decls_tree_step(ds, i);
    let t = decl_tree(ds[i], Seq::empty());
    let all = decls_tree(ds.take(i + 1));
    let sk = skipped.push(true);
    assert forall|k: u32| (k as int) < all.len() implies {
        let e = all[k as int];
        let key = #[trigger] dref(src, k);
        if sk[e.2] {
            !res.contains_key(key)
        } else {
            &&& res.contains_key(key) == (own_occ(e.0, e.1).len() > 0)
            &&& outcomes_of(recorded(res, key), own_occ(e.0, e.1), m, names, aliases, start, end)
        }
    } by {
        let e = all[k as int];
        if (k as int) < c {
            let e0 = decls_tree(ds.take(i))[k as int];
            assert(e == e0);
            assert(0 <= e0.2 < i) by {
                lemma_decls_tree_tags(ds.take(i));
            }
            assert(ds.take(i).len() == i);
            assert(skipped.len() == i);
            assert(0 <= e.2 < skipped.len());
            assert(sk[e.2] == skipped[e.2]);
        } else {
            assert(e.2 == i);
            assert(!res.contains_key(dref(src, k)));
        }
    }
}

/// Every entry of a file's tree is marked with a top-level position of
/// the file.
pub proof fn lemma_decls_tree_tags(ds: Seq<Decl>)
    ensures
        forall|k: int| 0 <= k < decls_tree(ds).len() ==> 0 <= (#[trigger] decls_tree(ds)[k]).2 < ds.len(),
    decreases ds.len(),
{
    if ds.len() > 0 {
        lemma_decls_tree_tags(ds.drop_last());
        let prev = decls_tree(ds.drop_last());
        let t = tag(decl_tree(ds.last(), Seq::empty()), ds.len() - 1);
        assert forall|k: int| 0 <= k < decls_tree(ds).len() implies 0 <= (#[trigger] decls_tree(ds)[k]).2 < ds.len() by {
            if k < prev.len() {
                assert(decls_tree(ds)[k] == prev[k]);
            } else {
                assert(decls_tree(ds)[k] == t[k - prev.len()]);
            }
        }
    }
}

/// Nothing resolved yet.
pub proof fn lemma_source_resolved_empty(
    res: Map<DeclRef, Seq<ResolvedRef>>,
    src: u32,
    m: Map<u32, u32>,
    names: Set<u32>,
    aliases: Map<u32, (TypeNameSym, Seq<TypeNameSym>)>,
    start: TypeNameInterner,
    end: TypeNameInterner,
)
    requires
        forall|d: DeclRef| #[trigger] res.contains_key(d) ==> d.source_index != src,
    ensures
        source_resolved(res, src, Seq::empty(), Seq::empty(), m, names, aliases, start, end),
{
}

/// What resolving source `s` (`source`) left in `res`: `m` is the use map
/// its `# use` clauses built over the declared names by namespace
/// `kids`, and `skipped` says which top-level declarations `only`
/// skipped; see [`source_resolved`]; a declaration is skipped only when
/// `only` is given and did not select it at the start, and walked only
/// when `only` is absent or selected it by the end.
pub open spec fn source_outcome(
    res: Map<DeclRef, Seq<ResolvedRef>>,
    s: u32,
    source: crate::source::Source,
    m: Map<u32, u32>,
    skipped: Seq<bool>,
    only: Option<Set<u32>>,
    names: Set<u32>,
    aliases: Map<u32, (TypeNameSym, Seq<TypeNameSym>)>,
    kids: Map<u32, Set<u32>>,
    start: TypeNameInterner,
    end: TypeNameInterner,
) -> bool {
    let ds = source.signature.declarations@;
    &&& uses_built(m, source.signature.uses@, kids, end)
    &&& source_resolved(res, s, ds, skipped, m, names, aliases, start, end)
    &&& forall|i: int| 0 <= i < ds.len() && #[trigger] skipped[i] ==> (only matches Some(o) && !selected(start, ds[i], o))
    &&& forall|i: int| 0 <= i < ds.len() && !#[trigger] skipped[i] ==> (only matches Some(o) ==> selected(end, ds[i], o))
}

/// The number string `text` is interned under.
pub open spec fn sym_number(it: TypeNameInterner, text: Seq<char>) -> Sym {
    Sym(it.syms().index_of(text) as u32)
}

/// The interned strings of `texts`, in order.
pub open spec fn sym_path(it: TypeNameInterner, texts: Seq<Seq<char>>) -> Seq<Sym> {
    texts.map_values(|t: Seq<char>| sym_number(it, t))
}

/// `after` is use map `before` with clause `c` applied, reading names in
/// `it` and the declared names by namespace in `kids`: `use A::B as C`
/// binds `C` (or `B`) to `A::B`; `use A::*` binds the last segment of
/// each declared name directly in `A` to one such name.
pub open spec fn clause_applied(
    before: Map<u32, u32>,
    after: Map<u32, u32>,
    c: UseClause,
    kids: Map<u32, Set<u32>>,
    it: TypeNameInterner,
) -> bool {
    match c {
        UseClause::Single { target, new_name } => {
            let t = value_number(it, ref_value(target));
            &&& value_interned(it, ref_value(target))
            &&& new_name matches Some(n) ==> it.syms().contains(n@)
            &&& after == before.insert(
                match new_name {
                    Some(n) => sym_number(it, n@).0,
                    None => it@[t.0 as int].1.0,
                },
                t.0,
            )
        },
        UseClause::Wildcard { absolute, path } => {
            let ps = sym_path(it, texts(path@));
            &&& forall|i: int| 0 <= i < path@.len() ==> it.syms().contains(#[trigger] path@[i]@)
            &&& it.spaces().contains((ps, absolute))
            &&& ({
                let ns = it.spaces().index_of((ps, absolute)) as u32;
                if kids.contains_key(ns) {
                    &&& after.dom() == before.dom() + Set::new(|k: u32| named_by(kids[ns], it, k))
                    &&& forall|k: u32| #[trigger] after.contains_key(k) ==> if named_by(kids[ns], it, k) {
                        kids[ns].contains(after[k]) && it@[after[k] as int].1.0 == k
                    } else {
                        after[k] == before[k]
                    }
                } else {
                    after == before
                }
            })
        },
    }
}

/// `chain` steps through the use maps of `uses` applied in order to an
/// empty map: one map more than clauses.
pub open spec fn uses_chain(chain: Seq<Map<u32, u32>>, uses: Seq<UseClause>, kids: Map<u32, Set<u32>>, it: TypeNameInterner) -> bool {
    &&& chain.len() == uses.len() + 1
    &&& chain[0] == Map::<u32, u32>::empty()
    &&& forall|i: int| 0 <= i < uses.len() ==> clause_applied(#[trigger] chain[i], chain[i + 1], uses[i], kids, it)
}

/// Use map `m` is what applying `uses` in order to an empty map gives.
pub open spec fn uses_built(m: Map<u32, u32>, uses: Seq<UseClause>, kids: Map<u32, Set<u32>>, it: TypeNameInterner) -> bool {
    exists|chain: Seq<Map<u32, u32>>| #[trigger] uses_chain(chain, uses, kids, it) && chain.last() == m
}

/// Declared names by namespace stay interned.
pub open spec fn kids_interned(kids: Map<u32, Set<u32>>, it: TypeNameInterner) -> bool {
    forall|ns: u32, t: u32| #[trigger] kids.contains_key(ns) && #[trigger] kids[ns].contains(t) ==> (t as int) < it@.len()
}

proof fn lemma_sym_number_stable(it: TypeNameInterner, it2: TypeNameInterner, text: Seq<char>)
    requires
        it.wf(),
        it2.wf(),
        it2.extends(&it),
        it.syms().contains(text),
    ensures
        it2.syms().contains(text),
        sym_number(it2, text) == sym_number(it, text),
{
    it.lemma_wf_facts();
    it2.lemma_wf_facts();
    let i = it.syms().index_of(text);
    assert(it2.syms()[i] == text);
    let j = it2.syms().index_of(text);
    if i != j {
        assert(it2.syms()[j] == text);
    }
}

/// A clause applied against an interner stays so against a longer one.
pub proof fn lemma_clause_applied_later(
    before: Map<u32, u32>,
    after: Map<u32, u32>,
    c: UseClause,
    kids: Map<u32, Set<u32>>,
    it: TypeNameInterner,
    it2: TypeNameInterner,
)
    requires
        clause_applied(before, after, c, kids, it),
        it.wf(),
        it2.wf(),
        it2.extends(&it),
        kids_interned(kids, it),
    ensures
        clause_applied(before, after, c, kids, it2),
{
    it.lemma_wf_facts();
    it2.lemma_wf_facts();
    match c {
        UseClause::Single { target, new_name } => {
            let t = value_number(it, ref_value(target));
            it2.lemma_value_interned_stable(&it, ref_value(target));
            let t2 = value_number(it2, ref_value(target));
            it2.lemma_value_stable(&it, t);
            it2.lemma_value_injective(t, t2);
            assert(it2@[t.0 as int] == it@[t.0 as int]);
            if let Some(n) = new_name {
                lemma_sym_number_stable(it, it2, n@);
            }
        },
        UseClause::Wildcard { absolute, path } => {
            let ps = sym_path(it, texts(path@));
            assert forall|i: int| 0 <= i < path@.len() implies it2.syms().contains(#[trigger] path@[i]@) by {
                lemma_sym_number_stable(it, it2, path@[i]@);
            }
            assert(sym_path(it2, texts(path@)) =~= ps) by {
                assert forall|i: int| 0 <= i < ps.len() implies sym_path(it2, texts(path@))[i] == ps[i] by {
                    assert(texts(path@)[i] == path@[i]@);
                    lemma_sym_number_stable(it, it2, path@[i]@);
                }
            }
            let v = (ps, absolute);
            let n = it.spaces().index_of(v);
            assert(it2.spaces()[n] == v);
            let n2 = it2.spaces().index_of(v);
            if n != n2 {
                assert(it2.spaces()[n2] == v);
            }
            let ns = n as u32;
            if kids.contains_key(ns) {
                assert forall|k: u32| named_by(kids[ns], it2, k) == named_by(kids[ns], it, k) by {
                    if named_by(kids[ns], it, k) {
                        let w = choose|w: u32| #[trigger] kids[ns].contains(w) && it@[w as int].1.0 == k;
                        assert(it2@[w as int] == it@[w as int]);
                    }
                    if named_by(kids[ns], it2, k) {
                        let w = choose|w: u32| #[trigger] kids[ns].contains(w) && it2@[w as int].1.0 == k;
                        assert(it2@[w as int] == it@[w as int]);
                    }
                }
                assert(Set::new(|k: u32| named_by(kids[ns], it2, k)) =~= Set::new(|k: u32| named_by(kids[ns], it, k)));
                assert forall|k: u32| #[trigger] after.contains_key(k) implies if named_by(kids[ns], it2, k) {
                    kids[ns].contains(after[k]) && it2@[after[k] as int].1.0 == k
                } else {
                    after[k] == before[k]
                } by {
                    if named_by(kids[ns], it, k) {
                        assert(it2@[after[k] as int] == it@[after[k] as int]);
                    }
                }
            }
        },
    }
}

/// A use map built against an interner stays so against a longer one.
pub proof fn lemma_uses_built_later(
    m: Map<u32, u32>,
    uses: Seq<UseClause>,
    kids: Map<u32, Set<u32>>,
    it: TypeNameInterner,
    it2: TypeNameInterner,
)
    requires
        uses_built(m, uses, kids, it),
        it.wf(),
        it2.wf(),
        it2.extends(&it),
        kids_interned(kids, it),
    ensures
        uses_built(m, uses, kids, it2),
{
    let chain = choose|chain: Seq<Map<u32, u32>>| #[trigger] uses_chain(chain, uses, kids, it) && chain.last() == m;
    assert forall|i: int| 0 <= i < uses.len() implies clause_applied(#[trigger] chain[i], chain[i + 1], uses[i], kids, it2) by {
        lemma_clause_applied_later(chain[i], chain[i + 1], uses[i], kids, it, it2);
    }
    assert(uses_chain(chain, uses, kids, it2));
}

/// The declarations of a declaration's tree are its pre-order: the
/// numbering resolution records outcomes under is the one declarations
/// are looked up by.
pub proof fn lemma_decl_tree_is_preorder(d: Decl, cv: Seq<NameValue>)
    ensures
        decl_tree(d, cv).len() == decl_preorder(d).len(),
        forall|k: int| 0 <= k < decl_tree(d, cv).len() ==> (#[trigger] decl_tree(d, cv)[k]).0 == decl_preorder(d)[k],
    decreases d,
{
    match d {
        Decl::Class { name, members, .. } => lemma_members_tree_is_preorder(members@, inner_scopes(cv, name)),
        Decl::Module { name, members, .. } => lemma_members_tree_is_preorder(members@, inner_scopes(cv, name)),
        _ => {},
    }
    let t = decl_tree(d, cv);
    let p = decl_preorder(d);
    assert forall|k: int| 0 <= k < t.len() implies (#[trigger] t[k]).0 == p[k] by {
        if k > 0 {
            match d {
                Decl::Class { name, members, .. } => {
                    assert(t[k] == members_tree(members@, inner_scopes(cv, name))[k - 1]);
                    assert(p[k] == members_preorder(members@)[k - 1]);
                },
                Decl::Module { name, members, .. } => {
                    assert(t[k] == members_tree(members@, inner_scopes(cv, name))[k - 1]);
                    assert(p[k] == members_preorder(members@)[k - 1]);
                },
                _ => {},
            }
        }
    }
}

pub proof fn lemma_members_tree_is_preorder(ms: Seq<Member>, cv: Seq<NameValue>)
    ensures
        members_tree(ms, cv).len() == members_preorder(ms).len(),
        forall|k: int| 0 <= k < members_tree(ms, cv).len() ==> (#[trigger] members_tree(ms, cv)[k]).0 == members_preorder(ms)[k],
    decreases ms,
{
    if ms.len() > 0 {
        lemma_members_tree_is_preorder(ms.drop_last(), cv);
        let a = members_tree(ms.drop_last(), cv);
        let pa = members_preorder(ms.drop_last());
        match ms.last() {
            Member::Decl(d) => {
                lemma_decl_tree_is_preorder(d, cv);
                let t = members_tree(ms, cv);
                assert forall|k: int| 0 <= k < t.len() implies (#[trigger] t[k]).0 == members_preorder(ms)[k] by {
                    if k < a.len() {
                        assert(t[k] == a[k]);
                        assert(members_preorder(ms)[k] == pa[k]);
                    } else {
                        assert(t[k] == decl_tree(d, cv)[k - a.len()]);
                        assert(members_preorder(ms)[k] == decl_preorder(d)[k - a.len()]);
                    }
                }
            },
            Member::Refs(_) => {
                assert(members_tree(ms, cv) =~= a);
                assert(members_preorder(ms) =~= pa);
            },
        }
    }
}

/// A file's tree lists its declarations in the pre-order declarations
/// are looked up by.
pub proof fn lemma_decls_tree_is_preorder(ds: Seq<Decl>)
    ensures
        decls_tree(ds).len() == decls_preorder(ds).len(),
        forall|k: int| 0 <= k < decls_tree(ds).len() ==> (#[trigger] decls_tree(ds)[k]).0 == decls_preorder(ds)[k],
    decreases ds.len(),
{
    if ds.len() > 0 {
        lemma_decls_tree_is_preorder(ds.drop_last());
        lemma_decl_tree_is_preorder(ds.last(), Seq::empty());
        let a = decls_tree(ds.drop_last());
        let t = tag(decl_tree(ds.last(), Seq::empty()), ds.len() - 1);
        assert forall|k: int| 0 <= k < decls_tree(ds).len() implies (#[trigger] decls_tree(ds)[k]).0 == decls_preorder(ds)[k] by {
            if k < a.len() {
                assert(decls_tree(ds)[k] == a[k]);
                assert(decls_preorder(ds)[k] == decls_preorder(ds.drop_last())[k]);
            } else {
                assert(decls_tree(ds)[k] == t[k - a.len()]);
                assert(decls_preorder(ds)[k] == decl_preorder(ds.last())[k - a.len()]);
            }
        }
    }
}

} // verus!
