//! The parts of a parsed RBS signature that the environment reads: the
//! declarations with their names, nested declarations and the type names
//! they mention, and the `# use` directives.
use vstd::prelude::*;

use crate::interner::{kind_of_name, NameValue};

verus! {

/// A type name as written in the source: `::`-anchored or not, its
/// namespace segments and its last segment.
#[derive(Debug, Clone)]
pub struct TypeNameRef {
    pub absolute: bool,
    pub path: Vec<String>,
    pub name: String,
}

/// A declaration. Each list of references holds the type names it
/// mentions in pre-order, grouped by the scope they are resolved in.
#[derive(Debug)]
pub enum Decl {
    /// `params` are resolved inside the class, `super_refs` (the super
    /// class and its arguments) in the enclosing scope.
    Class { name: TypeNameRef, params: Vec<TypeNameRef>, super_refs: Vec<TypeNameRef>, members: Vec<Member> },
    /// `params` holds the type parameters' and self types' references,
    /// all resolved inside the module.
    Module { name: TypeNameRef, params: Vec<TypeNameRef>, members: Vec<Member> },
    Interface { name: TypeNameRef, refs: Vec<TypeNameRef> },
    TypeAlias { name: TypeNameRef, refs: Vec<TypeNameRef> },
    Constant { name: TypeNameRef, refs: Vec<TypeNameRef> },
    Global { name: String, refs: Vec<TypeNameRef> },
    ClassAlias { new_name: TypeNameRef, old_name: TypeNameRef },
    ModuleAlias { new_name: TypeNameRef, old_name: TypeNameRef },
}

/// A class or module body item: a nested declaration, or a member with
/// the type names it mentions.
#[derive(Debug)]
pub enum Member {
    Decl(Decl),
    Refs(Vec<TypeNameRef>),
}

/// One clause of a `# use` directive.
#[derive(Debug, Clone)]
pub enum UseClause {
    /// `use A::B` or `use A::B as C`.
    Single { target: TypeNameRef, new_name: Option<String> },
    /// `use A::*`.
    Wildcard { absolute: bool, path: Vec<String> },
}

/// A parsed signature file: its `# use` clauses in order and its
/// top-level declarations.
#[derive(Debug)]
pub struct Signature {
    pub uses: Vec<UseClause>,
    pub declarations: Vec<Decl>,
}

/// The texts of a list of strings.
pub open spec fn texts(v: Seq<String>) -> Seq<Seq<char>> {
    v.map_values(|s: String| s@)
}

/// The type name a reference spells, its kind read from its name.
pub open spec fn ref_value(r: TypeNameRef) -> NameValue {
    (texts(r.path@), r.absolute, r.name@, kind_of_name(r.name@))
}

/// Interner entries interning `r` may add at most.
pub open spec fn ref_cost(r: TypeNameRef) -> nat {
    r.path@.len() + 3
}

/// Interner entries interning all of `rs` may add at most.
pub open spec fn refs_cost(rs: Seq<TypeNameRef>) -> nat
    decreases rs.len(),
{
    if rs.len() == 0 {
        0
    } else {
        refs_cost(rs.drop_last()) + ref_cost(rs.last())
    }
}

/// Interner entries inserting `d` may add at most.
pub open spec fn decl_cost(d: Decl) -> nat
    decreases d,
{
    match d {
        Decl::Class { name, params, super_refs, members } => ref_cost(name) + 3 + refs_cost(params@) + refs_cost(
            super_refs@,
        ) + members_cost(members@),
        Decl::Module { name, params, members } => ref_cost(name) + 3 + refs_cost(params@) + members_cost(members@),
        Decl::Interface { name, refs } => ref_cost(name) + 2 + refs_cost(refs@),
        Decl::TypeAlias { name, refs } => ref_cost(name) + 2 + refs_cost(refs@),
        Decl::Constant { name, refs } => ref_cost(name) + 2 + refs_cost(refs@),
        Decl::Global { name, refs } => 1 + refs_cost(refs@),
        Decl::ClassAlias { new_name, old_name } => ref_cost(new_name) + 2 + ref_cost(old_name),
        Decl::ModuleAlias { new_name, old_name } => ref_cost(new_name) + 2 + ref_cost(old_name),
    }
}

/// Interner entries inserting the members `ms` may add at most.
pub open spec fn members_cost(ms: Seq<Member>) -> nat
    decreases ms,
{
    if ms.len() == 0 {
        0
    } else {
        members_cost(ms.drop_last()) + match ms.last() {
            Member::Decl(d) => decl_cost(d),
            Member::Refs(rs) => refs_cost(rs@),
        }
    }
}

/// Interner entries inserting the declarations `ds` may add at most.
pub open spec fn decls_cost(ds: Seq<Decl>) -> nat
    decreases ds.len(),
{
    if ds.len() == 0 {
        0
    } else {
        decls_cost(ds.drop_last()) + decl_cost(ds.last())
    }
}

/// Declarations in `d`, itself and every nested one.
pub open spec fn decl_count(d: Decl) -> nat
    decreases d,
{
    1 + match d {
        Decl::Class { members, .. } => members_count(members@),
        Decl::Module { members, .. } => members_count(members@),
        _ => 0,
    }
}

/// Declarations nested among members `ms`.
pub open spec fn members_count(ms: Seq<Member>) -> nat
    decreases ms,
{
    if ms.len() == 0 {
        0
    } else {
        members_count(ms.drop_last()) + match ms.last() {
            Member::Decl(d) => decl_count(d),
            Member::Refs(_) => 0,
        }
    }
}

/// Declarations in `ds`, nested ones included.
pub open spec fn decls_count(ds: Seq<Decl>) -> nat
    decreases ds.len(),
{
    if ds.len() == 0 {
        0
    } else {
        decls_count(ds.drop_last()) + decl_count(ds.last())
    }
}

/// Interner entries applying the `# use` clauses may add at most.
pub open spec fn uses_cost(us: Seq<UseClause>) -> nat
    decreases us.len(),
{
    if us.len() == 0 {
        0
    } else {
        uses_cost(us.drop_last()) + match us.last() {
            UseClause::Single { target, new_name } => ref_cost(target) + 1,
            UseClause::Wildcard { absolute, path } => path@.len() + 1,
        }
    }
}

/// Work bound for loading and resolving a signature.
pub open spec fn signature_cost(sig: Signature) -> nat {
    decls_cost(sig.declarations@) + uses_cost(sig.uses@)
}

pub proof fn lemma_refs_len_le_cost(rs: Seq<TypeNameRef>)
    ensures
        rs.len() <= refs_cost(rs),
    decreases rs.len(),
{
    if rs.len() > 0 {
        lemma_refs_len_le_cost(rs.drop_last());
    }
}

pub proof fn lemma_decl_count_le_cost(d: Decl)
    ensures
        1 <= decl_count(d) <= decl_cost(d),
    decreases d,
{
    match d {
        Decl::Class { name, params, super_refs, members } => {
            lemma_members_count_le_cost(members@);
        },
        Decl::Module { name, params, members } => {
            lemma_members_count_le_cost(members@);
        },
        _ => {},
    }
}

pub proof fn lemma_members_count_le_cost(ms: Seq<Member>)
    ensures
        members_count(ms) <= members_cost(ms),
    decreases ms,
{
    if ms.len() > 0 {
        lemma_members_count_le_cost(ms.drop_last());
        match ms.last() {
            Member::Decl(d) => lemma_decl_count_le_cost(d),
            Member::Refs(_) => {},
        }
    }
}

/// The declarations of `d` in pre-order: `d` itself, then those nested
/// in its members.
pub open spec fn decl_preorder(d: Decl) -> Seq<Decl>
    decreases d,
{
    seq![d] + match d {
        Decl::Class { members, .. } => members_preorder(members@),
        Decl::Module { members, .. } => members_preorder(members@),
        _ => Seq::empty(),
    }
}

/// The declarations nested among members `ms`, in pre-order.
pub open spec fn members_preorder(ms: Seq<Member>) -> Seq<Decl>
    decreases ms,
{
    if ms.len() == 0 {
        Seq::empty()
    } else {
        members_preorder(ms.drop_last()) + match ms.last() {
            Member::Decl(d) => decl_preorder(d),
            Member::Refs(_) => Seq::empty(),
        }
    }
}

/// The declarations of `ds`, nested ones included, in pre-order: the
/// numbering of a source's declarations.
pub open spec fn decls_preorder(ds: Seq<Decl>) -> Seq<Decl>
    decreases ds.len(),
{
    if ds.len() == 0 {
        Seq::empty()
    } else {
        decls_preorder(ds.drop_last()) + decl_preorder(ds.last())
    }
}

/// A declaration's pre-order lists as many declarations as it counts:
/// looking declarations up and stepping past them number them alike.
pub proof fn lemma_decl_preorder_len(d: Decl)
    ensures
        decl_preorder(d).len() == decl_count(d),
    decreases d,
{
    match d {
        Decl::Class { members, .. } => lemma_members_preorder_len(members@),
        Decl::Module { members, .. } => lemma_members_preorder_len(members@),
        _ => {},
    }
}

/// Members' pre-order lists as many declarations as they count.
pub proof fn lemma_members_preorder_len(ms: Seq<Member>)
    ensures
        members_preorder(ms).len() == members_count(ms),
    decreases ms,
{
    if ms.len() > 0 {
        lemma_members_preorder_len(ms.drop_last());
        match ms.last() {
            Member::Decl(d) => lemma_decl_preorder_len(d),
            Member::Refs(_) => {},
        }
    }
}

/// A file's pre-order lists as many declarations as it counts.
pub proof fn lemma_decls_preorder_len(ds: Seq<Decl>)
    ensures
        decls_preorder(ds).len() == decls_count(ds),
    decreases ds.len(),
{
    if ds.len() > 0 {
        lemma_decls_preorder_len(ds.drop_last());
        lemma_decl_preorder_len(ds.last());
    }
}

/// The pre-order of the first `n` members is a prefix of that of all.
pub proof fn lemma_members_preorder_prefix(ms: Seq<Member>, n: int)
    requires
        0 <= n <= ms.len(),
    ensures
        members_preorder(ms.take(n)).len() <= members_preorder(ms).len(),
        forall|k: int| 0 <= k < members_preorder(ms.take(n)).len()
            ==> #[trigger] members_preorder(ms)[k] == members_preorder(ms.take(n))[k],
    decreases ms.len() - n,
{
    if n < ms.len() {
        lemma_members_preorder_prefix(ms, n + 1);
        assert(ms.take(n + 1).drop_last() =~= ms.take(n));
    } else {
        assert(ms.take(n) =~= ms);
    }
}

/// The pre-order of the first `n` declarations is a prefix of that of all.
pub proof fn lemma_decls_preorder_prefix(ds: Seq<Decl>, n: int)
    requires
        0 <= n <= ds.len(),
    ensures
        decls_preorder(ds.take(n)).len() <= decls_preorder(ds).len(),
        forall|k: int| 0 <= k < decls_preorder(ds.take(n)).len()
            ==> #[trigger] decls_preorder(ds)[k] == decls_preorder(ds.take(n))[k],
    decreases ds.len() - n,
{
    if n < ds.len() {
        lemma_decls_preorder_prefix(ds, n + 1);
        assert(ds.take(n + 1).drop_last() =~= ds.take(n));
    } else {
        assert(ds.take(n) =~= ds);
    }
}

/// `n`, or `u32::MAX` when it is not below: enough to compare a cost
/// against the interner's numbering limit.
pub open spec fn capped(n: int) -> int {
    if n < u32::MAX {
        n
    } else {
        u32::MAX as int
    }
}

fn cap_add(a: u64, b: u64) -> (c: u64)
    requires
        a <= u32::MAX,
        b <= u32::MAX,
    ensures
        c == capped(a + b),
{
    if a + b < u32::MAX as u64 {
        a + b
    } else {
        u32::MAX as u64
    }
}

/// `ref_cost(r)`, capped.
pub fn ref_cost_capped(r: &TypeNameRef) -> (c: u64)
    ensures
        c == capped(ref_cost(*r) as int),
{
    let n = r.path.len();
    if n < (u32::MAX - 3) as usize {
        (n + 3) as u64
    } else {
        u32::MAX as u64
    }
}

/// `refs_cost(rs)`, capped.
pub fn refs_cost_capped(rs: &Vec<TypeNameRef>) -> (c: u64)
    ensures
        c == capped(refs_cost(rs@) as int),
{
    let mut c: u64 = 0;
    let mut i: usize = 0;
    proof {
        assert(rs@.take(0) =~= Seq::<TypeNameRef>::empty());
    }
    while i < rs.len()
        invariant
            i <= rs@.len(),
            c == capped(refs_cost(rs@.take(i as int)) as int),
        decreases rs.len() - i,
    {
        proof {
            assert(rs@.take(i + 1).drop_last() =~= rs@.take(i as int));
        }
        let r = ref_cost_capped(&rs[i]);
        c = cap_add(c, r);
        i = i + 1;
    }
    proof {
        assert(rs@.take(rs@.len() as int) =~= rs@);
    }
    c
}

/// `decl_cost(d)`, capped.
pub fn decl_cost_capped(d: &Decl) -> (c: u64)
    ensures
        c == capped(decl_cost(*d) as int),
    decreases *d,
{
    match d {
        Decl::Class { name, params, super_refs, members } => {
            let a = cap_add(ref_cost_capped(name), 3);
            let b = cap_add(a, refs_cost_capped(params));
            let e = cap_add(b, refs_cost_capped(super_refs));
            cap_add(e, members_cost_capped(members))
        },
        Decl::Module { name, params, members } => {
            let a = cap_add(ref_cost_capped(name), 3);
            let b = cap_add(a, refs_cost_capped(params));
            cap_add(b, members_cost_capped(members))
        },
        Decl::Interface { name, refs } | Decl::TypeAlias { name, refs } | Decl::Constant { name, refs } => {
            let a = cap_add(ref_cost_capped(name), 2);
            cap_add(a, refs_cost_capped(refs))
        },
        Decl::Global { name, refs } => cap_add(1, refs_cost_capped(refs)),
        Decl::ClassAlias { new_name, old_name } | Decl::ModuleAlias { new_name, old_name } => {
            let a = cap_add(ref_cost_capped(new_name), 2);
            cap_add(a, ref_cost_capped(old_name))
        },
    }
}

fn members_cost_capped(ms: &Vec<Member>) -> (c: u64)
    ensures
        c == capped(members_cost(ms@) as int),
    decreases ms@,
{
    let mut c: u64 = 0;
    let mut i: usize = 0;
    proof {
        assert(ms@.take(0) =~= Seq::<Member>::empty());
    }
    while i < ms.len()
        invariant
            i <= ms@.len(),
            c == capped(members_cost(ms@.take(i as int)) as int),
        decreases ms.len() - i,
    {
        proof {
            assert(ms@.take(i + 1).drop_last() =~= ms@.take(i as int));
            assert(ms@.take(i + 1).last() == ms@[i as int]);
        }
        let r = match &ms[i] {
            Member::Decl(d) => decl_cost_capped(d),
            Member::Refs(rs) => refs_cost_capped(rs),
        };
        c = cap_add(c, r);
        i = i + 1;
    }
    proof {
        assert(ms@.take(ms@.len() as int) =~= ms@);
    }
    c
}

/// `decls_cost(ds)`, capped.
pub fn decls_cost_capped(ds: &Vec<Decl>) -> (c: u64)
    ensures
        c == capped(decls_cost(ds@) as int),
{
    let mut c: u64 = 0;
    let mut i: usize = 0;
    proof {
        assert(ds@.take(0) =~= Seq::<Decl>::empty());
    }
    while i < ds.len()
        invariant
            i <= ds@.len(),
            c == capped(decls_cost(ds@.take(i as int)) as int),
        decreases ds.len() - i,
    {
        proof {
            assert(ds@.take(i + 1).drop_last() =~= ds@.take(i as int));
        }
        let r = decl_cost_capped(&ds[i]);
        c = cap_add(c, r);
        i = i + 1;
    }
    proof {
        assert(ds@.take(ds@.len() as int) =~= ds@);
    }
    c
}

/// `signature_cost(sig)`, capped.
pub fn signature_cost_capped(sig: &Signature) -> (c: u64)
    ensures
        c == capped(signature_cost(*sig) as int),
{
    let mut u: u64 = 0;
    let mut i: usize = 0;
    let us = &sig.uses;
    proof {
        assert(us@.take(0) =~= Seq::<UseClause>::empty());
    }
    while i < us.len()
        invariant
            *us == sig.uses,
            i <= us@.len(),
            u == capped(uses_cost(us@.take(i as int)) as int),
        decreases us.len() - i,
    {
        proof {
            assert(us@.take(i + 1).drop_last() =~= us@.take(i as int));
            assert(us@.take(i + 1).last() == us@[i as int]);
        }
        let r = match &us[i] {
            UseClause::Single { target, .. } => cap_add(ref_cost_capped(target), 1),
            UseClause::Wildcard { path, .. } => {
                if path.len() < (u32::MAX - 1) as usize {
                    (path.len() + 1) as u64
                } else {
                    u32::MAX as u64
                }
            },
        };
        u = cap_add(u, r);
        i = i + 1;
    }
    proof {
        assert(us@.take(us@.len() as int) =~= us@);
    }
    cap_add(decls_cost_capped(&sig.declarations), u)
}

/// The references listed by the `Refs` members among `ms`, in order.
pub open spec fn member_refs(ms: Seq<Member>) -> Seq<TypeNameRef>
    decreases ms.len(),
{
    if ms.len() == 0 {
        Seq::empty()
    } else {
        member_refs(ms.drop_last()) + match ms.last() {
            Member::Refs(rs) => rs@,
            Member::Decl(_) => Seq::empty(),
        }
    }
}

/// The type names declaration `d` itself mentions (those of its nested
/// declarations aside).
pub open spec fn mentioned(d: Decl) -> Seq<TypeNameRef> {
    match d {
        Decl::Class { params, super_refs, members, .. } => params@ + super_refs@ + member_refs(members@),
        Decl::Module { params, members, .. } => params@ + member_refs(members@),
        Decl::Interface { refs, .. } => refs@,
        Decl::TypeAlias { refs, .. } => refs@,
        Decl::Constant { refs, .. } => refs@,
        Decl::Global { refs, .. } => refs@,
        Decl::ClassAlias { old_name, .. } => seq![old_name],
        Decl::ModuleAlias { old_name, .. } => seq![old_name],
    }
}

/// The name declaration `d` declares, as written in the source (for an
/// alias, its new name); a global declares no type name.
pub open spec fn declared_ref(d: Decl) -> Seq<TypeNameRef> {
    match d {
        Decl::Class { name, .. } => seq![name],
        Decl::Module { name, .. } => seq![name],
        Decl::Interface { name, .. } => seq![name],
        Decl::TypeAlias { name, .. } => seq![name],
        Decl::Constant { name, .. } => seq![name],
        Decl::Global { .. } => Seq::empty(),
        Decl::ClassAlias { new_name, .. } => seq![new_name],
        Decl::ModuleAlias { new_name, .. } => seq![new_name],
    }
}

} // verus!
