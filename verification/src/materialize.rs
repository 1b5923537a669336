//! Bookkeeping for turning an environment back into Ruby objects: the
//! cursor that hands out recorded resolutions in walk order, per-run
//! caches indexed by interned numbers, the cache switches and the timed
//! phases.
use vstd::prelude::*;

use crate::env::resolution::{Resolution, ResolvedRef};
use crate::env::use_map::set_elements;
use crate::env::{ClassLikeEntry, DeclEntry, DeclRef, Environment};
use crate::interner::{NamespaceSym, Sym, TypeNameSym};

verus! {

/// Where the resolution cursor stands: the declaration's recorded
/// outcomes, how many were handed out, and the source being walked.
#[derive(Clone, Copy)]
pub struct CursorState<'a> {
    pub current_resolutions: Option<&'a [ResolvedRef]>,
    pub cursor: usize,
    pub source_index: u32,
}

/// Hands out the outcomes recorded for a declaration in the order the
/// resolver recorded them.
pub struct ResolutionCursor<'a> {
    pub resolution: Option<&'a Resolution>,
    pub current_resolutions: Option<&'a [ResolvedRef]>,
    pub cursor: usize,
    pub source_index: u32,
}

impl<'a> ResolutionCursor<'a> {
    pub fn new(resolution: Option<&'a Resolution>, source_index: u32) -> (r: Self)
        ensures
            r.resolution == resolution,
            r.current_resolutions is None,
            r.cursor == 0,
            r.source_index == source_index,
    {
        ResolutionCursor { resolution, current_resolutions: None, cursor: 0, source_index }
    }

    /// The cursor's position, to come back to after a nested walk.
    pub fn save_cursor(&self) -> (s: CursorState<'a>)
        ensures
            s.current_resolutions == self.current_resolutions,
            s.cursor == self.cursor,
            s.source_index == self.source_index,
    {
        CursorState { current_resolutions: self.current_resolutions, cursor: self.cursor, source_index: self.source_index }
    }

    /// Go back to a saved position.
    pub fn restore_cursor(&mut self, state: CursorState<'a>)
        ensures
            final(self).resolution == old(self).resolution,
            final(self).current_resolutions == state.current_resolutions,
            final(self).cursor == state.cursor,
            final(self).source_index == state.source_index,
    {
        self.current_resolutions = state.current_resolutions;
        self.cursor = state.cursor;
        self.source_index = state.source_index;
    }

    /// Start handing out `decl_ref`'s recorded outcomes from the first.
    pub fn enter_decl(&mut self, decl_ref: DeclRef)
        requires
            old(self).resolution matches Some(r) ==> r.wf(),
        ensures
            final(self).resolution == old(self).resolution,
            final(self).source_index == old(self).source_index,
            final(self).cursor == 0,
            match old(self).resolution {
                None => final(self).current_resolutions is None,
                Some(r) => match final(self).current_resolutions {
                    Some(s) => r@.contains_key(decl_ref) && s@ == r@[decl_ref],
                    None => !r@.contains_key(decl_ref),
                },
            },
    {
        self.current_resolutions = match self.resolution {
            Some(r) => r.get(decl_ref),
            None => None,
        };
        self.cursor = 0;
    }

    /// The next recorded outcome, if any is left.
    pub fn pull_resolution(&mut self) -> (r: Option<ResolvedRef>)
        ensures
            final(self).resolution == old(self).resolution,
            final(self).current_resolutions == old(self).current_resolutions,
            final(self).source_index == old(self).source_index,
            match old(self).current_resolutions {
                Some(s) => if old(self).cursor < s@.len() {
                    r == Some(s@[old(self).cursor as int]) && final(self).cursor == old(self).cursor + 1
                } else {
                    r is None && final(self).cursor == old(self).cursor
                },
                None => r is None && final(self).cursor == old(self).cursor,
            },
    {
        let slice = match self.current_resolutions {
            Some(s) => s,
            None => return None,
        };
        if self.cursor < slice.len() {
            let r = slice[self.cursor];
            self.cursor = self.cursor + 1;
            Some(r)
        } else {
            None
        }
    }
}

/// A cache of values by slot number: empty until a slot is filled.
pub struct SlotCache<V> {
    slots: Vec<Option<V>>,
}

impl<V: Copy> SlotCache<V> {
    /// The filled slots.
    pub closed spec fn filled(&self) -> Map<int, V> {
        Map::new(
            |i: int| 0 <= i < self.slots@.len() && self.slots@[i] is Some,
            |i: int| self.slots@[i]->0,
        )
    }

    /// A cache with `n` empty slots ready.
    pub fn with_capacity(n: usize) -> (r: Self)
        ensures
            r.filled() == Map::<int, V>::empty(),
    {
        let mut slots: Vec<Option<V>> = Vec::new();
        let mut i: usize = 0;
        while i < n
            invariant
                i <= n,
                slots@.len() == i,
                forall|j: int| 0 <= j < i ==> slots@[j] is None,
            decreases n - i,
        {
            slots.push(None);
            i = i + 1;
        }
        let r = SlotCache { slots };
        proof {
            assert(r.filled() =~= Map::<int, V>::empty());
        }
        r
    }

    /// The value in slot `idx`, if filled.
    pub fn get(&self, idx: usize) -> (r: Option<V>)
        ensures
            r == (if self.filled().contains_key(idx as int) {
                Some(self.filled()[idx as int])
            } else {
                None
            }),
    {
        if idx < self.slots.len() {
            self.slots[idx]
        } else {
            None
        }
    }

    /// Fill slot `idx` with `value`, growing the cache as needed.
    pub fn insert(&mut self, idx: usize, value: V)
        requires
            idx < usize::MAX,
        ensures
            final(self).filled() == old(self).filled().insert(idx as int, value),
    {
        while self.slots.len() <= idx
            invariant
                idx < usize::MAX,
                forall|j: int| 0 <= j < old(self).slots@.len() ==> self.slots@[j] == old(self).slots@[j],
                forall|j: int| old(self).slots@.len() <= j < self.slots@.len() ==> self.slots@[j] is None,
                self.slots@.len() >= old(self).slots@.len(),
                self.slots@.len() <= (if old(self).slots@.len() > idx + 1 { old(self).slots@.len() as int } else { idx + 1 }),
            decreases idx + 1 - self.slots@.len(),
        {
            self.slots.push(None);
        }
        self.slots.set(idx, Some(value));
        proof {
            assert(self.filled() =~= old(self).filled().insert(idx as int, value));
        }
    }
}

/// The slot of a namespace or type name, materialized relative or
/// absolute: `2 * number`, plus one when absolute.
pub open spec fn marked_slot(n: u32, absolute: bool) -> int {
    2 * n + if absolute {
        1int
    } else {
        0int
    }
}

fn marked_slot_exec(n: u32, absolute: bool) -> (s: usize)
    requires
        marked_slot(n, absolute) < usize::MAX,
    ensures
        s as int == marked_slot(n, absolute),
{
    (n as usize) * 2 + if absolute {
        1
    } else {
        0
    }
}

/// Cached values per interned string.
pub struct SymbolCache<V> {
    pub slots: SlotCache<V>,
}

impl<V: Copy> SymbolCache<V> {
    pub fn with_capacity(n: usize) -> (r: Self)
        ensures
            r.slots.filled() == Map::<int, V>::empty(),
    {
        SymbolCache { slots: SlotCache::with_capacity(n) }
    }

    pub fn get(&self, sym: Sym) -> (r: Option<V>)
        ensures
            r == (if self.slots.filled().contains_key(sym.0 as int) {
                Some(self.slots.filled()[sym.0 as int])
            } else {
                None
            }),
    {
        self.slots.get(sym.0 as usize)
    }

    pub fn insert(&mut self, sym: Sym, value: V)
        requires
            (sym.0 as int) < usize::MAX,
        ensures
            final(self).slots.filled() == old(self).slots.filled().insert(sym.0 as int, value),
    {
        self.slots.insert(sym.0 as usize, value)
    }
}

/// Cached values per namespace, relative and absolute apart.
pub struct NamespaceCache<V> {
    pub slots: SlotCache<V>,
}

impl<V: Copy> NamespaceCache<V> {
    /// A cache with room for `n` namespaces (`2 * n` slots).
    pub fn with_capacity(n: usize) -> (r: Self)
        ensures
            r.slots.filled() == Map::<int, V>::empty(),
    {
        NamespaceCache { slots: SlotCache::with_capacity(doubled(n)) }
    }

    pub fn get(&self, sym: NamespaceSym, absolute: bool) -> (r: Option<V>)
        requires
            marked_slot(sym.0, absolute) < usize::MAX,
        ensures
            r == (if self.slots.filled().contains_key(marked_slot(sym.0, absolute)) {
                Some(self.slots.filled()[marked_slot(sym.0, absolute)])
            } else {
                None
            }),
    {
        self.slots.get(marked_slot_exec(sym.0, absolute))
    }

    pub fn insert(&mut self, sym: NamespaceSym, absolute: bool, value: V)
        requires
            marked_slot(sym.0, absolute) < usize::MAX,
        ensures
            final(self).slots.filled() == old(self).slots.filled().insert(marked_slot(sym.0, absolute), value),
    {
        self.slots.insert(marked_slot_exec(sym.0, absolute), value)
    }
}

/// Cached values per type name, relative and absolute apart.
pub struct TypeNameCache<V> {
    pub slots: SlotCache<V>,
}

impl<V: Copy> TypeNameCache<V> {
    /// A cache with room for `n` type names (`2 * n` slots).
    pub fn with_capacity(n: usize) -> (r: Self)
        ensures
            r.slots.filled() == Map::<int, V>::empty(),
    {
        TypeNameCache { slots: SlotCache::with_capacity(doubled(n)) }
    }

    pub fn get(&self, sym: TypeNameSym, absolute: bool) -> (r: Option<V>)
        requires
            marked_slot(sym.0, absolute) < usize::MAX,
        ensures
            r == (if self.slots.filled().contains_key(marked_slot(sym.0, absolute)) {
                Some(self.slots.filled()[marked_slot(sym.0, absolute)])
            } else {
                None
            }),
    {
        self.slots.get(marked_slot_exec(sym.0, absolute))
    }

    pub fn insert(&mut self, sym: TypeNameSym, absolute: bool, value: V)
        requires
            marked_slot(sym.0, absolute) < usize::MAX,
        ensures
            final(self).slots.filled() == old(self).slots.filled().insert(marked_slot(sym.0, absolute), value),
    {
        self.slots.insert(marked_slot_exec(sym.0, absolute), value)
    }
}

/// Cached values per namespace path (whatever the namespace's
/// absoluteness).
pub struct PathArrayCache<V> {
    pub slots: SlotCache<V>,
}

impl<V: Copy> PathArrayCache<V> {
    pub fn with_capacity(n: usize) -> (r: Self)
        ensures
            r.slots.filled() == Map::<int, V>::empty(),
    {
        PathArrayCache { slots: SlotCache::with_capacity(n) }
    }

    pub fn get(&self, sym: NamespaceSym) -> (r: Option<V>)
        ensures
            r == (if self.slots.filled().contains_key(sym.0 as int) {
                Some(self.slots.filled()[sym.0 as int])
            } else {
                None
            }),
    {
        self.slots.get(sym.0 as usize)
    }

    pub fn insert(&mut self, sym: NamespaceSym, value: V)
        requires
            (sym.0 as int) < usize::MAX,
        ensures
            final(self).slots.filled() == old(self).slots.filled().insert(sym.0 as int, value),
    {
        self.slots.insert(sym.0 as usize, value)
    }
}

/// `2 * n`, saturating at `usize::MAX`.
fn doubled(n: usize) -> (r: usize)
    ensures
        r == (if 2 * n > usize::MAX { usize::MAX as int } else { 2 * n }),
{
    if n > usize::MAX / 2 {
        usize::MAX
    } else {
        n * 2
    }
}

/// A cache switch's setting: on unless set to `0`, `off` or `false`.
pub open spec fn switch_on(value: Option<Seq<char>>) -> bool {
    match value {
        None => true,
        Some(v) => !(v == "0"@ || v == "off"@ || v == "false"@),
    }
}

/// Whether a cache is on, given its switch's setting (`None` when unset).
pub fn flag_enabled(value: Option<&str>) -> (b: bool)
    ensures
        b == switch_on(match value { Some(v) => Some(v@), None => None }),
{
    match value {
        None => true,
        Some(v) => {
            let c = crate::text::chars_of(v);
            let zero = crate::text::chars_of("0");
            let off = crate::text::chars_of("off");
            let no = crate::text::chars_of("false");
            !(crate::text::chars_eq(&c, &zero) || crate::text::chars_eq(&c, &off) || crate::text::chars_eq(&c, &no))
        },
    }
}

/// Which of the materialization caches are on.
#[derive(Debug, Clone, Copy)]
pub struct CacheFlags {
    pub sym: bool,
    pub ns: bool,
    pub tn: bool,
    pub path: bool,
}

impl CacheFlags {
    /// The flags for the given switch settings (`None` when unset).
    pub fn from_settings(sym: Option<&str>, ns: Option<&str>, tn: Option<&str>, path: Option<&str>) -> (r: Self)
        ensures
            r.sym == switch_on(match sym { Some(v) => Some(v@), None => None }),
            r.ns == switch_on(match ns { Some(v) => Some(v@), None => None }),
            r.tn == switch_on(match tn { Some(v) => Some(v@), None => None }),
            r.path == switch_on(match path { Some(v) => Some(v@), None => None }),
    {
        CacheFlags {
            sym: flag_enabled(sym),
            ns: flag_enabled(ns),
            tn: flag_enabled(tn),
            path: flag_enabled(path),
        }
    }
}

/// The timed phases of materialization.
#[derive(Debug, Clone, Copy, PartialEq, Eq, Structural)]
pub enum Phase {
    SourceRbs,
    Directives,
    Declaration,
    NestedDecl,
    Member,
    MethodType,
    Type,
    Location,
    TypeParam,
    AddSource,
}

/// Number of timed phases.
pub const PHASE_COUNT: usize = 10;

/// A phase's position in the report tables.
pub open spec fn phase_index(p: Phase) -> int {
    match p {
        Phase::SourceRbs => 0,
        Phase::Directives => 1,
        Phase::Declaration => 2,
        Phase::NestedDecl => 3,
        Phase::Member => 4,
        Phase::MethodType => 5,
        Phase::Type => 6,
        Phase::Location => 7,
        Phase::TypeParam => 8,
        Phase::AddSource => 9,
    }
}

impl Phase {
    /// This phase's position in the report tables.
    pub fn index(&self) -> (i: usize)
        ensures
            i as int == phase_index(*self),
            i < PHASE_COUNT,
    {
        match self {
            Phase::SourceRbs => 0,
            Phase::Directives => 1,
            Phase::Declaration => 2,
            Phase::NestedDecl => 3,
            Phase::Member => 4,
            Phase::MethodType => 5,
            Phase::Type => 6,
            Phase::Location => 7,
            Phase::TypeParam => 8,
            Phase::AddSource => 9,
        }
    }
}

/// One line of the phase report: the phase's table position, its own
/// time in nanoseconds, its number of calls and the whole nanoseconds
/// per call.
#[derive(Debug, Clone, Copy, PartialEq, Eq)]
pub struct PhaseRow {
    pub index: usize,
    pub nanos: u64,
    pub calls: u64,
    pub per_call: u64,
}

/// Row `a` is reported before row `b`: more time first, and among equal
/// times the earlier phase first.
pub open spec fn row_before(a: PhaseRow, b: PhaseRow) -> bool {
    a.nanos > b.nanos || (a.nanos == b.nanos && a.index < b.index)
}

/// `row` reports phase `row.index` of the counters `nanos` and `calls`,
/// a phase that was called at least once.
pub open spec fn row_of(row: PhaseRow, nanos: Seq<u64>, calls: Seq<u64>) -> bool {
    &&& row.index < nanos.len()
    &&& row.index < calls.len()
    &&& calls[row.index as int] != 0
    &&& row.nanos == nanos[row.index as int]
    &&& row.calls == calls[row.index as int]
    &&& row.per_call == nanos[row.index as int] / calls[row.index as int]
}

/// `rows` lists, in report order, one row for each phase below `n` that
/// was called at least once.
pub open spec fn report_rows(rows: Seq<PhaseRow>, nanos: Seq<u64>, calls: Seq<u64>, n: int) -> bool {
    &&& forall|x: int| 0 <= x < rows.len() ==> row_of(#[trigger] rows[x], nanos, calls) && rows[x].index < n
    &&& forall|x: int, y: int| 0 <= x < y < rows.len() ==> row_before(#[trigger] rows[x], #[trigger] rows[y])
    &&& forall|j: int|
        0 <= j < n && calls[j] != 0 ==> exists|x: int| 0 <= x < rows.len() && #[trigger] rows[x].index == j
}

/// The rows of the phase report: every phase that was called at least
/// once, the slowest first (ties in phase order), with its time, calls
/// and whole nanoseconds per call. `nanos[i]` and `calls[i]` are phase
/// `i`'s counters.
pub fn phase_report_rows(nanos: &Vec<u64>, calls: &Vec<u64>) -> (rows: Vec<PhaseRow>)
    requires
        nanos@.len() == calls@.len(),
    ensures
        report_rows(rows@, nanos@, calls@, nanos@.len() as int),
{
    let mut out: Vec<PhaseRow> = Vec::new();
    let mut i: usize = 0;
    while i < nanos.len()
        invariant
            nanos@.len() == calls@.len(),
            i <= nanos@.len(),
            report_rows(out@, nanos@, calls@, i as int),
        decreases nanos.len() - i,
    {
        if calls[i] != 0 {
            let row = PhaseRow { index: i, nanos: nanos[i], calls: calls[i], per_call: nanos[i] / calls[i] };
            let mut p: usize = 0;
            while p < out.len() && out[p].nanos >= row.nanos
                invariant
                    p <= out@.len(),
                    forall|x: int| 0 <= x < p ==> (#[trigger] out@[x]).nanos >= row.nanos,
                decreases out.len() - p,
            {
                p = p + 1;
            }
            let ghost old_out = out@;
            proof {
                assert forall|x: int| p <= x < old_out.len() implies (#[trigger] old_out[x]).nanos < row.nanos by {
                    if x > p {
                        assert(row_before(old_out[p as int], old_out[x]));
                    }
                }
            }
            out.insert(p, row);
            proof {
                assert(out@ == old_out.insert(p as int, row));
                assert forall|x: int| 0 <= x < out@.len() implies row_of(#[trigger] out@[x], nanos@, calls@)
                    && out@[x].index < i + 1 by {
                    if x < p {
                        assert(out@[x] == old_out[x]);
                    } else if x > p {
                        assert(out@[x] == old_out[x - 1]);
                    }
                }
                assert forall|x: int, y: int| 0 <= x < y < out@.len() implies row_before(
                    #[trigger] out@[x],
                    #[trigger] out@[y],
                ) by {
                    if y < p {
                        assert(out@[x] == old_out[x] && out@[y] == old_out[y]);
                    } else if y == p {
                        assert(out@[x] == old_out[x]);
                        assert(old_out[x].index < i);
                    } else if x < p {
                        assert(out@[x] == old_out[x] && out@[y] == old_out[y - 1]);
                    } else if x == p {
                        assert(out@[y] == old_out[y - 1]);
                    } else {
                        assert(out@[x] == old_out[x - 1] && out@[y] == old_out[y - 1]);
                    }
                }
                assert forall|j: int| 0 <= j < i + 1 && calls@[j] != 0 implies exists|x: int|
                    0 <= x < out@.len() && #[trigger] out@[x].index == j by {
                    if j == i {
                        assert(out@[p as int].index == j);
                    } else {
                        let x0 = choose|x: int| 0 <= x < old_out.len() && #[trigger] old_out[x].index == j;
                        if x0 < p {
                            assert(out@[x0] == old_out[x0]);
                        } else {
                            assert(out@[x0 + 1] == old_out[x0]);
                        }
                    }
                }
            }
        } else {
            proof {
                assert forall|j: int| 0 <= j < i + 1 && calls@[j] != 0 implies exists|x: int|
                    0 <= x < out@.len() && #[trigger] out@[x].index == j by {
                    assert(j != i);
                }
            }
        }
        i = i + 1;
    }
    out
}

/// The names of the declarations in `l` whose entry satisfies `p`, in
/// order.
pub open spec fn entries_where(l: Seq<(TypeNameSym, DeclEntry)>, p: spec_fn(DeclEntry) -> bool) -> Seq<TypeNameSym>
    decreases l.len(),
{
    if l.len() == 0 {
        Seq::empty()
    } else {
        let init = entries_where(l.drop_last(), p);
        if p(l.last().1) {
            init.push(l.last().0)
        } else {
            init
        }
    }
}

/// The interface declarations of `l`, in order.
pub open spec fn interface_entries(l: Seq<(TypeNameSym, DeclEntry)>) -> Seq<TypeNameSym> {
    entries_where(l, |e: DeclEntry| e matches DeclEntry::Interface)
}

/// The type-alias declarations of `l`, in order.
pub open spec fn type_alias_entries(l: Seq<(TypeNameSym, DeclEntry)>) -> Seq<TypeNameSym> {
    entries_where(l, |e: DeclEntry| e matches DeclEntry::TypeAlias)
}

/// The constant declarations of `l`, in order.
pub open spec fn constant_entries(l: Seq<(TypeNameSym, DeclEntry)>) -> Seq<TypeNameSym> {
    entries_where(l, |e: DeclEntry| e matches DeclEntry::Constant)
}

/// The class and module declarations of `l`, in order, each with which
/// of the two it is.
pub open spec fn class_like_entries(l: Seq<(TypeNameSym, DeclEntry)>) -> Seq<(TypeNameSym, ClassLikeEntry)>
    decreases l.len(),
{
    if l.len() == 0 {
        Seq::empty()
    } else {
        let init = class_like_entries(l.drop_last());
        match l.last().1 {
            DeclEntry::Class => init.push((l.last().0, ClassLikeEntry::Class)),
            DeclEntry::Module => init.push((l.last().0, ClassLikeEntry::Module)),
            _ => init,
        }
    }
}

/// The class and module aliases of `l`, in order, each with the name it
/// stands for.
pub open spec fn alias_entries(l: Seq<(TypeNameSym, DeclEntry)>) -> Seq<(TypeNameSym, TypeNameSym)>
    decreases l.len(),
{
    if l.len() == 0 {
        Seq::empty()
    } else {
        let init = alias_entries(l.drop_last());
        match l.last().1 {
            DeclEntry::ClassAlias(a) => init.push((l.last().0, a.old_name)),
            _ => init,
        }
    }
}

/// The declarations of an environment grouped the way Ruby's
/// `RBS::Environment` keeps them: class-likes, interfaces, type aliases,
/// constants, class aliases and globals.
pub struct EntryGroups {
    pub class_like: Vec<(TypeNameSym, ClassLikeEntry)>,
    pub interfaces: Vec<TypeNameSym>,
    pub type_aliases: Vec<TypeNameSym>,
    pub constants: Vec<TypeNameSym>,
    pub class_aliases: Vec<(TypeNameSym, TypeNameSym)>,
    pub globals: Vec<Sym>,
}

/// Group `env`'s declarations by entry kind, each group in declaration
/// order; globals once each.
pub fn entry_groups(env: &Environment) -> (g: EntryGroups)
    ensures
        g.class_like@ == class_like_entries(env.decl_order()),
        g.interfaces@ == interface_entries(env.decl_order()),
        g.type_aliases@ == type_alias_entries(env.decl_order()),
        g.constants@ == constant_entries(env.decl_order()),
        g.class_aliases@ == alias_entries(env.decl_order()),
        g.globals@.map_values(|s: Sym| s.0).to_set() == env.global_decls@,
        g.globals@.no_duplicates(),
{
    let ghost l = env.decl_order();
    let mut class_like: Vec<(TypeNameSym, ClassLikeEntry)> = Vec::new();
    let mut interfaces: Vec<TypeNameSym> = Vec::new();
    let mut type_aliases: Vec<TypeNameSym> = Vec::new();
    let mut constants: Vec<TypeNameSym> = Vec::new();
    let mut class_aliases: Vec<(TypeNameSym, TypeNameSym)> = Vec::new();
    let mut i: usize = 0;
    proof {
        assert(l.take(0) =~= Seq::<(TypeNameSym, DeclEntry)>::empty());
    }
    while i < env.decl_list.len()
        invariant
            l == env.decl_list@,
            i <= l.len(),
            class_like@ == class_like_entries(l.take(i as int)),
            interfaces@ == interface_entries(l.take(i as int)),
            type_aliases@ == type_alias_entries(l.take(i as int)),
            constants@ == constant_entries(l.take(i as int)),
            class_aliases@ == alias_entries(l.take(i as int)),
        decreases l.len() - i,
    {
        proof {
            assert(l.take(i + 1).drop_last() =~= l.take(i as int));
            assert(l.take(i + 1).last() == l[i as int]);
        }
        let name = env.decl_list[i].0;
        match &env.decl_list[i].1 {
            DeclEntry::Class => class_like.push((name, ClassLikeEntry::Class)),
            DeclEntry::Module => class_like.push((name, ClassLikeEntry::Module)),
            DeclEntry::Interface => interfaces.push(name),
            DeclEntry::TypeAlias => type_aliases.push(name),
            DeclEntry::Constant => constants.push(name),
            DeclEntry::ClassAlias(a) => class_aliases.push((name, a.old_name)),
        }
        i = i + 1;
    }
    proof {
        assert(l.take(l.len() as int) =~= l);
    }
    let numbers = set_elements(&env.global_decls);
    let mut globals: Vec<Sym> = Vec::new();
    let mut j: usize = 0;
    while j < numbers.len()
        invariant
            j <= numbers@.len(),
            globals@.len() == j,
            forall|k: int| 0 <= k < j ==> (#[trigger] globals@[k]).0 == numbers@[k],
        decreases numbers.len() - j,
    {
        globals.push(Sym(numbers[j]));
        j = j + 1;
    }
    proof {
        assert(globals@.map_values(|s: Sym| s.0) =~= numbers@);
        assert forall|a: int, b: int| 0 <= a < globals@.len() && 0 <= b < globals@.len() && a != b implies globals@[a] != globals@[b] by {
            assert(globals@[a].0 == numbers@[a]);
            assert(globals@[b].0 == numbers@[b]);
        }
    }
    EntryGroups { class_like, interfaces, type_aliases, constants, class_aliases, globals }
}

} // verus!
