use librbs_core::env::resolution::{Resolution, ResolvedRef};
use librbs_core::env::insert::insert_rbs_source;
use librbs_core::env::{ClassLikeEntry, DeclRef, Environment};
use librbs_core::signature::{Decl, Signature, TypeNameRef};
use librbs_core::interner::{NamespaceSym, Sym, TypeNameSym};
use librbs_core::materialize::{
    entry_groups, flag_enabled, phase_report_rows, CacheFlags, NamespaceCache, PathArrayCache, Phase, ResolutionCursor, SlotCache, SymbolCache,
    TypeNameCache, PHASE_COUNT,
};

#[test]
fn cursor_hands_out_recorded_outcomes_in_order() {
    let mut r = Resolution::new();
    let d = DeclRef { source_index: 0, decl_index: 1 };
    r.record(d, ResolvedRef::Resolved(TypeNameSym(3)));
    r.record(d, ResolvedRef::Unresolved(TypeNameSym(4)));
    let mut cursor = ResolutionCursor::new(Some(&r), 0);
    cursor.enter_decl(d);
    assert_eq!(cursor.pull_resolution(), Some(ResolvedRef::Resolved(TypeNameSym(3))));
    assert_eq!(cursor.pull_resolution(), Some(ResolvedRef::Unresolved(TypeNameSym(4))));
    assert_eq!(cursor.pull_resolution(), None);
}

#[test]
fn cursor_save_and_restore_resumes_outer_declaration() {
    let mut r = Resolution::new();
    let outer = DeclRef { source_index: 0, decl_index: 0 };
    let inner = DeclRef { source_index: 0, decl_index: 1 };
    r.record(outer, ResolvedRef::Resolved(TypeNameSym(1)));
    r.record(outer, ResolvedRef::Resolved(TypeNameSym(2)));
    r.record(inner, ResolvedRef::Resolved(TypeNameSym(9)));
    let mut cursor = ResolutionCursor::new(Some(&r), 0);
    cursor.enter_decl(outer);
    assert_eq!(cursor.pull_resolution(), Some(ResolvedRef::Resolved(TypeNameSym(1))));
    let saved = cursor.save_cursor();
    cursor.enter_decl(inner);
    assert_eq!(cursor.pull_resolution(), Some(ResolvedRef::Resolved(TypeNameSym(9))));
    cursor.restore_cursor(saved);
    assert_eq!(cursor.pull_resolution(), Some(ResolvedRef::Resolved(TypeNameSym(2))));
    assert_eq!(cursor.pull_resolution(), None);
}

#[test]
fn cursor_without_resolution_yields_nothing() {
    let mut cursor = ResolutionCursor::new(None, 2);
    cursor.enter_decl(DeclRef { source_index: 2, decl_index: 0 });
    assert_eq!(cursor.pull_resolution(), None);
    assert_eq!(cursor.source_index, 2);
}

#[test]
fn cursor_for_unrecorded_declaration_yields_nothing() {
    let mut r = Resolution::new();
    r.record(DeclRef { source_index: 0, decl_index: 0 }, ResolvedRef::Resolved(TypeNameSym(1)));
    let mut cursor = ResolutionCursor::new(Some(&r), 0);
    cursor.enter_decl(DeclRef { source_index: 0, decl_index: 5 });
    assert_eq!(cursor.pull_resolution(), None);
}

#[test]
fn slot_cache_fills_and_grows() {
    let mut c: SlotCache<u64> = SlotCache::with_capacity(2);
    assert_eq!(c.get(0), None);
    assert_eq!(c.get(10), None);
    c.insert(10, 7);
    assert_eq!(c.get(10), Some(7));
    assert_eq!(c.get(9), None);
    c.insert(10, 8);
    assert_eq!(c.get(10), Some(8));
}

#[test]
fn namespace_and_type_name_caches_keep_absolute_apart() {
    let mut ns: NamespaceCache<u32> = NamespaceCache::with_capacity(4);
    ns.insert(NamespaceSym(1), false, 10);
    ns.insert(NamespaceSym(1), true, 11);
    assert_eq!(ns.get(NamespaceSym(1), false), Some(10));
    assert_eq!(ns.get(NamespaceSym(1), true), Some(11));
    assert_eq!(ns.get(NamespaceSym(0), true), None);

    let mut tn: TypeNameCache<u32> = TypeNameCache::with_capacity(0);
    tn.insert(TypeNameSym(3), true, 5);
    assert_eq!(tn.get(TypeNameSym(3), true), Some(5));
    assert_eq!(tn.get(TypeNameSym(3), false), None);
}

#[test]
fn symbol_and_path_caches_are_indexed_by_number() {
    let mut s: SymbolCache<i32> = SymbolCache::with_capacity(1);
    s.insert(Sym(4), -1);
    assert_eq!(s.get(Sym(4)), Some(-1));
    assert_eq!(s.get(Sym(0)), None);
    let mut p: PathArrayCache<bool> = PathArrayCache::with_capacity(3);
    p.insert(NamespaceSym(2), true);
    assert_eq!(p.get(NamespaceSym(2)), Some(true));
    assert_eq!(p.get(NamespaceSym(1)), None);
}

#[test]
fn cache_switches_are_on_unless_disabled() {
    assert!(flag_enabled(None));
    assert!(flag_enabled(Some("1")));
    assert!(flag_enabled(Some("yes")));
    assert!(!flag_enabled(Some("0")));
    assert!(!flag_enabled(Some("off")));
    assert!(!flag_enabled(Some("false")));
    let flags = CacheFlags::from_settings(None, Some("off"), Some("true"), Some("0"));
    assert!(flags.sym);
    assert!(!flags.ns);
    assert!(flags.tn);
    assert!(!flags.path);
}

#[test]
fn phases_have_distinct_indices() {
    let all = [
        Phase::SourceRbs,
        Phase::Directives,
        Phase::Declaration,
        Phase::NestedDecl,
        Phase::Member,
        Phase::MethodType,
        Phase::Type,
        Phase::Location,
        Phase::TypeParam,
        Phase::AddSource,
    ];
    let idx: Vec<usize> = all.iter().map(|p| p.index()).collect();
    assert_eq!(idx, (0..PHASE_COUNT).collect::<Vec<usize>>());
}

fn rel(name: &str) -> TypeNameRef {
    TypeNameRef { absolute: false, path: Vec::new(), name: name.to_string() }
}

#[test]
fn entries_are_grouped_by_kind_in_declaration_order() {
    let signature = Signature {
        uses: Vec::new(),
        declarations: vec![
            Decl::Module { name: rel("M"), params: Vec::new(), members: Vec::new() },
            Decl::Interface { name: rel("_I"), refs: Vec::new() },
            Decl::Class { name: rel("C"), params: Vec::new(), super_refs: Vec::new(), members: Vec::new() },
            Decl::TypeAlias { name: rel("t"), refs: Vec::new() },
            Decl::Constant { name: rel("K"), refs: Vec::new() },
            Decl::ClassAlias { new_name: rel("D"), old_name: rel("C") },
            Decl::Global { name: "$g".to_string(), refs: Vec::new() },
        ],
    };
    let mut env = Environment::new();
    insert_rbs_source(&mut env, &signature).unwrap();
    let g = entry_groups(&env);
    let names = |v: &[TypeNameSym]| v.iter().map(|t| env.interner.to_string(*t)).collect::<Vec<String>>();
    let class_like: Vec<(String, ClassLikeEntry)> =
        g.class_like.iter().map(|(t, k)| (env.interner.to_string(*t), *k)).collect();
    assert_eq!(
        class_like,
        vec![("::M".to_string(), ClassLikeEntry::Module), ("::C".to_string(), ClassLikeEntry::Class)]
    );
    assert_eq!(names(&g.interfaces), vec!["::_I".to_string()]);
    assert_eq!(names(&g.type_aliases), vec!["::t".to_string()]);
    assert_eq!(names(&g.constants), vec!["::K".to_string()]);
    assert_eq!(g.class_aliases.len(), 1);
    assert_eq!(env.interner.to_string(g.class_aliases[0].0), "::D");
    assert_eq!(env.interner.to_string(g.class_aliases[0].1), "C");
    assert_eq!(g.globals.len(), 1);
    assert_eq!(env.interner.symbols.lookup(g.globals[0]), "$g");
    let c = env.decl(g.class_like[1].0).unwrap();
    assert_eq!(c.class_like(), Some(ClassLikeEntry::Class));
}

#[test]
fn phase_report_lists_called_phases_slowest_first() {
    let nanos = vec![500, 900, 0, 500, 7];
    let calls = vec![5, 3, 0, 2, 0];
    let rows = phase_report_rows(&nanos, &calls);
    let got: Vec<(usize, u64, u64, u64)> = rows.iter().map(|r| (r.index, r.nanos, r.calls, r.per_call)).collect();
    assert_eq!(got, vec![(1, 900, 3, 300), (0, 500, 5, 100), (3, 500, 2, 250)]);
    assert!(phase_report_rows(&vec![1, 2], &vec![0, 0]).is_empty());
}
