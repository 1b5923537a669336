use librbs_core::env::use_map::{Table, UseMap};
use librbs_core::interner::{Sym, TypeNameInterner, TypeNameKind, TypeNameSym};

fn intern_type(interner: &mut TypeNameInterner, absolute: bool, path: &[&str], name: &str) -> TypeNameSym {
    let segs: Vec<Sym> = path.iter().map(|s| interner.symbols.intern(s)).collect();
    let ns = interner.namespaces.intern(&segs, absolute);
    let name_sym = interner.symbols.intern(name);
    let kind = TypeNameKind::detect(name);
    interner.intern(ns, name_sym, kind)
}

#[test]
fn single_clause_with_rename_maps_alias_to_absolute() {
    let mut interner = TypeNameInterner::new();
    let foo_bar = intern_type(&mut interner, true, &["Foo"], "Bar");
    let table = Table::new();
    let mut map = UseMap::new(&table);
    let alias = interner.symbols.intern("MyBar");
    map.add_single(foo_bar, Some(alias), &interner);

    let probe = intern_type(&mut interner, false, &[], "MyBar");
    let resolved = map.resolve(probe, &mut interner);
    assert_eq!(resolved, foo_bar);
}

#[test]
fn single_clause_without_rename_maps_by_last_name() {
    let mut interner = TypeNameInterner::new();
    let foo_bar = intern_type(&mut interner, true, &["Foo"], "Bar");
    let table = Table::new();
    let mut map = UseMap::new(&table);
    map.add_single(foo_bar, None, &interner);

    let probe = intern_type(&mut interner, false, &[], "Bar");
    assert_eq!(map.resolve(probe, &mut interner), foo_bar);
}

#[test]
fn nonempty_namespace_rewrites_head_only() {
    let mut interner = TypeNameInterner::new();
    let foo_bar = intern_type(&mut interner, true, &["Foo"], "Bar");
    let foo_bar_baz = intern_type(&mut interner, true, &["Foo", "Bar"], "Baz");
    let table = Table::new();
    let mut map = UseMap::new(&table);
    map.add_single(foo_bar, None, &interner);

    let probe = intern_type(&mut interner, false, &["Bar"], "Baz");
    assert_eq!(map.resolve(probe, &mut interner), foo_bar_baz);
}

#[test]
fn absolute_input_passes_through() {
    let mut interner = TypeNameInterner::new();
    let foo_bar = intern_type(&mut interner, true, &["Foo"], "Bar");
    let table = Table::new();
    let mut map = UseMap::new(&table);
    let alias = interner.symbols.intern("Bar");
    map.add_single(foo_bar, Some(alias), &interner);

    let probe = intern_type(&mut interner, true, &[], "Bar");
    let resolved = map.resolve(probe, &mut interner);
    assert_eq!(resolved, probe);
}

#[test]
fn table_children_lookup_and_wildcard_clause() {
    let mut interner = TypeNameInterner::new();
    let foo_bar = intern_type(&mut interner, true, &["Foo"], "Bar");
    let foo_baz = intern_type(&mut interner, true, &["Foo"], "Baz");
    let foo = interner.symbols.intern("Foo");
    let foo_ns = interner.namespaces.intern(&[foo], true);

    let mut table = Table::new();
    table.known_types.insert(foo_bar.0);
    table.known_types.insert(foo_baz.0);
    table.compute_children(&interner);

    let children = table.children.get(&foo_ns.0).expect("Foo has children");
    assert!(children.contains(&foo_bar.0));
    assert!(children.contains(&foo_baz.0));

    let mut map = UseMap::new(&table);
    map.add_wildcard(foo_ns, &interner);

    let probe_bar = intern_type(&mut interner, false, &[], "Bar");
    let probe_baz = intern_type(&mut interner, false, &[], "Baz");
    assert_eq!(map.resolve(probe_bar, &mut interner), foo_bar);
    assert_eq!(map.resolve(probe_baz, &mut interner), foo_baz);
}

#[test]
fn unmapped_relative_name_is_left_alone() {
    let mut interner = TypeNameInterner::new();
    let foo_bar = intern_type(&mut interner, true, &["Foo"], "Bar");
    let table = Table::new();
    let mut map = UseMap::new(&table);
    map.add_single(foo_bar, None, &interner);
    let probe = intern_type(&mut interner, false, &["Other"], "Baz");
    assert_eq!(map.resolve_opt(probe, &mut interner), None);
    assert_eq!(map.resolve(probe, &mut interner), probe);
}

#[test]
fn top_level_names_have_no_children() {
    let mut interner = TypeNameInterner::new();
    let top = intern_type(&mut interner, true, &[], "Top");
    let mut table = Table::new();
    table.known_types.insert(top.0);
    table.compute_children(&interner);
    assert!(table.children.is_empty());
}
