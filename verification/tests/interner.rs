use librbs_core::interner::{NamespaceInterner, Sym, SymbolInterner, TypeNameInterner, TypeNameKind};

#[test]
fn intern_strings_dedups() {
    let mut s = SymbolInterner::new();
    let a = s.intern("foo");
    let b = s.intern("foo");
    let c = s.intern("bar");
    assert_eq!(a, b);
    assert_ne!(a, c);
    assert_eq!(s.lookup(a), "foo");
}

#[test]
fn type_name_with_prefix() {
    let mut tn = TypeNameInterner::new();
    let foo_sym = tn.symbols.intern("Foo");
    let bar_sym = tn.symbols.intern("Bar");
    let empty = tn.namespaces.empty_relative();
    let foo = tn.intern(empty, foo_sym, TypeNameKind::Class);
    let foo_ns = tn.to_namespace(foo);
    let bar_in_foo = tn.intern(foo_ns, bar_sym, TypeNameKind::Class);
    assert_eq!(tn.to_string(bar_in_foo), "Foo::Bar");

    let bar_in_foo_again = tn.intern(foo_ns, bar_sym, TypeNameKind::Class);
    assert_eq!(bar_in_foo, bar_in_foo_again);
}

#[test]
fn kind_detect() {
    assert_eq!(TypeNameKind::detect("Foo"), TypeNameKind::Class);
    assert_eq!(TypeNameKind::detect("_Each"), TypeNameKind::Interface);
    assert_eq!(TypeNameKind::detect("foo_t"), TypeNameKind::TypeAlias);
}

#[test]
fn symbol_lookup_gives_back_what_was_interned() {
    let mut s = SymbolInterner::new();
    let names = ["Foo", "Bar", "baz", "_Each", "Foo"];
    let syms: Vec<Sym> = names.iter().map(|n| s.intern(n)).collect();
    for (n, sym) in names.iter().zip(syms.iter()) {
        assert_eq!(s.lookup(*sym), *n);
    }
    assert_eq!(s.len(), 4);
    assert!(!s.is_empty());
    assert_eq!(s.find("Bar"), Some(syms[1]));
    assert_eq!(s.find("Quux"), None);
}

#[test]
fn namespaces_are_interned_once_and_roots_are_fixed() {
    let mut ns = NamespaceInterner::new();
    let mut syms = SymbolInterner::new();
    let a = syms.intern("A");
    let b = syms.intern("B");
    let empty = ns.empty_relative();
    let root = ns.root_absolute();
    assert_ne!(empty, root);
    assert!(ns.is_relative(empty));
    assert!(!ns.is_relative(root));
    let ab = ns.intern(&[a, b], true);
    assert_eq!(ns.intern(&[a, b], true), ab);
    assert_ne!(ns.intern(&[a, b], false), ab);
    assert_eq!(ns.lookup(ab).0, vec![a, b]);
    assert!(ns.lookup(ab).1);
    let a_only = ns.intern(&[a], true);
    assert_eq!(ns.append(a_only, b), ab);
    let rel_b = ns.intern(&[b], false);
    assert_eq!(ns.join(a_only, rel_b), ab);
    assert_eq!(ns.join(rel_b, ab), ab);
    assert!(ns.is_empty(root));
    assert!(!ns.is_empty(ab));
}

#[test]
fn with_prefix_anchors_relative_names_only() {
    let mut tn = TypeNameInterner::new();
    let foo = tn.intern_symbol("Foo");
    let bar = tn.intern_symbol("Bar");
    let root = tn.root_absolute();
    let empty = tn.empty_relative();
    let rel_bar = tn.intern(empty, bar, TypeNameKind::Class);
    let abs_bar = tn.with_prefix(root, rel_bar);
    assert_eq!(tn.to_string(abs_bar), "::Bar");
    let foo_ns = tn.intern_namespace(&[foo], true);
    let nested = tn.with_prefix(foo_ns, rel_bar);
    assert_eq!(tn.to_string(nested), "::Foo::Bar");
    assert_eq!(tn.with_prefix(foo_ns, abs_bar), abs_bar);
    assert_eq!(tn.name_of(nested), bar);
    assert_eq!(tn.kind_of(nested), TypeNameKind::Class);
    assert_eq!(tn.find(foo_ns, bar, TypeNameKind::Class), Some(nested));
    assert_eq!(tn.find(foo_ns, foo, TypeNameKind::Class), None);
    assert_eq!(tn.find_with_prefix(foo_ns, rel_bar), Some(nested));
}

#[test]
fn type_name_to_namespace_and_back() {
    let mut tn = TypeNameInterner::new();
    let foo = tn.intern_symbol("Foo");
    let bar = tn.intern_symbol("Bar");
    let foo_ns = tn.intern_namespace(&[foo], true);
    let foo_bar = tn.intern(foo_ns, bar, TypeNameKind::Class);
    let ns = tn.to_namespace(foo_bar);
    assert_eq!(tn.namespace(ns).0, vec![foo, bar]);
    assert_eq!(tn.find_to_namespace(foo_bar), Some(ns));
    assert_eq!(tn.namespace_to_type_name(ns), Some((foo_ns, bar)));
    let root = tn.root_absolute();
    assert_eq!(tn.namespace_to_type_name(root), None);
    assert_eq!(tn.to_string(foo_bar), "::Foo::Bar");
}
