use librbs_core::env::{ClassAliasEntry, DeclEntry, Environment};
use librbs_core::interner::{Sym, TypeNameInterner, TypeNameKind, TypeNameSym};
use librbs_core::resolver::TypeNameResolver;

fn intern_class(interner: &mut TypeNameInterner, absolute: bool, path: &[&str], name: &str) -> TypeNameSym {
    let segs: Vec<Sym> = path.iter().map(|s| interner.symbols.intern(s)).collect();
    let ns = interner.namespaces.intern(&segs, absolute);
    let name_sym = interner.symbols.intern(name);
    interner.intern(ns, name_sym, TypeNameKind::Class)
}

fn intern_interface(interner: &mut TypeNameInterner, absolute: bool, path: &[&str], name: &str) -> TypeNameSym {
    let segs: Vec<Sym> = path.iter().map(|s| interner.symbols.intern(s)).collect();
    let ns = interner.namespaces.intern(&segs, absolute);
    let name_sym = interner.symbols.intern(name);
    interner.intern(ns, name_sym, TypeNameKind::Interface)
}

fn add_class(env: &mut Environment, name: TypeNameSym) {
    env.set_decl(name, DeclEntry::Class);
}

fn add_interface(env: &mut Environment, name: TypeNameSym) {
    env.set_decl(name, DeclEntry::Interface);
}

fn add_class_alias(env: &mut Environment, new_name: TypeNameSym, old_name: TypeNameSym, context: Vec<TypeNameSym>) {
    env.set_decl(new_name, DeclEntry::ClassAlias(Box::new(ClassAliasEntry { old_name, context })));
}

#[test]
fn resolve_absolute_known_returns_input() {
    let mut env = Environment::new();
    let foo = intern_class(&mut env.interner, true, &[], "Foo");
    add_class(&mut env, foo);

    let resolver = TypeNameResolver::build(&env);
    let resolved = resolver.resolve(foo, &Vec::new(), &env.interner);
    assert_eq!(resolved, Some(foo));
}

#[test]
fn resolve_unqualified_class_in_nested_context_walks_outer() {
    let mut env = Environment::new();
    let foo = intern_class(&mut env.interner, true, &[], "Foo");
    let foo_bar = intern_class(&mut env.interner, true, &["Foo"], "Bar");
    add_class(&mut env, foo);
    add_class(&mut env, foo_bar);

    let context = vec![foo, foo_bar];
    let unq_foo = intern_class(&mut env.interner, false, &[], "Foo");
    let resolver = TypeNameResolver::build(&env);
    let resolved = resolver.resolve(unq_foo, &context, &env.interner);
    assert_eq!(resolved, Some(foo));
}

#[test]
fn resolve_unqualified_interface_in_nested_context() {
    let mut env = Environment::new();
    let foo = intern_class(&mut env.interner, true, &[], "Foo");
    let foo_each = intern_interface(&mut env.interner, true, &["Foo"], "_Each");
    add_class(&mut env, foo);
    add_interface(&mut env, foo_each);

    let context = vec![foo];
    let unq_each = intern_interface(&mut env.interner, false, &[], "_Each");
    let resolver = TypeNameResolver::build(&env);
    let resolved = resolver.resolve(unq_each, &context, &env.interner);
    assert_eq!(resolved, Some(foo_each));
}

#[test]
fn resolve_through_class_alias() {
    let mut env = Environment::new();
    let real = intern_class(&mut env.interner, true, &[], "Real");
    let real_inner = intern_class(&mut env.interner, true, &["Real"], "Inner");
    let aliased = intern_class(&mut env.interner, true, &[], "AliasName");
    add_class(&mut env, real);
    add_class(&mut env, real_inner);
    add_class_alias(&mut env, aliased, real, Vec::new());

    let probe = intern_class(&mut env.interner, false, &["AliasName"], "Inner");
    let resolver = TypeNameResolver::build(&env);
    let resolved = resolver.resolve(probe, &Vec::new(), &env.interner);
    assert_eq!(resolved, Some(real_inner));
}

#[test]
fn alias_cycle_returns_none_cleanly() {
    let mut env = Environment::new();
    let a = intern_class(&mut env.interner, true, &[], "A");
    let b = intern_class(&mut env.interner, true, &[], "B");
    add_class_alias(&mut env, a, b, Vec::new());
    add_class_alias(&mut env, b, a, Vec::new());

    let probe = intern_class(&mut env.interner, false, &[], "A");
    let resolver = TypeNameResolver::build(&env);
    let resolved = resolver.resolve(probe, &Vec::new(), &env.interner);
    assert_eq!(resolved, None);
}

#[test]
fn resolve_unknown_name_returns_none() {
    let mut env = Environment::new();
    let foo = intern_class(&mut env.interner, true, &[], "Foo");
    add_class(&mut env, foo);

    let probe = intern_class(&mut env.interner, false, &[], "Bar");
    let resolver = TypeNameResolver::build(&env);
    let resolved = resolver.resolve(probe, &Vec::new(), &env.interner);
    assert_eq!(resolved, None);
}

#[test]
fn inner_scope_wins_over_outer() {
    let mut env = Environment::new();
    let outer_x = intern_class(&mut env.interner, true, &[], "X");
    let m = intern_class(&mut env.interner, true, &[], "M");
    let m_x = intern_class(&mut env.interner, true, &["M"], "X");
    add_class(&mut env, outer_x);
    add_class(&mut env, m);
    add_class(&mut env, m_x);
    let probe = intern_class(&mut env.interner, false, &[], "X");
    let resolver = TypeNameResolver::build(&env);
    assert_eq!(resolver.resolve(probe, &vec![m], &env.interner), Some(m_x));
    assert_eq!(resolver.resolve(probe, &Vec::new(), &env.interner), Some(outer_x));
}

#[test]
fn constants_and_aliases_are_not_resolution_targets() {
    let mut env = Environment::new();
    let pi = intern_class(&mut env.interner, true, &[], "Pi");
    env.set_decl(pi, DeclEntry::Constant);
    let probe = intern_class(&mut env.interner, false, &[], "Pi");
    let resolver = TypeNameResolver::build(&env);
    assert_eq!(resolver.resolve(probe, &Vec::new(), &env.interner), None);
    assert_eq!(resolver.resolve(pi, &Vec::new(), &env.interner), None);
}
