use std::collections::HashSet;

use librbs_core::env::insert::insert_rbs_source;
use librbs_core::env::resolution::ResolvedRef;
use librbs_core::env::{DeclRef, Environment};
use librbs_core::interner::TypeNameSym;
use librbs_core::resolver::driver::{consume_decl_ref, lookup_decl, resolve, resolve_fits};
use librbs_core::signature::{Decl, Member, Signature, TypeNameRef, UseClause};
use librbs_core::source::Source;

fn rel(name: &str) -> TypeNameRef {
    TypeNameRef { absolute: false, path: Vec::new(), name: name.to_string() }
}

fn class(name: &str, super_refs: Vec<TypeNameRef>, members: Vec<Member>) -> Decl {
    Decl::Class { name: rel(name), params: Vec::new(), super_refs, members }
}

fn sig(declarations: Vec<Decl>) -> Signature {
    Signature { uses: Vec::new(), declarations }
}

/// Each source is its text together with the signature parsed from it.
fn build_env(sources: Vec<(&str, Signature)>) -> Environment {
    let mut env = Environment::new();
    for (content, signature) in sources {
        let path = format!("/tmp/{}.rbs", env.sources.len());
        let s = Source::new(path, content.to_string(), signature);
        insert_rbs_source(&mut env, &s.signature).unwrap();
        env.sources.push(s);
    }
    env
}

fn decl_named(env: &Environment, name: &str) -> TypeNameSym {
    env.decl_list.iter().map(|(k, _)| *k).find(|k| env.interner.to_string(*k) == name).unwrap()
}

#[test]
fn consume_decl_ref_advances_counter_per_pre_order_decl() {
    // class A end
    let leaf = class("A", vec![], vec![]);
    // class A; class B end; end
    let two = class("A", vec![], vec![Member::Decl(class("B", vec![], vec![]))]);
    // class A; class B; class C end; end; end
    let three = class(
        "A",
        vec![],
        vec![Member::Decl(class("B", vec![], vec![Member::Decl(class("C", vec![], vec![]))]))],
    );
    // module M; class A end; class B end; end
    let module = Decl::Module {
        name: rel("M"),
        params: Vec::new(),
        members: vec![Member::Decl(class("A", vec![], vec![])), Member::Decl(class("B", vec![], vec![]))],
    };
    // class A; def foo: () -> void; end
    let with_method = class("A", vec![], vec![Member::Refs(Vec::new())]);
    // interface _Each end
    let interface = Decl::Interface { name: rel("_Each"), refs: Vec::new() };
    let cases: Vec<(&str, Decl, u32)> = vec![
        ("class A end\n", leaf, 1),
        ("class A\n  class B end\nend\n", two, 2),
        ("class A\n  class B\n    class C end\n  end\nend\n", three, 3),
        ("module M\n  class A end\n  class B end\nend\n", module, 3),
        ("class A\n  def foo: () -> void\nend\n", with_method, 1),
        ("interface _Each end\n", interface, 1),
    ];
    for (src, decl, expected) in cases {
        let mut counter: u32 = 0;
        consume_decl_ref(&decl, &mut counter);
        assert_eq!(counter, expected, "subtree count for {src:?}");
    }
}

#[test]
fn resolves_super_class_to_absolute_name() {
    let mut env = build_env(vec![(
        "class Foo end\nclass Bar < Foo end\n",
        sig(vec![class("Foo", vec![], vec![]), class("Bar", vec![rel("Foo")], vec![])]),
    )]);
    let resolution = resolve(&mut env, None);

    assert_eq!(resolution.len(), 1);
    let bar_decl = DeclRef { source_index: 0, decl_index: 1 };
    let slice = resolution.get(bar_decl).expect("Bar's super-class reference should be in the resolution");
    assert_eq!(slice.len(), 1);
    let foo_sym = decl_named(&env, "::Foo");
    assert_eq!(slice[0], ResolvedRef::Resolved(foo_sym));
}

#[test]
fn unknown_super_class_is_recorded_as_unresolved() {
    let mut env = build_env(vec![("class Foo < Unknown end", sig(vec![class("Foo", vec![rel("Unknown")], vec![])]))]);
    let resolution = resolve(&mut env, None);

    let foo_decl = DeclRef { source_index: 0, decl_index: 0 };
    let slice = resolution.get(foo_decl).unwrap();
    assert_eq!(slice.len(), 1);
    match slice[0] {
        ResolvedRef::Unresolved(sym) => {
            assert_eq!(env.interner.to_string(sym), "Unknown");
        }
        other => panic!("expected Unresolved, got {:?}", other),
    }
}

#[test]
fn magic_comment_disables_resolution_for_that_source() {
    let mut env = build_env(vec![
        (
            "# resolve-type-names: false\nclass A end\nclass B < A end\n",
            sig(vec![class("A", vec![], vec![]), class("B", vec![rel("A")], vec![])]),
        ),
        (
            "class C end\nclass D < C end\n",
            sig(vec![class("C", vec![], vec![]), class("D", vec![rel("C")], vec![])]),
        ),
    ]);
    let resolution = resolve(&mut env, None);

    assert!(
        resolution.iter().iter().all(|(dr, _)| dr.source_index == 1),
        "no entries should come from source 0; got {:?}",
        resolution.iter().iter().map(|(dr, _)| *dr).collect::<Vec<_>>()
    );
    assert_eq!(resolution.len(), 1);
}

#[test]
fn only_filter_resolves_named_decl_only() {
    let mut env = build_env(vec![(
        "class Base end\nclass Foo < Base end\nclass Bar < Base end\n",
        sig(vec![
            class("Base", vec![], vec![]),
            class("Foo", vec![rel("Base")], vec![]),
            class("Bar", vec![rel("Base")], vec![]),
        ]),
    )]);

    let bar_sym = decl_named(&env, "::Bar");
    let mut only: HashSet<u32> = HashSet::new();
    only.insert(bar_sym.0);

    let resolution = resolve(&mut env, Some(&only));

    let base_sym = decl_named(&env, "::Base");
    let resolved: Vec<ResolvedRef> =
        resolution.iter().iter().flat_map(|(_, slice)| slice.iter().copied()).collect::<Vec<_>>();
    assert_eq!(resolved.len(), 1, "only Bar's super-class should resolve");
    assert_eq!(resolved[0], ResolvedRef::Resolved(base_sym));
    assert!(resolution.get(DeclRef { source_index: 0, decl_index: 2 }).is_some());
}

#[test]
fn nested_reference_resolves_to_innermost_declaration() {
    // class Foo end; class Outer; class Foo end; class Inner < Foo end; end
    let mut env = build_env(vec![(
        "class Foo end\nclass Outer\n  class Foo end\n  class Inner < Foo end\nend\n",
        sig(vec![
            class("Foo", vec![], vec![]),
            class(
                "Outer",
                vec![],
                vec![Member::Decl(class("Foo", vec![], vec![])), Member::Decl(class("Inner", vec![rel("Foo")], vec![]))],
            ),
        ]),
    )]);
    let resolution = resolve(&mut env, None);
    let inner_decl = DeclRef { source_index: 0, decl_index: 3 };
    let slice = resolution.get(inner_decl).unwrap();
    assert_eq!(slice, &[ResolvedRef::Resolved(decl_named(&env, "::Outer::Foo"))]);
}

#[test]
fn use_clause_rewrites_reference_before_resolution() {
    // use ::Lib::Thing as T
    // class Lib; class Thing end; end; class User < T end
    let target = TypeNameRef { absolute: true, path: vec!["Lib".to_string()], name: "Thing".to_string() };
    let mut signature = sig(vec![
        class("Lib", vec![], vec![Member::Decl(class("Thing", vec![], vec![]))]),
        class("User", vec![rel("T")], vec![]),
    ]);
    signature.uses.push(UseClause::Single { target, new_name: Some("T".to_string()) });
    let mut env = build_env(vec![("# use ::Lib::Thing as T\n", signature)]);
    let resolution = resolve(&mut env, None);
    let user_decl = DeclRef { source_index: 0, decl_index: 2 };
    let slice = resolution.get(user_decl).unwrap();
    assert_eq!(slice, &[ResolvedRef::Resolved(decl_named(&env, "::Lib::Thing"))]);
}

#[test]
fn empty_environment_resolves_to_nothing() {
    let mut env = Environment::new();
    assert!(resolve_fits(&env));
    let resolution = resolve(&mut env, None);
    assert!(resolution.is_empty());
    assert_eq!(resolution.len(), 0);
}

fn decl_name(d: &Decl) -> String {
    match d {
        Decl::Class { name, .. }
        | Decl::Module { name, .. }
        | Decl::Interface { name, .. }
        | Decl::TypeAlias { name, .. }
        | Decl::Constant { name, .. } => name.name.clone(),
        Decl::Global { name, .. } => name.clone(),
        Decl::ClassAlias { new_name, .. } | Decl::ModuleAlias { new_name, .. } => new_name.name.clone(),
    }
}

#[test]
fn lookup_decl_follows_pre_order_numbering() {
    // module M; class A; class B end; end; def x: () -> C; class D end; end; interface _E end
    let src = Source::new(
        "/tmp/m.rbs".to_string(),
        String::new(),
        sig(vec![
            Decl::Module {
                name: rel("M"),
                params: Vec::new(),
                members: vec![
                    Member::Decl(class("A", vec![], vec![Member::Decl(class("B", vec![], vec![]))])),
                    Member::Refs(vec![rel("C")]),
                    Member::Decl(class("D", vec![], vec![])),
                ],
            },
            Decl::Interface { name: rel("_E"), refs: Vec::new() },
        ]),
    );
    let names: Vec<String> = (0..5)
        .map(|i| decl_name(lookup_decl(&src, DeclRef { source_index: 0, decl_index: i }).unwrap()))
        .collect();
    assert_eq!(names, vec!["M", "A", "B", "D", "_E"]);
    assert!(lookup_decl(&src, DeclRef { source_index: 0, decl_index: 5 }).is_none());
}

#[test]
fn recorded_decl_refs_look_up_to_their_declarations() {
    let mut env = build_env(vec![(
        "class Foo end\nclass Bar < Foo end\n",
        sig(vec![class("Foo", vec![], vec![]), class("Bar", vec![rel("Foo")], vec![])]),
    )]);
    let resolution = resolve(&mut env, None);
    for (dr, _) in resolution.iter() {
        let d = lookup_decl(&env.sources[dr.source_index as usize], dr).unwrap();
        assert_eq!(decl_name(d), "Bar");
    }
}

#[test]
fn outcomes_follow_walk_order_params_super_then_members() {
    // class Bound end; class Super end; module Mixin end
    // class Foo[T < Bound] < Super; include Mixin; end
    let foo = Decl::Class {
        name: rel("Foo"),
        params: vec![rel("Bound")],
        super_refs: vec![rel("Super")],
        members: vec![Member::Refs(vec![rel("Mixin"), rel("Missing")])],
    };
    let mut env = build_env(vec![(
        "",
        sig(vec![
            class("Bound", vec![], vec![]),
            class("Super", vec![], vec![]),
            Decl::Module { name: rel("Mixin"), params: Vec::new(), members: Vec::new() },
            foo,
        ]),
    )]);
    let resolution = resolve(&mut env, None);
    let slice = resolution.get(DeclRef { source_index: 0, decl_index: 3 }).unwrap();
    assert_eq!(slice.len(), 4);
    assert_eq!(slice[0], ResolvedRef::Resolved(decl_named(&env, "::Bound")));
    assert_eq!(slice[1], ResolvedRef::Resolved(decl_named(&env, "::Super")));
    assert_eq!(slice[2], ResolvedRef::Resolved(decl_named(&env, "::Mixin")));
    match slice[3] {
        ResolvedRef::Unresolved(t) => assert_eq!(env.interner.to_string(t), "Missing"),
        other => panic!("expected Unresolved, got {:?}", other),
    }
    assert_eq!(resolution.len(), 4);
}

#[test]
fn wildcard_use_clause_brings_names_into_scope() {
    // use ::Lib::*
    // class Lib; class Thing end; end; class User < Thing end
    let mut signature = sig(vec![
        class("Lib", vec![], vec![Member::Decl(class("Thing", vec![], vec![]))]),
        class("User", vec![rel("Thing")], vec![]),
    ]);
    signature.uses.push(UseClause::Wildcard { absolute: true, path: vec!["Lib".to_string()] });
    let mut env = build_env(vec![("# use ::Lib::*\n", signature)]);
    let resolution = resolve(&mut env, None);
    let slice = resolution.get(DeclRef { source_index: 0, decl_index: 2 }).unwrap();
    assert_eq!(slice, &[ResolvedRef::Resolved(decl_named(&env, "::Lib::Thing"))]);
}
