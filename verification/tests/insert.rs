use librbs_core::env::insert::{find_type_name_ref, insert_fits, insert_rbs_source};
use librbs_core::signature::{decl_cost_capped, ref_cost_capped, signature_cost_capped, UseClause};
use librbs_core::env::Environment;
use librbs_core::error::Error;
use librbs_core::interner::{Sym, TypeNameKind};
use librbs_core::signature::{Decl, Member, Signature, TypeNameRef};

fn tref(absolute: bool, path: &[&str], name: &str) -> TypeNameRef {
    TypeNameRef {
        absolute,
        path: path.iter().map(|s| s.to_string()).collect(),
        name: name.to_string(),
    }
}

fn rel(name: &str) -> TypeNameRef {
    tref(false, &[], name)
}

fn class(name: &str, params: Vec<TypeNameRef>, super_refs: Vec<TypeNameRef>, members: Vec<Member>) -> Decl {
    Decl::Class { name: rel(name), params, super_refs, members }
}

fn parse_and_insert(declarations: Vec<Decl>) -> Environment {
    let signature = Signature { uses: Vec::new(), declarations };
    let mut env = Environment::new();
    insert_rbs_source(&mut env, &signature).unwrap();
    env
}

fn try_insert(declarations: Vec<Decl>) -> Result<(), Error> {
    let signature = Signature { uses: Vec::new(), declarations };
    let mut env = Environment::new();
    insert_rbs_source(&mut env, &signature)
}

/// After insert, asserts that `name` is already present in the symbol
/// interner, searching the symbol table directly.
fn assert_symbol_interned(env: &Environment, name: &str) {
    let total = env.interner.symbols.len();
    let found = (0..total).any(|i| env.interner.symbols.lookup(Sym(i as u32)) == name);
    assert!(found, "expected symbol {name:?} to be interned");
}

// class Bar < Foo end
#[test]
fn class_super_class_reference_is_interned() {
    let env = parse_and_insert(vec![class("Bar", vec![], vec![rel("Foo")], vec![])]);
    assert_symbol_interned(&env, "Foo");
}

// module M : _Each end
#[test]
fn module_self_type_reference_is_interned() {
    let env = parse_and_insert(vec![Decl::Module { name: rel("M"), params: vec![rel("_Each")], members: vec![] }]);
    assert_symbol_interned(&env, "_Each");
}

// class Foo; include Mixed; extend Hooked; prepend Front; end
#[test]
fn mixin_references_are_interned() {
    let env = parse_and_insert(vec![class(
        "Foo",
        vec![],
        vec![],
        vec![
            Member::Refs(vec![rel("Mixed")]),
            Member::Refs(vec![rel("Hooked")]),
            Member::Refs(vec![rel("Front")]),
        ],
    )]);
    assert_symbol_interned(&env, "Mixed");
    assert_symbol_interned(&env, "Hooked");
    assert_symbol_interned(&env, "Front");
}

// def bar: (Arg) -> Ret; def baz: () { (BlockArg) -> BlockRet } -> Yielder
#[test]
fn method_type_references_are_interned() {
    let env = parse_and_insert(vec![class(
        "Foo",
        vec![],
        vec![],
        vec![
            Member::Refs(vec![rel("Arg"), rel("Ret")]),
            Member::Refs(vec![rel("BlockArg"), rel("BlockRet"), rel("Yielder")]),
        ],
    )]);
    for n in ["Arg", "Ret", "BlockArg", "BlockRet", "Yielder"] {
        assert_symbol_interned(&env, n);
    }
}

// attr_reader name: NameType; @count: CountType; @@total: TotalType; self.@cache: CacheType
#[test]
fn attr_and_ivar_type_references_are_interned() {
    let env = parse_and_insert(vec![class(
        "Foo",
        vec![],
        vec![],
        vec![
            Member::Refs(vec![rel("NameType")]),
            Member::Refs(vec![rel("CountType")]),
            Member::Refs(vec![rel("TotalType")]),
            Member::Refs(vec![rel("CacheType")]),
        ],
    )]);
    for n in ["NameType", "CountType", "TotalType", "CacheType"] {
        assert_symbol_interned(&env, n);
    }
}

// type x = Integer | String
#[test]
fn type_alias_body_references_are_interned() {
    let env = parse_and_insert(vec![Decl::TypeAlias { name: rel("x"), refs: vec![rel("Integer"), rel("String")] }]);
    assert_symbol_interned(&env, "Integer");
    assert_symbol_interned(&env, "String");
}

// Pi: Numeric
#[test]
fn constant_type_reference_is_interned() {
    let env = parse_and_insert(vec![Decl::Constant { name: rel("Pi"), refs: vec![rel("Numeric")] }]);
    assert_symbol_interned(&env, "Numeric");
}

// $logger: Logger
#[test]
fn global_type_reference_is_interned() {
    let env = parse_and_insert(vec![Decl::Global { name: "$logger".to_string(), refs: vec![rel("Logger")] }]);
    assert_symbol_interned(&env, "Logger");
}

// interface _Each; def each: () -> EachReturn; end
#[test]
fn interface_method_type_references_are_interned() {
    let env = parse_and_insert(vec![Decl::Interface { name: rel("_Each"), refs: vec![rel("EachReturn")] }]);
    assert_symbol_interned(&env, "EachReturn");
}

// class Outer < OuterParent; class Inner < InnerParent end; end
#[test]
fn nested_decls_intern_outer_and_inner_references() {
    let inner = class("Inner", vec![], vec![rel("InnerParent")], vec![]);
    let env = parse_and_insert(vec![class("Outer", vec![], vec![rel("OuterParent")], vec![Member::Decl(inner)])]);
    assert_symbol_interned(&env, "OuterParent");
    assert_symbol_interned(&env, "InnerParent");
}

// class Foo[T < UpperBoundType] end; type y[U < AliasUpper] = U
#[test]
fn type_param_bounds_are_interned() {
    let env = parse_and_insert(vec![
        class("Foo", vec![rel("UpperBoundType")], vec![], vec![]),
        Decl::TypeAlias { name: rel("y"), refs: vec![rel("AliasUpper")] },
    ]);
    assert_symbol_interned(&env, "UpperBoundType");
    assert_symbol_interned(&env, "AliasUpper");
}

// type r = { name: RecName, age: RecAge }; type t = [TupA, TupB]
#[test]
fn record_and_tuple_types_are_interned() {
    let env = parse_and_insert(vec![
        Decl::TypeAlias { name: rel("r"), refs: vec![rel("RecName"), rel("RecAge")] },
        Decl::TypeAlias { name: rel("t"), refs: vec![rel("TupA"), rel("TupB")] },
    ]);
    for n in ["RecName", "RecAge", "TupA", "TupB"] {
        assert_symbol_interned(&env, n);
    }
}

// class Foo end; class Bar < Foo end
#[test]
fn relative_reference_typename_is_interned_alongside_absolute_lhs() {
    let mut env = parse_and_insert(vec![
        class("Foo", vec![], vec![], vec![]),
        class("Bar", vec![], vec![rel("Foo")], vec![]),
    ]);
    let sym_len_before = env.interner.symbols.len();
    let foo_sym = env.interner.symbols.intern("Foo");
    assert_eq!(env.interner.symbols.len(), sym_len_before, "Foo segment should already be interned");

    let abs_root = env.interner.namespaces.root_absolute();
    let rel_empty = env.interner.namespaces.empty_relative();
    let abs_foo = env.interner.intern(abs_root, foo_sym, TypeNameKind::Class);
    let rel_foo = env.interner.intern(rel_empty, foo_sym, TypeNameKind::Class);
    assert_ne!(abs_foo, rel_foo, "namespace makes them distinct");
}

#[test]
fn nested_class_is_registered_under_its_outer_name() {
    let inner = class("Inner", vec![], vec![], vec![]);
    let mut env = parse_and_insert(vec![class("Outer", vec![], vec![], vec![Member::Decl(inner)])]);
    let names: Vec<String> = env.decl_list.iter().map(|(n, _)| env.interner.to_string(*n)).collect();
    assert_eq!(names, vec!["::Outer".to_string(), "::Outer::Inner".to_string()]);
    let outer = env.interner.intern_symbol("Outer");
    let inner_sym = env.interner.intern_symbol("Inner");
    let ns = env.interner.intern_namespace(&[outer], true);
    let tn = env.interner.intern(ns, inner_sym, TypeNameKind::Class);
    assert!(env.decl(tn).is_some());
}

#[test]
fn reopening_a_class_is_allowed() {
    assert_eq!(
        try_insert(vec![class("Foo", vec![], vec![], vec![]), class("Foo", vec![], vec![], vec![])]),
        Ok(())
    );
}

#[test]
fn class_then_module_of_same_name_is_duplicate() {
    let r = try_insert(vec![
        class("Foo", vec![], vec![], vec![]),
        Decl::Module { name: rel("Foo"), params: vec![], members: vec![] },
    ]);
    assert_eq!(r, Err(Error::DuplicatedDeclaration { name: "::Foo".to_string() }));
}

#[test]
fn interface_declared_twice_is_duplicate() {
    let r = try_insert(vec![
        Decl::Interface { name: rel("_Each"), refs: vec![] },
        Decl::Interface { name: rel("_Each"), refs: vec![] },
    ]);
    assert_eq!(r, Err(Error::DuplicatedDeclaration { name: "::_Each".to_string() }));
}

#[test]
fn constant_over_a_class_is_duplicate() {
    let r = try_insert(vec![
        class("Foo", vec![], vec![], vec![]),
        Decl::Constant { name: rel("Foo"), refs: vec![] },
    ]);
    assert_eq!(r, Err(Error::DuplicatedDeclaration { name: "::Foo".to_string() }));
}

#[test]
fn global_declared_twice_is_duplicate() {
    let r = try_insert(vec![
        Decl::Global { name: "$g".to_string(), refs: vec![] },
        Decl::Global { name: "$g".to_string(), refs: vec![] },
    ]);
    assert_eq!(r, Err(Error::DuplicatedDeclaration { name: "$g".to_string() }));
}

#[test]
fn class_alias_over_existing_name_is_duplicate() {
    let r = try_insert(vec![
        class("Foo", vec![], vec![], vec![]),
        Decl::ClassAlias { new_name: rel("Foo"), old_name: rel("Bar") },
    ]);
    assert_eq!(r, Err(Error::DuplicatedDeclaration { name: "::Foo".to_string() }));
}

#[test]
fn costs_bound_what_interning_may_add() {
    // `A::B`: one path segment, so three plus one.
    assert_eq!(ref_cost_capped(&tref(false, &["A"], "B")), 4);
    // class C < D: name 3 + 3, super class 3.
    let c = class("C", vec![], vec![rel("D")], vec![]);
    assert_eq!(decl_cost_capped(&c), 9);
    let mut signature = Signature { uses: Vec::new(), declarations: vec![c] };
    signature.uses.push(UseClause::Wildcard { absolute: true, path: vec!["X".to_string()] });
    assert_eq!(signature_cost_capped(&signature), 11);
}

#[test]
fn a_fresh_environment_has_room_for_a_small_signature() {
    let env = Environment::new();
    let signature = Signature { uses: Vec::new(), declarations: vec![class("C", vec![], vec![], vec![])] };
    assert!(insert_fits(&env, &signature));
    let before = env.interner.used_count();
    let mut env = env;
    insert_rbs_source(&mut env, &signature).unwrap();
    assert!(env.interner.used_count() > before);
    assert!(env.interner.used_count() - before <= decl_cost_capped(&signature.declarations[0]));
}

// class Outer; class Inner; end; end; class Alias = Outer
#[test]
fn declared_names_as_written_are_interned() {
    let inner = class("Inner", vec![], vec![], vec![]);
    let env = parse_and_insert(vec![
        class("Outer", vec![], vec![], vec![Member::Decl(inner)]),
        Decl::ClassAlias { new_name: tref(false, &["Outer"], "Alias"), old_name: rel("Outer") },
    ]);
    assert!(find_type_name_ref(&env.interner, &rel("Outer")).is_some());
    assert!(find_type_name_ref(&env.interner, &rel("Inner")).is_some());
    assert!(find_type_name_ref(&env.interner, &tref(false, &["Outer"], "Alias")).is_some());
    assert!(find_type_name_ref(&env.interner, &rel("Missing")).is_none());
}
