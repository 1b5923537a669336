use librbs_core::signature::TypeNameRef;
use librbs_core::syntax::{classify, is_decl_tag, push_type_refs, NodeClass, NodeTag, TypeExpr};

fn rel(name: &str) -> TypeNameRef {
    TypeNameRef { absolute: false, path: Vec::new(), name: name.to_string() }
}

#[test]
fn node_tags_are_classified() {
    assert_eq!(classify(NodeTag::Class), NodeClass::Decl);
    assert_eq!(classify(NodeTag::ModuleAlias), NodeClass::Decl);
    assert_eq!(classify(NodeTag::Include), NodeClass::Member);
    assert_eq!(classify(NodeTag::Alias), NodeClass::Member);
    assert_eq!(classify(NodeTag::UnionType), NodeClass::Type);
    assert_eq!(classify(NodeTag::RecordFieldType), NodeClass::Type);
    assert_eq!(classify(NodeTag::UseWildcardClause), NodeClass::UseClause);
    assert_eq!(classify(NodeTag::Other), NodeClass::Other);
    assert!(is_decl_tag(NodeTag::Global));
    assert!(!is_decl_tag(NodeTag::MethodDefinition));
}

// Array[Foo] | [Bar, ^(Baz) -> Qux] | bool
#[test]
fn type_tree_lists_names_in_walk_order() {
    let t = TypeExpr::Compound {
        parts: vec![
            TypeExpr::Named { name: rel("Array"), args: vec![TypeExpr::Named { name: rel("Foo"), args: vec![] }] },
            TypeExpr::Compound {
                parts: vec![
                    TypeExpr::Named { name: rel("Bar"), args: vec![] },
                    TypeExpr::Compound {
                        parts: vec![
                            TypeExpr::Named { name: rel("Baz"), args: vec![] },
                            TypeExpr::Named { name: rel("Qux"), args: vec![] },
                        ],
                    },
                ],
            },
            TypeExpr::Leaf,
        ],
    };
    let mut out = vec![rel("Before")];
    push_type_refs(t, &mut out);
    let names: Vec<String> = out.iter().map(|r| r.name.clone()).collect();
    assert_eq!(names, vec!["Before", "Array", "Foo", "Bar", "Baz", "Qux"]);
}
