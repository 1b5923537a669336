//! The parser's syntax tree as the library reads it: which kind of node
//! each parser node is, and type expressions as trees whose walk lists
//! the type names they mention.
use vstd::prelude::*;

use crate::signature::TypeNameRef;

verus! {

/// The parser's node variants the walks tell apart; every other variant
/// (literal values, sub-components read through their parent, metadata,
/// inline annotations) is `Other`.
#[derive(Debug, Clone, Copy, PartialEq, Eq, Structural)]
pub enum NodeTag {
    Class,
    Module,
    Interface,
    TypeAlias,
    Constant,
    Global,
    ClassAlias,
    ModuleAlias,
    MethodDefinition,
    AttrAccessor,
    AttrReader,
    AttrWriter,
    InstanceVariable,
    ClassInstanceVariable,
    ClassVariable,
    Include,
    Extend,
    Prepend,
    Public,
    Private,
    Alias,
    ClassInstanceType,
    InterfaceType,
    AliasType,
    ClassSingletonType,
    TupleType,
    UnionType,
    IntersectionType,
    RecordType,
    OptionalType,
    ProcType,
    FunctionType,
    UntypedFunctionType,
    LiteralType,
    VariableType,
    BoolType,
    VoidType,
    AnyType,
    NilType,
    TopType,
    BottomType,
    SelfType,
    InstanceType,
    ClassType,
    BlockType,
    RecordFieldType,
    UseSingleClause,
    UseWildcardClause,
    Other,
}

/// What a node is to the walks: a declaration, a body member, a type,
/// a `# use` clause, or none of these.
#[derive(Debug, Clone, Copy, PartialEq, Eq, Structural)]
pub enum NodeClass {
    Decl,
    Member,
    Type,
    UseClause,
    Other,
}

/// The class of each node variant (`RBS::AST::Declarations`,
/// `RBS::AST::Members`, `RBS::Types`, the `# use` clauses).
pub open spec fn node_class(tag: NodeTag) -> NodeClass {
    match tag {
        NodeTag::Class | NodeTag::Module | NodeTag::Interface | NodeTag::TypeAlias | NodeTag::Constant
        | NodeTag::Global | NodeTag::ClassAlias | NodeTag::ModuleAlias => NodeClass::Decl,
        NodeTag::MethodDefinition | NodeTag::AttrAccessor | NodeTag::AttrReader | NodeTag::AttrWriter
        | NodeTag::InstanceVariable | NodeTag::ClassInstanceVariable | NodeTag::ClassVariable
        | NodeTag::Include | NodeTag::Extend | NodeTag::Prepend | NodeTag::Public | NodeTag::Private
        | NodeTag::Alias => NodeClass::Member,
        NodeTag::UseSingleClause | NodeTag::UseWildcardClause => NodeClass::UseClause,
        NodeTag::Other => NodeClass::Other,
        _ => NodeClass::Type,
    }
}

/// The class of a node variant.
pub fn classify(tag: NodeTag) -> (c: NodeClass)
    ensures
        c == node_class(tag),
{
    match tag {
        NodeTag::Class | NodeTag::Module | NodeTag::Interface | NodeTag::TypeAlias | NodeTag::Constant
        | NodeTag::Global | NodeTag::ClassAlias | NodeTag::ModuleAlias => NodeClass::Decl,
        NodeTag::MethodDefinition | NodeTag::AttrAccessor | NodeTag::AttrReader | NodeTag::AttrWriter
        | NodeTag::InstanceVariable | NodeTag::ClassInstanceVariable | NodeTag::ClassVariable
        | NodeTag::Include | NodeTag::Extend | NodeTag::Prepend | NodeTag::Public | NodeTag::Private
        | NodeTag::Alias => NodeClass::Member,
        NodeTag::UseSingleClause | NodeTag::UseWildcardClause => NodeClass::UseClause,
        NodeTag::Other => NodeClass::Other,
        _ => NodeClass::Type,
    }
}

/// Whether a node variant is a declaration.
pub fn is_decl_tag(tag: NodeTag) -> (b: bool)
    ensures
        b == (node_class(tag) == NodeClass::Decl),
{
    match classify(tag) {
        NodeClass::Decl => true,
        _ => false,
    }
}

/// A type expression, as far as resolution reads it: a type that names
/// a type (class instance, interface, alias or singleton type) with its
/// argument types; a type made of other types, listed in the order the
/// walk visits them (tuple, union and intersection members, record
/// fields, optional, proc, block and function parts); or a type that
/// names none (literals, variables, base types).
#[derive(Debug)]
pub enum TypeExpr {
    Named { name: TypeNameRef, args: Vec<TypeExpr> },
    Compound { parts: Vec<TypeExpr> },
    Leaf,
}

/// The type names `t` mentions, in walk order: a named type before its
/// arguments, parts left to right.
pub open spec fn type_refs(t: TypeExpr) -> Seq<TypeNameRef>
    decreases t,
{
    match t {
        TypeExpr::Named { name, args } => seq![name] + types_refs(args@),
        TypeExpr::Compound { parts } => types_refs(parts@),
        TypeExpr::Leaf => Seq::empty(),
    }
}

/// The type names the types of `ts` mention, left to right.
pub open spec fn types_refs(ts: Seq<TypeExpr>) -> Seq<TypeNameRef>
    decreases ts,
{
    if ts.len() == 0 {
        Seq::empty()
    } else {
        types_refs(ts.drop_last()) + type_refs(ts.last())
    }
}

/// Append the type names `t` mentions to `out`, in walk order.
pub fn push_type_refs(t: TypeExpr, out: &mut Vec<TypeNameRef>)
    ensures
        final(out)@ == old(out)@ + type_refs(t),
    decreases t,
{
    match t {
        TypeExpr::Named { name, args } => {
            let ghost a = args@;
            out.push(name);
            push_types_refs(args, out);
            proof {
                assert(out@ =~= old(out)@ + (seq![name] + types_refs(a)));
            }
        },
        TypeExpr::Compound { parts } => push_types_refs(parts, out),
        TypeExpr::Leaf => {
            assert(out@ =~= old(out)@ + Seq::<TypeNameRef>::empty());
        },
    }
}

/// Append the type names the types of `ts` mention to `out`, left to
/// right.
fn push_types_refs(ts: Vec<TypeExpr>, out: &mut Vec<TypeNameRef>)
    ensures
        final(out)@ == old(out)@ + types_refs(ts@),
    decreases ts@,
{
    let mut ts = ts;
    let ghost all = ts@;
    if ts.len() == 0 {
        assert(out@ =~= old(out)@ + Seq::<TypeNameRef>::empty());
        return;
    }
    let last = ts.pop().unwrap();
    proof {
        assert(ts@ =~= all.drop_last());
    }
    push_types_refs(ts, out);
    push_type_refs(last, out);
    proof {
        assert(out@ =~= old(out)@ + (types_refs(all.drop_last()) + type_refs(all.last())));
    }
}

} // verus!
