use vstd::prelude::*;

use crate::error::CompileResult;
use crate::span::{Ident, Span};
use crate::types::MaybeResolvedType;

verus! {

#[derive(Debug, PartialEq, Eq)]
pub struct TypedFunctionDeclaration {
    pub name: Ident,
    pub return_type: MaybeResolvedType,
    pub span: Span,
}

impl TypedFunctionDeclaration {
    pub fn duplicate(&self) -> (r: TypedFunctionDeclaration)
        ensures
            r == *self,
    {
        TypedFunctionDeclaration {
            name: self.name.duplicate(),
            return_type: self.return_type,
            span: self.span,
        }
    }
}

/// Copies a list of functions, keeping their order.
pub fn duplicate_functions(fs: &Vec<TypedFunctionDeclaration>) -> (r: Vec<TypedFunctionDeclaration>)
    ensures
        r@ == fs@,
{
    let mut r: Vec<TypedFunctionDeclaration> = Vec::new();
    let mut i: usize = 0;
    while i < fs.len()
        invariant
            i <= fs.len(),
            r@ == fs@.take(i as int),
        decreases fs.len() - i,
    {
        r.push(fs[i].duplicate());
        i = i + 1;
        assert(r@ =~= fs@.take(i as int));
    }
    assert(r@ =~= fs@);
    r
}

#[derive(Debug, PartialEq, Eq)]
pub enum TypedDeclaration {
    VariableDeclaration { name: Ident, is_mutable: bool, body_type: MaybeResolvedType },
    FunctionDeclaration(TypedFunctionDeclaration),
    TraitDeclaration { name: Ident, span: Span },
    StructDeclaration { name: Ident, span: Span },
    /// `impl Trait for Type { methods }`.
    ImplTrait {
        trait_name: Ident,
        methods: Vec<TypedFunctionDeclaration>,
        type_implementing_for: MaybeResolvedType,
        span: Span,
    },
}

impl TypedDeclaration {
    /// Equal declarations: the same fields, with method lists compared by contents.
    pub open spec fn same_as(self, other: TypedDeclaration) -> bool {
        match (self, other) {
            (
                TypedDeclaration::ImplTrait {
                    trait_name: n1,
                    methods: m1,
                    type_implementing_for: t1,
                    span: s1,
                },
                TypedDeclaration::ImplTrait {
                    trait_name: n2,
                    methods: m2,
                    type_implementing_for: t2,
                    span: s2,
                },
            ) => n1 == n2 && m1@ == m2@ && t1 == t2 && s1 == s2,
            _ => self == other,
        }
    }

    pub fn duplicate(&self) -> (r: TypedDeclaration)
        ensures
            r.same_as(*self),
    {
        match self {
            TypedDeclaration::VariableDeclaration { name, is_mutable, body_type } => {
                TypedDeclaration::VariableDeclaration {
                    name: name.duplicate(),
                    is_mutable: *is_mutable,
                    body_type: *body_type,
                }
            },
            TypedDeclaration::FunctionDeclaration(f) => {
                TypedDeclaration::FunctionDeclaration(f.duplicate())
            },
            TypedDeclaration::TraitDeclaration { name, span } => {
                TypedDeclaration::TraitDeclaration { name: name.duplicate(), span: *span }
            },
            TypedDeclaration::StructDeclaration { name, span } => {
                TypedDeclaration::StructDeclaration { name: name.duplicate(), span: *span }
            },
            TypedDeclaration::ImplTrait { trait_name, methods, type_implementing_for, span } => {
                TypedDeclaration::ImplTrait {
                    trait_name: trait_name.duplicate(),
                    methods: duplicate_functions(methods),
                    type_implementing_for: *type_implementing_for,
                    span: *span,
                }
            },
        }
    }
}

/// Two lists of declarations that agree element by element.
pub open spec fn same_declarations(a: Seq<TypedDeclaration>, b: Seq<TypedDeclaration>) -> bool {
    a.len() == b.len() && forall|i: int| 0 <= i < a.len() ==> (#[trigger] a[i]).same_as(b[i])
}

#[derive(Debug, PartialEq, Eq)]
pub enum TypedAstNodeContent {
    Declaration(TypedDeclaration),
    Expression { return_type: MaybeResolvedType },
    SideEffect,
}

#[derive(Debug, PartialEq, Eq)]
pub struct TypedAstNode {
    pub content: TypedAstNodeContent,
    pub span: Span,
}

/// Types one untyped top-level node of kind `N` against a namespace of kind `S`.
///
/// The answer depends on the node and the namespace alone: `typed` names it,
/// together with the namespace after the attempt. An attempt that gives no
/// value leaves the namespace as it was; one that gives a value may extend it,
/// whether or not errors come with the value.
pub trait NodeTyper<N, S> {
    spec fn typed(&self, node: N, namespace: S) -> (CompileResult<TypedAstNode>, S);

    fn type_check_node(&self, node: &N, namespace: &mut S) -> (r: CompileResult<TypedAstNode>)
        ensures
            (r, *final(namespace)) == self.typed(*node, *old(namespace)),
            self.typed(*node, *old(namespace)).0.value is None ==> *final(namespace) == *old(
                namespace,
            ),
    ;
}

} // verus!
