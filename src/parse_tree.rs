use vstd::prelude::*;

use crate::span::{Ident, Span};
use crate::types::TypeInfo;

verus! {

/// An untyped expression.
#[derive(Debug, PartialEq, Eq)]
pub enum Expression {
    Literal { value: u64, span: Span },
    VariableExpression { name: Ident, span: Span },
    FunctionApplication { name: Ident, arguments: Vec<Expression>, span: Span },
}

/// An untyped `let` declaration.
#[derive(Debug, PartialEq, Eq)]
pub struct VariableDeclaration {
    pub name: Ident,
    pub type_ascription: TypeInfo,
    pub type_ascription_span: Option<Span>,
    pub body: Expression,
    pub is_mutable: bool,
}

/// The untyped top-level nodes of one compilation unit, in source order.
pub struct ParseTree<N> {
    pub root_nodes: Vec<N>,
    pub span: Span,
}

} // verus!
