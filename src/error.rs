use vstd::prelude::*;

use crate::span::{Ident, Span};
use crate::types::MaybeResolvedType;

verus! {

#[derive(Debug, PartialEq, Eq)]
pub enum CompileError {
    NoScriptMainFunction(Span),
    MultipleScriptMainFunctions(Span),
    NoPredicateMainFunction(Span),
    MultiplePredicateMainFunctions(Span),
    PredicateMainDoesNotReturnBool(Span),
    UnknownSymbol { name: Ident },
    TypeMismatch { expected: MaybeResolvedType, received: MaybeResolvedType, span: Span },
}

#[derive(Debug, PartialEq, Eq)]
pub struct CompileWarning {
    pub message: String,
    pub span: Span,
}

/// The outcome of one stage: a value when the stage produced one, and the
/// diagnostics it raised. A value may come with errors.
pub struct CompileResult<T> {
    pub value: Option<T>,
    pub warnings: Vec<CompileWarning>,
    pub errors: Vec<CompileError>,
}

pub fn ok<T>(value: T, warnings: Vec<CompileWarning>, errors: Vec<CompileError>) -> (r:
    CompileResult<T>)
    ensures
        r.value == Some(value),
        r.warnings == warnings,
        r.errors == errors,
{
    CompileResult { value: Some(value), warnings, errors }
}

pub fn err<T>(warnings: Vec<CompileWarning>, errors: Vec<CompileError>) -> (r: CompileResult<T>)
    ensures
        r.value.is_none(),
        r.warnings == warnings,
        r.errors == errors,
{
    CompileResult { value: None, warnings, errors }
}

} // verus!
