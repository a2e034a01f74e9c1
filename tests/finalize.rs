use core_lang::error::{CompileError, CompileWarning};
use core_lang::span::{Ident, Span};
use core_lang::syntax_tree::{finalize, TreeType, TypedParseTree};
use core_lang::typed_ast::{
    TypedAstNode, TypedAstNodeContent, TypedDeclaration, TypedFunctionDeclaration,
};
use core_lang::parse_tree::{Expression, VariableDeclaration};
use core_lang::types::{IntegerBits, MaybeResolvedType, ResolvedType, TypeInfo};

fn ident(name: &str, start: usize) -> Ident {
    Ident::new(name.to_string(), Span::new(start, start + name.len()))
}

fn function(name: &str, start: usize, ret: ResolvedType) -> TypedFunctionDeclaration {
    TypedFunctionDeclaration {
        name: ident(name, start + 3),
        return_type: MaybeResolvedType::Resolved(ret),
        span: Span::new(start, start + 20),
    }
}

fn fn_node(name: &str, start: usize, ret: ResolvedType) -> TypedAstNode {
    TypedAstNode {
        content: TypedAstNodeContent::Declaration(TypedDeclaration::FunctionDeclaration(
            function(name, start, ret),
        )),
        span: Span::new(start, start + 20),
    }
}

fn impl_node(
    trait_name: &str,
    target: ResolvedType,
    methods: Vec<TypedFunctionDeclaration>,
    start: usize,
) -> TypedAstNode {
    TypedAstNode {
        content: TypedAstNodeContent::Declaration(TypedDeclaration::ImplTrait {
            trait_name: ident(trait_name, start + 5),
            methods,
            type_implementing_for: MaybeResolvedType::Resolved(target),
            span: Span::new(start, start + 60),
        }),
        span: Span::new(start, start + 60),
    }
}

fn expr_node(start: usize) -> TypedAstNode {
    TypedAstNode {
        content: TypedAstNodeContent::Expression {
            return_type: MaybeResolvedType::Resolved(ResolvedType::Unit),
        },
        span: Span::new(start, start + 4),
    }
}

fn unit_span() -> Span {
    Span::new(0, 500)
}

fn earlier_warning() -> CompileWarning {
    CompileWarning { message: "unused variable".to_string(), span: Span::new(7, 9) }
}

#[test]
fn script_without_main_is_fatal() {
    let nodes = vec![fn_node("helper", 0, ResolvedType::Unit), expr_node(30)];
    let r = finalize(nodes, TreeType::Script, unit_span(), 5u32, vec![earlier_warning()], vec![]);
    assert!(r.value.is_none());
    assert_eq!(r.errors, vec![CompileError::NoScriptMainFunction(unit_span())]);
    assert_eq!(r.warnings, vec![earlier_warning()]);
}

#[test]
fn script_with_two_mains_keeps_the_first() {
    let nodes = vec![
        fn_node("main", 0, ResolvedType::Unit),
        fn_node("helper", 40, ResolvedType::Unit),
        fn_node("main", 80, ResolvedType::Boolean),
    ];
    let r = finalize(nodes, TreeType::Script, unit_span(), 5u32, vec![], vec![]);
    assert_eq!(r.errors, vec![CompileError::MultipleScriptMainFunctions(Span::new(80, 100))]);
    match r.value {
        Some(TypedParseTree::Script { main_function, namespace, declarations, all_nodes }) => {
            assert_eq!(main_function, function("main", 0, ResolvedType::Unit));
            assert_eq!(namespace, 5u32);
            assert_eq!(declarations.len(), 3);
            assert_eq!(all_nodes.len(), 3);
        }
        _ => panic!("expected a script"),
    }
}

#[test]
fn script_keeps_declarations_and_all_nodes() {
    let nodes = vec![
        expr_node(0),
        fn_node("main", 10, ResolvedType::Unit),
        fn_node("helper", 40, ResolvedType::Unit),
    ];
    let r = finalize(nodes, TreeType::Script, unit_span(), (), vec![], vec![]);
    assert!(r.errors.is_empty());
    match r.value {
        Some(TypedParseTree::Script { main_function, declarations, all_nodes, .. }) => {
            assert_eq!(main_function, function("main", 10, ResolvedType::Unit));
            assert_eq!(
                declarations,
                vec![
                    TypedDeclaration::FunctionDeclaration(function("main", 10, ResolvedType::Unit)),
                    TypedDeclaration::FunctionDeclaration(function(
                        "helper",
                        40,
                        ResolvedType::Unit
                    )),
                ]
            );
            assert_eq!(all_nodes[0], expr_node(0));
            assert_eq!(all_nodes.len(), 3);
        }
        _ => panic!("expected a script"),
    }
}

#[test]
fn predicate_main_must_return_bool() {
    let nodes = vec![fn_node("main", 0, ResolvedType::UnsignedInteger(IntegerBits::SixtyFour))];
    let r = finalize(nodes, TreeType::Predicate, unit_span(), (), vec![], vec![]);
    assert_eq!(r.errors, vec![CompileError::PredicateMainDoesNotReturnBool(Span::new(0, 20))]);
    match r.value {
        Some(TypedParseTree::Predicate { main_function, .. }) => {
            assert_eq!(
                main_function,
                function("main", 0, ResolvedType::UnsignedInteger(IntegerBits::SixtyFour))
            );
        }
        _ => panic!("expected a predicate"),
    }
}

#[test]
fn predicate_with_boolean_main_is_clean() {
    let nodes = vec![fn_node("main", 0, ResolvedType::Boolean)];
    let r = finalize(nodes, TreeType::Predicate, unit_span(), (), vec![], vec![]);
    assert!(r.errors.is_empty());
    assert!(matches!(r.value, Some(TypedParseTree::Predicate { .. })));
}

#[test]
fn predicate_without_main_is_fatal() {
    let r = finalize(vec![expr_node(0)], TreeType::Predicate, unit_span(), (), vec![], vec![]);
    assert!(r.value.is_none());
    assert_eq!(r.errors, vec![CompileError::NoPredicateMainFunction(unit_span())]);
}

#[test]
fn predicate_with_two_mains_reports_both_problems() {
    let nodes = vec![
        fn_node("main", 0, ResolvedType::Unit),
        fn_node("main", 50, ResolvedType::Boolean),
    ];
    let earlier = CompileError::UnknownSymbol { name: ident("x", 3) };
    let r = finalize(nodes, TreeType::Predicate, unit_span(), (), vec![], vec![earlier]);
    assert_eq!(
        r.errors,
        vec![
            CompileError::UnknownSymbol { name: ident("x", 3) },
            CompileError::MultiplePredicateMainFunctions(Span::new(50, 70)),
            CompileError::PredicateMainDoesNotReturnBool(Span::new(0, 20)),
        ]
    );
    assert!(r.value.is_some());
}

#[test]
fn contract_abi_is_the_contract_impl_methods() {
    let contract_methods = vec![
        function("deposit", 10, ResolvedType::Unit),
        function("withdraw", 30, ResolvedType::Boolean),
    ];
    let other_methods = vec![function("describe", 110, ResolvedType::Unit)];
    let nodes = vec![
        impl_node("Wallet", ResolvedType::Contract, contract_methods, 0),
        impl_node("Show", ResolvedType::B256, other_methods, 100),
        expr_node(200),
    ];
    let r = finalize(nodes, TreeType::Contract, unit_span(), (), vec![], vec![]);
    assert!(r.errors.is_empty());
    match r.value {
        Some(TypedParseTree::Contract { abi_entries, declarations, all_nodes, .. }) => {
            assert_eq!(
                abi_entries,
                vec![
                    function("deposit", 10, ResolvedType::Unit),
                    function("withdraw", 30, ResolvedType::Boolean),
                ]
            );
            assert_eq!(declarations.len(), 1);
            match &declarations[0] {
                TypedDeclaration::ImplTrait { trait_name, methods, .. } => {
                    assert_eq!(trait_name.primary_name, "Show");
                    assert_eq!(methods, &vec![function("describe", 110, ResolvedType::Unit)]);
                }
                _ => panic!("expected the unrelated impl"),
            }
            assert_eq!(all_nodes.len(), 3);
        }
        _ => panic!("expected a contract"),
    }
}

#[test]
fn contract_needs_no_main() {
    let r = finalize(
        vec![fn_node("helper", 0, ResolvedType::Unit)],
        TreeType::Contract,
        unit_span(),
        (),
        vec![],
        vec![],
    );
    assert!(r.errors.is_empty());
    match r.value {
        Some(TypedParseTree::Contract { abi_entries, declarations, .. }) => {
            assert!(abi_entries.is_empty());
            assert_eq!(declarations.len(), 1);
        }
        _ => panic!("expected a contract"),
    }
}

#[test]
fn library_ignores_main() {
    let nodes = vec![
        fn_node("main", 0, ResolvedType::Unit),
        impl_node("Wallet", ResolvedType::Contract, vec![function("f", 70, ResolvedType::Unit)], 60),
    ];
    let r = finalize(nodes, TreeType::Library, unit_span(), 9u8, vec![], vec![]);
    assert!(r.errors.is_empty());
    match r.value {
        Some(TypedParseTree::Library { namespace, all_nodes }) => {
            assert_eq!(namespace, 9u8);
            assert_eq!(all_nodes.len(), 2);
        }
        _ => panic!("expected a library"),
    }
}

#[test]
fn tree_accessors() {
    let nodes = vec![fn_node("main", 0, ResolvedType::Unit), expr_node(30)];
    let r = finalize(nodes, TreeType::Script, unit_span(), 42u64, vec![], vec![]);
    let tree = r.value.unwrap();
    assert_eq!(*tree.namespace(), 42u64);
    assert_eq!(tree.all_nodes().len(), 2);
    assert_eq!(tree.all_nodes()[1], expr_node(30));
}

#[test]
fn boolean_and_contract_checks() {
    assert!(MaybeResolvedType::Resolved(ResolvedType::Boolean).is_resolved_boolean());
    assert!(!MaybeResolvedType::Resolved(ResolvedType::Unit).is_resolved_boolean());
    assert!(MaybeResolvedType::Resolved(ResolvedType::Contract).is_contract());
    assert!(!MaybeResolvedType::Resolved(ResolvedType::B256).is_contract());
}

#[test]
fn predicate_main_with_unresolved_boolean_is_rejected() {
    let main = TypedFunctionDeclaration {
        name: ident("main", 3),
        return_type: MaybeResolvedType::Partial(TypeInfo::Boolean),
        span: Span::new(0, 20),
    };
    let nodes = vec![TypedAstNode {
        content: TypedAstNodeContent::Declaration(TypedDeclaration::FunctionDeclaration(main)),
        span: Span::new(0, 20),
    }];
    let r = finalize(nodes, TreeType::Predicate, unit_span(), (), vec![], vec![]);
    assert_eq!(r.errors, vec![CompileError::PredicateMainDoesNotReturnBool(Span::new(0, 20))]);
    assert!(r.value.is_some());
}

#[test]
fn variable_declaration_holds_its_parts() {
    let decl = VariableDeclaration {
        name: ident("total", 4),
        type_ascription: TypeInfo::UnsignedInteger(IntegerBits::ThirtyTwo),
        type_ascription_span: Some(Span::new(11, 14)),
        body: Expression::FunctionApplication {
            name: ident("sum", 17),
            arguments: vec![Expression::Literal { value: 3, span: Span::new(21, 22) }],
            span: Span::new(17, 23),
        },
        is_mutable: true,
    };
    assert_eq!(decl.name.primary_name, "total");
    assert_eq!(decl.type_ascription_span, Some(Span::new(11, 14)));
    assert!(decl.is_mutable);
    match &decl.body {
        Expression::FunctionApplication { arguments, .. } => assert_eq!(arguments.len(), 1),
        _ => panic!("expected a call"),
    }
}
