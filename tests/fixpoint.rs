use std::cell::Cell;

use core_lang::error::{CompileError, CompileResult, CompileWarning};
use core_lang::fixpoint::{judge_pass, sort_pass, type_check_nodes, FixpointOutcome, PassVerdict};
use core_lang::parse_tree::ParseTree;
use core_lang::span::{Ident, Span};
use core_lang::syntax_tree::{TreeType, TypedParseTree};
use core_lang::typed_ast::{
    NodeTyper, TypedAstNode, TypedAstNodeContent, TypedDeclaration, TypedFunctionDeclaration,
};
use core_lang::types::{MaybeResolvedType, ResolvedType};

/// A top-level function: its name, the names it calls, and where it starts.
#[derive(Clone)]
struct FnItem {
    name: &'static str,
    calls: Vec<&'static str>,
    start: usize,
}

/// The names declared so far.
#[derive(Debug, PartialEq)]
struct Names(Vec<String>);

/// Types a function once everything it calls is declared, and then declares it.
struct Resolver {
    attempts: Cell<usize>,
}

fn resolver() -> Resolver {
    Resolver { attempts: Cell::new(0) }
}

fn ident(name: &str, start: usize) -> Ident {
    Ident::new(name.to_string(), Span::new(start, start + name.len()))
}

/// Types `node` once everything it calls is in `namespace`, and declares it there.
fn resolve(node: &FnItem, namespace: &mut Names) -> CompileResult<TypedAstNode> {
    for callee in &node.calls {
        if !namespace.0.iter().any(|n| n == callee) {
            return CompileResult {
                value: None,
                warnings: vec![CompileWarning {
                    message: format!("{} waits for {}", node.name, callee),
                    span: Span::new(node.start, node.start + 1),
                }],
                errors: vec![CompileError::UnknownSymbol { name: ident(callee, node.start + 10) }],
            };
        }
    }
    namespace.0.push(node.name.to_string());
    let decl = TypedFunctionDeclaration {
        name: ident(node.name, node.start + 3),
        return_type: MaybeResolvedType::Resolved(if node.name == "main" {
            ResolvedType::Boolean
        } else {
            ResolvedType::Unit
        }),
        span: Span::new(node.start, node.start + 20),
    };
    CompileResult {
        value: Some(TypedAstNode {
            content: TypedAstNodeContent::Declaration(TypedDeclaration::FunctionDeclaration(decl)),
            span: Span::new(node.start, node.start + 20),
        }),
        warnings: vec![],
        errors: vec![],
    }
}

impl NodeTyper<FnItem, Names> for Resolver {
    fn typed(&self, node: FnItem, namespace: Names) -> (CompileResult<TypedAstNode>, Names) {
        let mut namespace = namespace;
        let r = resolve(&node, &mut namespace);
        (r, namespace)
    }

    fn type_check_node(&self, node: &FnItem, namespace: &mut Names) -> CompileResult<TypedAstNode> {
        self.attempts.set(self.attempts.get() + 1);
        resolve(node, namespace)
    }
}

fn item(name: &'static str, calls: Vec<&'static str>, start: usize) -> FnItem {
    FnItem { name, calls, start }
}

fn typed_names(nodes: &[TypedAstNode]) -> Vec<String> {
    nodes
        .iter()
        .map(|n| match &n.content {
            TypedAstNodeContent::Declaration(TypedDeclaration::FunctionDeclaration(f)) => {
                f.name.primary_name.clone()
            }
            _ => String::new(),
        })
        .collect()
}

fn sorted(mut v: Vec<String>) -> Vec<String> {
    v.sort();
    v
}

#[test]
fn forward_references_resolve_in_any_order() {
    let items = vec![
        item("a", vec![], 0),
        item("b", vec!["a"], 100),
        item("c", vec!["b"], 200),
        item("d", vec!["a", "c"], 300),
    ];
    let orders: Vec<Vec<usize>> =
        vec![vec![0, 1, 2, 3], vec![3, 2, 1, 0], vec![2, 0, 3, 1], vec![1, 3, 0, 2]];
    for order in orders {
        let nodes: Vec<FnItem> = order.iter().map(|&i| items[i].clone()).collect();
        let mut namespace = Names(vec![]);
        let typer = resolver();
        let r = type_check_nodes(&nodes, &mut namespace, &typer);
        assert_eq!(r.outcome, FixpointOutcome::Complete);
        assert!(r.errors.is_empty());
        assert!(r.unresolved.is_empty());
        assert_eq!(sorted(typed_names(&r.nodes)), vec!["a", "b", "c", "d"]);
        assert_eq!(sorted(namespace.0), vec!["a", "b", "c", "d"]);
        // at most one pass per node, each on a shorter queue
        assert!(typer.attempts.get() <= 4 + 3 + 2 + 1);
    }
}

#[test]
fn typed_order_is_pass_by_pass_with_failures_retried_latest_first() {
    // Pass one types a; c and b fail and come back as [b, c]; pass two types both.
    let nodes = vec![item("c", vec!["b"], 0), item("b", vec!["a"], 100), item("a", vec![], 200)];
    let mut namespace = Names(vec![]);
    let typer = resolver();
    let r = type_check_nodes(&nodes, &mut namespace, &typer);
    assert_eq!(r.outcome, FixpointOutcome::Complete);
    assert_eq!(typed_names(&r.nodes), vec!["a", "b", "c"]);
    assert_eq!(namespace.0, vec!["a", "b", "c"]);
    // two passes: three attempts, then two
    assert_eq!(typer.attempts.get(), 5);
}

#[test]
fn later_nodes_see_earlier_ones_in_the_same_pass() {
    let nodes = vec![item("a", vec![], 0), item("b", vec!["a"], 100), item("c", vec!["b"], 200)];
    let mut namespace = Names(vec![]);
    let typer = resolver();
    let r = type_check_nodes(&nodes, &mut namespace, &typer);
    assert_eq!(r.outcome, FixpointOutcome::Complete);
    assert_eq!(typer.attempts.get(), 3);
    assert_eq!(typed_names(&r.nodes), vec!["a", "b", "c"]);
}

#[test]
fn undeclared_name_stalls_with_its_error_once() {
    let nodes = vec![item("a", vec![], 0), item("b", vec!["ghost"], 100), item("c", vec!["a"], 200)];
    let mut namespace = Names(vec![]);
    let typer = resolver();
    let r = type_check_nodes(&nodes, &mut namespace, &typer);
    assert_eq!(r.outcome, FixpointOutcome::Stalled);
    assert_eq!(r.unresolved, vec![1]);
    // two passes: three attempts, then the one that stalls
    assert_eq!(typer.attempts.get(), 4);
    assert_eq!(r.errors, vec![CompileError::UnknownSymbol { name: ident("ghost", 110) }]);
    assert_eq!(
        r.warnings,
        vec![CompileWarning { message: "b waits for ghost".to_string(), span: Span::new(100, 101) }]
    );
    assert_eq!(typed_names(&r.nodes), vec!["a", "c"]);
}

#[test]
fn mutual_dependency_stalls() {
    let nodes = vec![item("x", vec!["y"], 0), item("y", vec!["x"], 100)];
    let mut namespace = Names(vec![]);
    let r = type_check_nodes(&nodes, &mut namespace, &resolver());
    assert_eq!(r.outcome, FixpointOutcome::Stalled);
    assert_eq!(r.unresolved, vec![0, 1]);
    assert_eq!(r.errors.len(), 2);
    assert!(r.nodes.is_empty());
    assert!(namespace.0.is_empty());
}

#[test]
fn empty_unit_needs_no_pass() {
    let nodes: Vec<FnItem> = vec![];
    let mut namespace = Names(vec![]);
    let typer = resolver();
    let r = type_check_nodes(&nodes, &mut namespace, &typer);
    assert_eq!(r.outcome, FixpointOutcome::Complete);
    assert_eq!(typer.attempts.get(), 0);
    assert!(r.nodes.is_empty());
}

#[test]
fn long_reversed_chain_never_regresses() {
    let names: Vec<&'static str> = vec!["n0", "n1", "n2", "n3", "n4", "n5", "n6", "n7"];
    let mut nodes = vec![];
    for i in (0..names.len()).rev() {
        let calls = if i == 0 { vec![] } else { vec![names[i - 1]] };
        nodes.push(item(names[i], calls, i * 100));
    }
    let mut namespace = Names(vec![]);
    let typer = resolver();
    let r = type_check_nodes(&nodes, &mut namespace, &typer);
    assert_eq!(r.outcome, FixpointOutcome::Complete);
    let n = nodes.len();
    assert!(typer.attempts.get() <= n * (n + 1) / 2);
    assert_eq!(sorted(namespace.0), sorted(names.iter().map(|s| s.to_string()).collect()));
}

#[test]
fn pass_verdicts() {
    assert_eq!(judge_pass(true, 4, 4), PassVerdict::Progress);
    assert_eq!(judge_pass(false, 4, 4), PassVerdict::Stalled);
    assert_eq!(judge_pass(false, 4, 2), PassVerdict::Progress);
    assert_eq!(judge_pass(false, 2, 3), PassVerdict::Regressed);
    assert_eq!(judge_pass(true, 2, 3), PassVerdict::Regressed);
}

fn attempt(value: bool, errors: usize, at: usize) -> CompileResult<TypedAstNode> {
    CompileResult {
        value: if value {
            Some(TypedAstNode {
                content: TypedAstNodeContent::SideEffect,
                span: Span::new(at, at + 1),
            })
        } else {
            None
        },
        warnings: vec![CompileWarning { message: format!("w{}", at), span: Span::new(at, at) }],
        errors: (0..errors).map(|k| CompileError::UnknownSymbol { name: ident("e", at + k) }).collect(),
    }
}

#[test]
fn sorting_a_pass() {
    let queue = vec![7, 3, 5, 9];
    // a value with an error is still a failure
    let results = vec![attempt(false, 1, 0), attempt(true, 0, 10), attempt(true, 2, 20), attempt(true, 0, 30)];
    let s = sort_pass(&queue, results);
    assert_eq!(s.requeued, vec![5, 7]);
    assert_eq!(s.successes.len(), 2);
    assert_eq!(s.successes[0].value.as_ref().unwrap().span, Span::new(10, 11));
    assert_eq!(s.successes[1].value.as_ref().unwrap().span, Span::new(30, 31));
    assert_eq!(
        s.errors,
        vec![
            CompileError::UnknownSymbol { name: ident("e", 0) },
            CompileError::UnknownSymbol { name: ident("e", 20) },
            CompileError::UnknownSymbol { name: ident("e", 21) },
        ]
    );
    assert_eq!(s.warnings.len(), 2);
    assert_eq!(s.warnings[1].message, "w20");
}

#[test]
fn type_check_script_end_to_end() {
    let parsed = ParseTree {
        root_nodes: vec![item("main", vec!["helper"], 0), item("helper", vec![], 100)],
        span: Span::new(0, 300),
    };
    let r = TypedParseTree::type_check(parsed, Names(vec![]), TreeType::Script, &resolver());
    assert!(r.errors.is_empty());
    match r.value {
        Some(TypedParseTree::Script { main_function, namespace, declarations, all_nodes }) => {
            assert_eq!(main_function.name.primary_name, "main");
            assert_eq!(namespace.0, vec!["helper", "main"]);
            assert_eq!(declarations.len(), 2);
            assert_eq!(typed_names(&all_nodes), vec!["helper", "main"]);
        }
        _ => panic!("expected a script"),
    }
}

#[test]
fn type_check_stalled_unit_gives_no_tree() {
    let parsed = ParseTree {
        root_nodes: vec![item("main", vec!["missing"], 0), item("helper", vec![], 100)],
        span: Span::new(0, 300),
    };
    let r = TypedParseTree::type_check(parsed, Names(vec![]), TreeType::Script, &resolver());
    assert!(r.value.is_none());
    assert_eq!(r.errors, vec![CompileError::UnknownSymbol { name: ident("missing", 10) }]);
    assert_eq!(
        r.warnings,
        vec![CompileWarning { message: "main waits for missing".to_string(), span: Span::new(0, 1) }]
    );
}

#[test]
fn type_check_stalled_library_gives_no_tree() {
    let parsed = ParseTree {
        root_nodes: vec![item("util", vec![], 0), item("broken", vec!["nowhere"], 100)],
        span: Span::new(0, 300),
    };
    let r = TypedParseTree::type_check(parsed, Names(vec![]), TreeType::Library, &resolver());
    assert!(r.value.is_none());
    assert_eq!(r.errors, vec![CompileError::UnknownSymbol { name: ident("nowhere", 110) }]);
}

#[test]
fn type_check_library_with_main() {
    let parsed = ParseTree {
        root_nodes: vec![item("main", vec![], 0), item("util", vec!["main"], 100)],
        span: Span::new(0, 300),
    };
    let r = TypedParseTree::type_check(parsed, Names(vec![]), TreeType::Library, &resolver());
    assert!(r.errors.is_empty());
    match r.value {
        Some(tree @ TypedParseTree::Library { .. }) => {
            assert_eq!(tree.all_nodes().len(), 2);
            assert_eq!(tree.namespace().0, vec!["main", "util"]);
        }
        _ => panic!("expected a library"),
    }
}

#[test]
fn type_check_predicate_with_boolean_main() {
    let parsed = ParseTree { root_nodes: vec![item("main", vec![], 0)], span: Span::new(0, 50) };
    let r = TypedParseTree::type_check(parsed, Names(vec![]), TreeType::Predicate, &resolver());
    assert!(r.errors.is_empty());
    assert!(matches!(r.value, Some(TypedParseTree::Predicate { .. })));
}
