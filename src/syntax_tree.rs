use vstd::prelude::*;
use vstd::string::StringExecFns;

use crate::error::{err, ok, CompileError, CompileResult, CompileWarning};
use crate::fixpoint::{
    fixpoint_errors, fixpoint_namespace, fixpoint_nodes, fixpoint_run, fixpoint_warnings,
    lemma_take_step,
    type_check_nodes, FixpointOutcome,
};
use crate::parse_tree::ParseTree;
use crate::span::Span;
use crate::typed_ast::{
    duplicate_functions, same_declarations, TypedAstNode, TypedAstNodeContent, TypedDeclaration,
    NodeTyper, TypedFunctionDeclaration,
};

verus! {

/// The kind of program a compilation unit declares itself to be.
#[derive(Clone, Copy, Debug, PartialEq, Eq, Structural)]
pub enum TreeType {
    Predicate,
    Script,
    Contract,
    Library,
}

/// A fully typed compilation unit, shaped by its program kind.
///
/// `all_nodes` keeps every typed top-level node for control-flow analysis; the
/// other fields are what code generation needs for that kind.
#[derive(Debug, PartialEq, Eq)]
pub enum TypedParseTree<S> {
    Script {
        main_function: TypedFunctionDeclaration,
        namespace: S,
        declarations: Vec<TypedDeclaration>,
        all_nodes: Vec<TypedAstNode>,
    },
    Predicate {
        main_function: TypedFunctionDeclaration,
        namespace: S,
        declarations: Vec<TypedDeclaration>,
        all_nodes: Vec<TypedAstNode>,
    },
    Contract {
        abi_entries: Vec<TypedFunctionDeclaration>,
        namespace: S,
        declarations: Vec<TypedDeclaration>,
        all_nodes: Vec<TypedAstNode>,
    },
    Library { namespace: S, all_nodes: Vec<TypedAstNode> },
}

/// The reserved name of a script's or predicate's entry point.
pub open spec fn main_name() -> Seq<char> {
    "main"@
}

/// The function a node declares, when it declares one named `main`.
pub open spec fn main_function_of(n: TypedAstNode) -> Option<TypedFunctionDeclaration> {
    match n.content {
        TypedAstNodeContent::Declaration(TypedDeclaration::FunctionDeclaration(f)) => {
            if f.name.primary_name@ == main_name() {
                Some(f)
            } else {
                None
            }
        },
        _ => None,
    }
}

/// Every function named `main` among the nodes, in node order.
pub open spec fn main_functions(nodes: Seq<TypedAstNode>) -> Seq<TypedFunctionDeclaration>
    decreases nodes.len(),
{
    if nodes.len() == 0 {
        seq![]
    } else {
        let before = main_functions(nodes.drop_last());
        match main_function_of(nodes.last()) {
            Some(f) => before.push(f),
            None => before,
        }
    }
}

/// Every declaration among the nodes, in node order.
pub open spec fn declarations_of(nodes: Seq<TypedAstNode>) -> Seq<TypedDeclaration>
    decreases nodes.len(),
{
    if nodes.len() == 0 {
        seq![]
    } else {
        let before = declarations_of(nodes.drop_last());
        match nodes.last().content {
            TypedAstNodeContent::Declaration(d) => before.push(d),
            _ => before,
        }
    }
}

/// A trait implementation written directly for the contract type.
pub open spec fn is_abi_impl(d: TypedDeclaration) -> bool {
    match d {
        TypedDeclaration::ImplTrait { type_implementing_for, .. } => type_implementing_for.spec_is_contract(),
        _ => false,
    }
}

/// The methods of every trait implementation for the contract type, in order.
pub open spec fn abi_entries_of(nodes: Seq<TypedAstNode>) -> Seq<TypedFunctionDeclaration>
    decreases nodes.len(),
{
    if nodes.len() == 0 {
        seq![]
    } else {
        let before = abi_entries_of(nodes.drop_last());
        match nodes.last().content {
            TypedAstNodeContent::Declaration(d) => match d {
                TypedDeclaration::ImplTrait { methods, type_implementing_for, .. } => {
                    if type_implementing_for.spec_is_contract() {
                        before + methods@
                    } else {
                        before
                    }
                },
                _ => before,
            },
            _ => before,
        }
    }
}

/// The declarations of a contract that are not part of its ABI, in order.
pub open spec fn contract_declarations_of(nodes: Seq<TypedAstNode>) -> Seq<TypedDeclaration>
    decreases nodes.len(),
{
    if nodes.len() == 0 {
        seq![]
    } else {
        let before = contract_declarations_of(nodes.drop_last());
        match nodes.last().content {
            TypedAstNodeContent::Declaration(d) => if is_abi_impl(d) {
                before
            } else {
                before.push(d)
            },
            _ => before,
        }
    }
}

/// The diagnostics the finaliser itself adds for a program kind, given the
/// unit's functions named `main`.
pub open spec fn main_errors(
    tree_type: TreeType,
    mains: Seq<TypedFunctionDeclaration>,
    unit_span: Span,
) -> Seq<CompileError> {
    match tree_type {
        TreeType::Script => if mains.len() == 0 {
            seq![CompileError::NoScriptMainFunction(unit_span)]
        } else if mains.len() > 1 {
            seq![CompileError::MultipleScriptMainFunctions(mains.last().span)]
        } else {
            seq![]
        },
        TreeType::Predicate => if mains.len() == 0 {
            seq![CompileError::NoPredicateMainFunction(unit_span)]
        } else {
            (if mains.len() > 1 {
                seq![CompileError::MultiplePredicateMainFunctions(mains.last().span)]
            } else {
                seq![]
            }) + (if mains[0].return_type.spec_is_resolved_boolean() {
                seq![]
            } else {
                seq![CompileError::PredicateMainDoesNotReturnBool(mains[0].span)]
            })
        },
        _ => seq![],
    }
}

/// A script or predicate without a `main` has no typed tree.
pub open spec fn lacks_main(tree_type: TreeType, nodes: Seq<TypedAstNode>) -> bool {
    (tree_type == TreeType::Script || tree_type == TreeType::Predicate) && main_functions(
        nodes,
    ).len() == 0
}

/// `t` is the tree of kind `tree_type` built from `nodes` and `namespace`.
pub open spec fn shaped<S>(
    t: TypedParseTree<S>,
    tree_type: TreeType,
    nodes: Seq<TypedAstNode>,
    namespace: S,
) -> bool {
    &&& t.tree_type() == tree_type
    &&& t.spec_all_nodes() == nodes
    &&& t.spec_namespace() == namespace
    &&& t.spec_main_function() == if tree_type == TreeType::Script || tree_type
        == TreeType::Predicate {
        Some(main_functions(nodes)[0])
    } else {
        None
    }
    &&& match tree_type {
        TreeType::Library => t.spec_declarations() is None,
        TreeType::Contract => t.spec_declarations() is Some && same_declarations(
            t.spec_declarations().unwrap(),
            contract_declarations_of(nodes),
        ),
        _ => t.spec_declarations() is Some && same_declarations(
            t.spec_declarations().unwrap(),
            declarations_of(nodes),
        ),
    }
    &&& t.spec_abi_entries() == if tree_type == TreeType::Contract {
        Some(abi_entries_of(nodes))
    } else {
        None
    }
}

/// What finalising `nodes` as a `tree_type` gives, after the diagnostics
/// `warnings` and `errors` of the earlier stages.
pub open spec fn finalized<S>(
    nodes: Seq<TypedAstNode>,
    tree_type: TreeType,
    unit_span: Span,
    namespace: S,
    warnings: Seq<CompileWarning>,
    errors: Seq<CompileError>,
    r: CompileResult<TypedParseTree<S>>,
) -> bool {
    &&& r.warnings@ == warnings
    &&& r.errors@ == errors + main_errors(tree_type, main_functions(nodes), unit_span)
    &&& r.value is None <==> lacks_main(tree_type, nodes)
    &&& r.value is Some ==> shaped(r.value.unwrap(), tree_type, nodes, namespace)
}

/// Copies of the functions named `main`, in node order.
pub fn find_main_functions(nodes: &Vec<TypedAstNode>) -> (r: Vec<TypedFunctionDeclaration>)
    ensures
        r@ == main_functions(nodes@),
{
    let main = String::from_str("main");
    let mut r: Vec<TypedFunctionDeclaration> = Vec::new();
    let mut i: usize = 0;
    while i < nodes.len()
        invariant
            i <= nodes.len(),
            main@ == main_name(),
            r@ == main_functions(nodes@.take(i as int)),
        decreases nodes.len() - i,
    {
        proof {
            lemma_take_step(nodes@, i as int);
        }
        match &nodes[i].content {
            TypedAstNodeContent::Declaration(TypedDeclaration::FunctionDeclaration(f)) => {
                if f.name.primary_name == main {
                    r.push(f.duplicate());
                }
            },
            _ => {},
        }
        i = i + 1;
    }
    assert(nodes@.take(nodes@.len() as int) =~= nodes@);
    r
}

/// Copies of every declaration, in node order.
pub fn collect_declarations(nodes: &Vec<TypedAstNode>) -> (r: Vec<TypedDeclaration>)
    ensures
        same_declarations(r@, declarations_of(nodes@)),
{
    let mut r: Vec<TypedDeclaration> = Vec::new();
    let mut i: usize = 0;
    while i < nodes.len()
        invariant
            i <= nodes.len(),
            same_declarations(r@, declarations_of(nodes@.take(i as int))),
        decreases nodes.len() - i,
    {
        proof {
            lemma_take_step(nodes@, i as int);
        }
        match &nodes[i].content {
            TypedAstNodeContent::Declaration(d) => {
                r.push(d.duplicate());
            },
            _ => {},
        }
        i = i + 1;
    }
    assert(nodes@.take(nodes@.len() as int) =~= nodes@);
    r
}

/// The ABI entries of a contract and its remaining declarations.
pub fn split_contract(nodes: &Vec<TypedAstNode>) -> (r: (
    Vec<TypedFunctionDeclaration>,
    Vec<TypedDeclaration>,
))
    ensures
        r.0@ == abi_entries_of(nodes@),
        same_declarations(r.1@, contract_declarations_of(nodes@)),
{
    let mut abi_entries: Vec<TypedFunctionDeclaration> = Vec::new();
    let mut declarations: Vec<TypedDeclaration> = Vec::new();
    let mut i: usize = 0;
    while i < nodes.len()
        invariant
            i <= nodes.len(),
            abi_entries@ == abi_entries_of(nodes@.take(i as int)),
            same_declarations(declarations@, contract_declarations_of(nodes@.take(i as int))),
        decreases nodes.len() - i,
    {
        proof {
            lemma_take_step(nodes@, i as int);
        }
        match &nodes[i].content {
            TypedAstNodeContent::Declaration(d) => {
                match d {
                    TypedDeclaration::ImplTrait { methods, type_implementing_for, .. } => {
                        if type_implementing_for.is_contract() {
                            let mut copies = duplicate_functions(methods);
                            abi_entries.append(&mut copies);
                        } else {
                            declarations.push(d.duplicate());
                        }
                    },
                    _ => {
                        declarations.push(d.duplicate());
                    },
                }
            },
            _ => {},
        }
        i = i + 1;
    }
    assert(nodes@.take(nodes@.len() as int) =~= nodes@);
    (abi_entries, declarations)
}

/// Validates the typed nodes of a unit against the rules of its program kind
/// and packages them into the tree of that kind.
///
/// A script or predicate needs a function named `main`: without one no tree is
/// built. With several, the first is the entry point and an error names the
/// last. A predicate whose `main` does not return a boolean is reported, and
/// its tree is still built. A contract's ABI is the methods of its trait
/// implementations for the contract type. A library keeps only its namespace
/// and nodes.
pub fn finalize<S>(
    nodes: Vec<TypedAstNode>,
    tree_type: TreeType,
    unit_span: Span,
    namespace: S,
    warnings: Vec<CompileWarning>,
    errors: Vec<CompileError>,
) -> (r: CompileResult<TypedParseTree<S>>)
    ensures
        finalized(nodes@, tree_type, unit_span, namespace, warnings@, errors@, r),
{
    let ghost errors0 = errors@;
    let mut errors = errors;
    match tree_type {
        TreeType::Library => {
            assert(errors@ =~= errors0 + main_errors(tree_type, main_functions(nodes@), unit_span));
            ok(TypedParseTree::Library { namespace, all_nodes: nodes }, warnings, errors)
        },
        TreeType::Contract => {
            let (abi_entries, declarations) = split_contract(&nodes);
            assert(errors@ =~= errors0 + main_errors(tree_type, main_functions(nodes@), unit_span));
            ok(
                TypedParseTree::Contract { abi_entries, namespace, declarations, all_nodes: nodes },
                warnings,
                errors,
            )
        },
        _ => {
            let is_script = tree_type == TreeType::Script;
            let mut mains = find_main_functions(&nodes);
            let count = mains.len();
            if count > 1 {
                let last = mains[count - 1].span;
                if is_script {
                    errors.push(CompileError::MultipleScriptMainFunctions(last));
                } else {
                    errors.push(CompileError::MultiplePredicateMainFunctions(last));
                }
            } else if count == 0 {
                if is_script {
                    errors.push(CompileError::NoScriptMainFunction(unit_span));
                } else {
                    errors.push(CompileError::NoPredicateMainFunction(unit_span));
                }
                assert(errors@ =~= errors0 + main_errors(tree_type, main_functions(nodes@), unit_span));
                return err(warnings, errors);
            }
            let main_function = mains.remove(0);
            if !is_script && !main_function.return_type.is_resolved_boolean() {
                errors.push(CompileError::PredicateMainDoesNotReturnBool(main_function.span));
            }
            assert(errors@ =~= errors0 + main_errors(tree_type, main_functions(nodes@), unit_span));
            let declarations = collect_declarations(&nodes);
            if is_script {
                ok(
                    TypedParseTree::Script { main_function, namespace, declarations, all_nodes: nodes },
                    warnings,
                    errors,
                )
            } else {
                ok(
                    TypedParseTree::Predicate {
                        main_function,
                        namespace,
                        declarations,
                        all_nodes: nodes,
                    },
                    warnings,
                    errors,
                )
            }
        },
    }
}

/// A library's tree never has an entry point, a list of declarations or an
/// ABI, whatever its nodes declare, a function named `main` included.
pub proof fn lemma_library_exposes_only_its_namespace<S>(
    nodes: Seq<TypedAstNode>,
    unit_span: Span,
    namespace: S,
    warnings: Seq<CompileWarning>,
    errors: Seq<CompileError>,
    r: CompileResult<TypedParseTree<S>>,
)
    requires
        finalized(nodes, TreeType::Library, unit_span, namespace, warnings, errors, r),
    ensures
        r.value is Some,
        r.value.unwrap() is Library,
        r.value.unwrap().spec_main_function() is None,
        r.value.unwrap().spec_declarations() is None,
        r.value.unwrap().spec_abi_entries() is None,
        r.value.unwrap().spec_all_nodes() == nodes,
        r.errors@ == errors,
{
    assert(r.errors@ =~= errors);
}

/// A node that is a trait implementation for the contract type.
pub open spec fn is_contract_impl_node(n: TypedAstNode) -> bool {
    match n.content {
        TypedAstNodeContent::Declaration(d) => is_abi_impl(d),
        _ => false,
    }
}

proof fn lemma_contract_split_concat(a: Seq<TypedAstNode>, b: Seq<TypedAstNode>)
    ensures
        abi_entries_of(a + b) == abi_entries_of(a) + abi_entries_of(b),
        contract_declarations_of(a + b) == contract_declarations_of(a) + contract_declarations_of(
            b,
        ),
    decreases b.len(),
{
    if b.len() == 0 {
        assert(a + b =~= a);
        assert(abi_entries_of(a) + abi_entries_of(b) =~= abi_entries_of(a));
        assert(contract_declarations_of(a) + contract_declarations_of(b) =~= contract_declarations_of(a));
    } else {
        lemma_contract_split_concat(a, b.drop_last());
        assert((a + b).drop_last() =~= a + b.drop_last());
        assert((a + b).last() == b.last());
        let abi_a = abi_entries_of(a);
        let abi_b0 = abi_entries_of(b.drop_last());
        let cd_a = contract_declarations_of(a);
        let cd_b0 = contract_declarations_of(b.drop_last());
        match b.last().content {
            TypedAstNodeContent::Declaration(d) => {
                match d {
                    TypedDeclaration::ImplTrait { methods, .. } => {
                        assert(abi_a + abi_b0 + methods@ =~= abi_a + (abi_b0 + methods@));
                    },
                    _ => {},
                }
                assert((cd_a + cd_b0).push(d) =~= cd_a + cd_b0.push(d));
            },
            _ => {},
        }
    }
}

proof fn lemma_no_contract_impls(a: Seq<TypedAstNode>)
    requires
        forall|i: int| 0 <= i < a.len() ==> !is_contract_impl_node(#[trigger] a[i]),
    ensures
        abi_entries_of(a) == Seq::<TypedFunctionDeclaration>::empty(),
    decreases a.len(),
{
    if a.len() > 0 {
        assert(!is_contract_impl_node(a[a.len() - 1]));
        lemma_no_contract_impls(a.drop_last());
    }
}

/// In a contract, the ABI is made of the methods of its trait implementations
/// for the contract type alone, in their order, and only those
/// implementations are kept out of its declarations: with one implementation
/// for the contract type and one for another type among nodes that hold no
/// other implementation for the contract type, the ABI is the first one's
/// methods, and the declarations are those of the other nodes with the second
/// implementation in its place.
pub proof fn lemma_contract_abi_split(
    before: Seq<TypedAstNode>,
    contract_impl: TypedAstNode,
    between: Seq<TypedAstNode>,
    other_impl: TypedAstNode,
    after: Seq<TypedAstNode>,
)
    requires
        is_contract_impl_node(contract_impl),
        other_impl.content is Declaration,
        !is_contract_impl_node(other_impl),
        forall|i: int| 0 <= i < before.len() ==> !is_contract_impl_node(#[trigger] before[i]),
        forall|i: int| 0 <= i < between.len() ==> !is_contract_impl_node(#[trigger] between[i]),
        forall|i: int| 0 <= i < after.len() ==> !is_contract_impl_node(#[trigger] after[i]),
    ensures
        ({
            let nodes = before + seq![contract_impl] + between + seq![other_impl] + after;
            let methods = match contract_impl.content {
                TypedAstNodeContent::Declaration(
                    TypedDeclaration::ImplTrait { methods, .. },
                ) => methods@,
                _ => seq![],
            };
            &&& abi_entries_of(nodes) == methods
            &&& contract_declarations_of(nodes) == contract_declarations_of(before)
                + contract_declarations_of(between) + seq![
                other_impl.content->Declaration_0] + contract_declarations_of(after)
        }),
{
    let ci = seq![contract_impl];
    let oi = seq![other_impl];
    lemma_contract_split_concat(before, ci);
    lemma_contract_split_concat(before + ci, between);
    lemma_contract_split_concat(before + ci + between, oi);
    lemma_contract_split_concat(before + ci + between + oi, after);
    lemma_no_contract_impls(before);
    lemma_no_contract_impls(between);
    lemma_no_contract_impls(after);
    assert(ci.drop_last() =~= Seq::<TypedAstNode>::empty());
    assert(oi.drop_last() =~= Seq::<TypedAstNode>::empty());
    assert(ci.last() == contract_impl);
    assert(oi.last() == other_impl);
    assert(abi_entries_of(Seq::<TypedAstNode>::empty()) =~= Seq::<TypedFunctionDeclaration>::empty());
    assert(contract_declarations_of(Seq::<TypedAstNode>::empty()) =~= Seq::<TypedDeclaration>::empty());
    assert(abi_entries_of(oi) =~= Seq::<TypedFunctionDeclaration>::empty());
    assert(contract_declarations_of(ci) =~= Seq::<TypedDeclaration>::empty());
    let methods = match contract_impl.content {
        TypedAstNodeContent::Declaration(TypedDeclaration::ImplTrait { methods, .. }) => methods@,
        _ => seq![],
    };
    assert(abi_entries_of(ci) =~= methods);
    assert(contract_declarations_of(oi) =~= seq![other_impl.content->Declaration_0]);
    let e = Seq::<TypedFunctionDeclaration>::empty();
    assert(e + methods + e + e + e =~= methods);
}

/// The same split when the implementation for another type comes first: the
/// ABI is still the contract implementation's methods, and the declarations
/// are those of the other nodes with the other implementation in its place.
pub proof fn lemma_contract_abi_split_other_first(
    before: Seq<TypedAstNode>,
    other_impl: TypedAstNode,
    between: Seq<TypedAstNode>,
    contract_impl: TypedAstNode,
    after: Seq<TypedAstNode>,
)
    requires
        is_contract_impl_node(contract_impl),
        other_impl.content is Declaration,
        !is_contract_impl_node(other_impl),
        forall|i: int| 0 <= i < before.len() ==> !is_contract_impl_node(#[trigger] before[i]),
        forall|i: int| 0 <= i < between.len() ==> !is_contract_impl_node(#[trigger] between[i]),
        forall|i: int| 0 <= i < after.len() ==> !is_contract_impl_node(#[trigger] after[i]),
    ensures
        ({
            let nodes = before + seq![other_impl] + between + seq![contract_impl] + after;
            let methods = match contract_impl.content {
                TypedAstNodeContent::Declaration(
                    TypedDeclaration::ImplTrait { methods, .. },
                ) => methods@,
                _ => seq![],
            };
            &&& abi_entries_of(nodes) == methods
            &&& contract_declarations_of(nodes) == contract_declarations_of(before) + seq![
                other_impl.content->Declaration_0] + contract_declarations_of(between)
                + contract_declarations_of(after)
        }),
{
    let ci = seq![contract_impl];
    let oi = seq![other_impl];
    lemma_contract_split_concat(before, oi);
    lemma_contract_split_concat(before + oi, between);
    lemma_contract_split_concat(before + oi + between, ci);
    lemma_contract_split_concat(before + oi + between + ci, after);
    lemma_no_contract_impls(before);
    lemma_no_contract_impls(between);
    lemma_no_contract_impls(after);
    assert(ci.drop_last() =~= Seq::<TypedAstNode>::empty());
    assert(oi.drop_last() =~= Seq::<TypedAstNode>::empty());
    assert(ci.last() == contract_impl);
    assert(oi.last() == other_impl);
    assert(abi_entries_of(Seq::<TypedAstNode>::empty()) =~= Seq::<TypedFunctionDeclaration>::empty());
    assert(contract_declarations_of(Seq::<TypedAstNode>::empty()) =~= Seq::<TypedDeclaration>::empty());
    assert(abi_entries_of(oi) =~= Seq::<TypedFunctionDeclaration>::empty());
    assert(contract_declarations_of(ci) =~= Seq::<TypedDeclaration>::empty());
    let methods = match contract_impl.content {
        TypedAstNodeContent::Declaration(TypedDeclaration::ImplTrait { methods, .. }) => methods@,
        _ => seq![],
    };
    assert(abi_entries_of(ci) =~= methods);
    assert(contract_declarations_of(oi) =~= seq![other_impl.content->Declaration_0]);
    let e = Seq::<TypedFunctionDeclaration>::empty();
    assert(e + e + e + methods + e =~= methods);
    let d = Seq::<TypedDeclaration>::empty();
    assert(contract_declarations_of(before) + seq![other_impl.content->Declaration_0]
        + contract_declarations_of(between) + d + contract_declarations_of(after)
        =~= contract_declarations_of(before) + seq![other_impl.content->Declaration_0]
        + contract_declarations_of(between) + contract_declarations_of(after));
}

impl<S> TypedParseTree<S> {
    pub open spec fn spec_all_nodes(self) -> Seq<TypedAstNode> {
        match self {
            TypedParseTree::Script { all_nodes, .. } => all_nodes@,
            TypedParseTree::Predicate { all_nodes, .. } => all_nodes@,
            TypedParseTree::Contract { all_nodes, .. } => all_nodes@,
            TypedParseTree::Library { all_nodes, .. } => all_nodes@,
        }
    }

    pub open spec fn spec_namespace(self) -> S {
        match self {
            TypedParseTree::Script { namespace, .. } => namespace,
            TypedParseTree::Predicate { namespace, .. } => namespace,
            TypedParseTree::Contract { namespace, .. } => namespace,
            TypedParseTree::Library { namespace, .. } => namespace,
        }
    }

    /// The program kind this tree was shaped for.
    pub open spec fn tree_type(self) -> TreeType {
        match self {
            TypedParseTree::Script { .. } => TreeType::Script,
            TypedParseTree::Predicate { .. } => TreeType::Predicate,
            TypedParseTree::Contract { .. } => TreeType::Contract,
            TypedParseTree::Library { .. } => TreeType::Library,
        }
    }

    /// The entry point, for a script or a predicate.
    pub open spec fn spec_main_function(self) -> Option<TypedFunctionDeclaration> {
        match self {
            TypedParseTree::Script { main_function, .. } => Some(main_function),
            TypedParseTree::Predicate { main_function, .. } => Some(main_function),
            _ => None,
        }
    }

    /// The declarations kept for code generation; none for a library.
    pub open spec fn spec_declarations(self) -> Option<Seq<TypedDeclaration>> {
        match self {
            TypedParseTree::Script { declarations, .. } => Some(declarations@),
            TypedParseTree::Predicate { declarations, .. } => Some(declarations@),
            TypedParseTree::Contract { declarations, .. } => Some(declarations@),
            TypedParseTree::Library { .. } => None,
        }
    }

    /// The ABI of a contract; none for any other kind.
    pub open spec fn spec_abi_entries(self) -> Option<Seq<TypedFunctionDeclaration>> {
        match self {
            TypedParseTree::Contract { abi_entries, .. } => Some(abi_entries@),
            _ => None,
        }
    }

    /// The typed nodes used for control-flow and return-flow analysis.
    pub fn all_nodes(&self) -> (r: &[TypedAstNode])
        ensures
            r@ == self.spec_all_nodes(),
    {
        match self {
            TypedParseTree::Library { all_nodes, .. } => all_nodes.as_slice(),
            TypedParseTree::Script { all_nodes, .. } => all_nodes.as_slice(),
            TypedParseTree::Contract { all_nodes, .. } => all_nodes.as_slice(),
            TypedParseTree::Predicate { all_nodes, .. } => all_nodes.as_slice(),
        }
    }

    /// The unit's namespace after typing.
    pub fn namespace(&self) -> (r: &S)
        ensures
            *r == self.spec_namespace(),
    {
        match self {
            TypedParseTree::Library { namespace, .. } => namespace,
            TypedParseTree::Script { namespace, .. } => namespace,
            TypedParseTree::Contract { namespace, .. } => namespace,
            TypedParseTree::Predicate { namespace, .. } => namespace,
        }
    }
    /// Types a parsed unit and shapes it as a program of kind `tree_type`.
    ///
    /// The unit's nodes are typed to a fixed point against `initial_namespace`
    /// (see `type_check_nodes` and `fixpoint_run`). When every node was typed,
    /// the typed nodes, in the order they were typed, are finalised with the
    /// namespace the typer left (see `finalize`). When the loop stalls, the
    /// unit fails: no tree is produced, and the result carries the stalled
    /// pass's diagnostics.
    pub fn type_check<N, T: NodeTyper<N, S>>(
        parsed: ParseTree<N>,
        initial_namespace: S,
        tree_type: TreeType,
        typer: &T,
    ) -> (r: CompileResult<TypedParseTree<S>>)
        ensures
            ({
                let run = fixpoint_run(*typer, parsed.root_nodes@, initial_namespace);
                &&& run.0 != FixpointOutcome::Regressed
                &&& run.5 <= parsed.root_nodes.len() + 1
                &&& run.0 == FixpointOutcome::Stalled ==> {
                    &&& r.value is None
                    &&& r.errors@ == fixpoint_errors(*typer, parsed.root_nodes@, initial_namespace)
                    &&& r.warnings@ == fixpoint_warnings(
                        *typer,
                        parsed.root_nodes@,
                        initial_namespace,
                    )
                }
                &&& run.0 == FixpointOutcome::Complete ==> finalized(
                    fixpoint_nodes(*typer, parsed.root_nodes@, initial_namespace),
                    tree_type,
                    parsed.span,
                    fixpoint_namespace(*typer, parsed.root_nodes@, initial_namespace),
                    fixpoint_warnings(*typer, parsed.root_nodes@, initial_namespace),
                    fixpoint_errors(*typer, parsed.root_nodes@, initial_namespace),
                    r,
                )
                &&& run.0 == FixpointOutcome::Complete && (tree_type == TreeType::Library
                    || tree_type == TreeType::Contract) ==> r.value is Some
            }),
            r.value is Some ==> r.value.unwrap().tree_type() == tree_type,
    {
        let mut namespace = initial_namespace;
        let typed = type_check_nodes(&parsed.root_nodes, &mut namespace, typer);
        if typed.outcome != FixpointOutcome::Complete {
            return err(typed.warnings, typed.errors);
        }
        finalize(typed.nodes, tree_type, parsed.span, namespace, typed.warnings, typed.errors)
    }
}

} // verus!
