use vstd::prelude::*;

use crate::error::{CompileError, CompileResult, CompileWarning};
use crate::typed_ast::{NodeTyper, TypedAstNode};

verus! {

/// An attempt that produced a value and no error.
pub open spec fn succeeded<T>(r: CompileResult<T>) -> bool {
    r.value is Some && r.errors@.len() == 0
}

/// The successful attempts of a pass, in the order they were made.
pub open spec fn pass_successes(rs: Seq<CompileResult<TypedAstNode>>) -> Seq<
    CompileResult<TypedAstNode>,
>
    decreases rs.len(),
{
    if rs.len() == 0 {
        seq![]
    } else {
        let before = pass_successes(rs.drop_last());
        if succeeded(rs.last()) {
            before.push(rs.last())
        } else {
            before
        }
    }
}

/// The queue of the next pass: the nodes whose attempt failed, the most
/// recently failed first. `rs[k]` is the attempt on node `queue[k]`.
pub open spec fn requeued(queue: Seq<usize>, rs: Seq<CompileResult<TypedAstNode>>) -> Seq<usize>
    decreases rs.len(),
{
    if rs.len() == 0 {
        seq![]
    } else {
        let before = requeued(queue, rs.drop_last());
        if succeeded(rs.last()) {
            before
        } else {
            seq![queue[rs.len() - 1]] + before
        }
    }
}

/// The errors of the failed attempts, in order.
pub open spec fn failure_errors(rs: Seq<CompileResult<TypedAstNode>>) -> Seq<CompileError>
    decreases rs.len(),
{
    if rs.len() == 0 {
        seq![]
    } else {
        let before = failure_errors(rs.drop_last());
        if succeeded(rs.last()) {
            before
        } else {
            before + rs.last().errors@
        }
    }
}

/// The warnings of the failed attempts, in order.
pub open spec fn failure_warnings(rs: Seq<CompileResult<TypedAstNode>>) -> Seq<CompileWarning>
    decreases rs.len(),
{
    if rs.len() == 0 {
        seq![]
    } else {
        let before = failure_warnings(rs.drop_last());
        if succeeded(rs.last()) {
            before
        } else {
            before + rs.last().warnings@
        }
    }
}

/// The warnings of the given successful attempts, in order.
pub open spec fn success_warnings(rs: Seq<CompileResult<TypedAstNode>>) -> Seq<CompileWarning>
    decreases rs.len(),
{
    if rs.len() == 0 {
        seq![]
    } else {
        success_warnings(rs.drop_last()) + rs.last().warnings@
    }
}

/// The typed nodes of the given successful attempts, in order.
pub open spec fn success_values(rs: Seq<CompileResult<TypedAstNode>>) -> Seq<TypedAstNode> {
    rs.map_values(|r: CompileResult<TypedAstNode>| r.value.unwrap())
}

/// Growing a prefix by one element.
pub(crate) proof fn lemma_take_step<A>(s: Seq<A>, i: int)
    requires
        0 <= i < s.len(),
    ensures
        s.take(i + 1).drop_last() == s.take(i),
        s.take(i + 1).last() == s[i],
        s.take(i + 1).len() == i + 1,
{
    assert(s.take(i + 1).drop_last() =~= s.take(i));
}

/// Every failed node goes back to the queue and every successful one does not.
pub proof fn lemma_pass_counts(queue: Seq<usize>, rs: Seq<CompileResult<TypedAstNode>>)
    requires
        queue.len() >= rs.len(),
    ensures
        pass_successes(rs).len() + requeued(queue, rs).len() == rs.len(),
        forall|i: int| 0 <= i < pass_successes(rs).len() ==> succeeded(#[trigger] pass_successes(rs)[i]),
        forall|i: int| 0 <= i < requeued(queue, rs).len() ==> exists|k: int| 0 <= k < rs.len() && #[trigger] requeued(queue, rs)[i] == queue[k],
    decreases rs.len(),
{
    if rs.len() > 0 {
        lemma_pass_counts(queue, rs.drop_last());
        let before = requeued(queue, rs.drop_last());
        let now = requeued(queue, rs);
        assert forall|i: int| 0 <= i < now.len() implies exists|k: int| 0 <= k < rs.len() && #[trigger] now[i] == queue[k] by {
            if !succeeded(rs.last()) && i == 0 {
                assert(now[0] == queue[rs.len() - 1]);
            } else if !succeeded(rs.last()) {
                assert(now[i] == before[i - 1]);
            }
        }
    }
}

/// One pass sorted out: the attempts that succeeded, the nodes to retry, and
/// the diagnostics of the failed attempts.
pub struct PassSummary {
    pub successes: Vec<CompileResult<TypedAstNode>>,
    pub requeued: Vec<usize>,
    pub errors: Vec<CompileError>,
    pub warnings: Vec<CompileWarning>,
}

/// Sorts the attempts of one pass, where `results[k]` is the attempt on node
/// `queue[k]`. An attempt succeeds when it gave a value and no error; every
/// other node is queued again, in front of those that failed before it.
pub fn sort_pass(queue: &Vec<usize>, results: Vec<CompileResult<TypedAstNode>>) -> (r: PassSummary)
    requires
        queue.len() == results.len(),
    ensures
        r.successes@ == pass_successes(results@),
        r.requeued@ == requeued(queue@, results@),
        r.errors@ == failure_errors(results@),
        r.warnings@ == failure_warnings(results@),
        r.successes.len() + r.requeued.len() == queue.len(),
{
    let ghost all = results@;
    let mut results = results;
    let mut successes: Vec<CompileResult<TypedAstNode>> = Vec::new();
    let mut requeue: Vec<usize> = Vec::new();
    let mut errors: Vec<CompileError> = Vec::new();
    let mut warnings: Vec<CompileWarning> = Vec::new();
    let n = queue.len();
    let mut i: usize = 0;
    while i < n
        invariant
            n == queue.len(),
            n == all.len(),
            i <= n,
            results@ == all.subrange(i as int, n as int),
            successes@ == pass_successes(all.take(i as int)),
            requeue@ == requeued(queue@, all.take(i as int)),
            errors@ == failure_errors(all.take(i as int)),
            warnings@ == failure_warnings(all.take(i as int)),
        decreases n - i,
    {
        proof {
            lemma_take_step(all, i as int);
            assert(results@[0] == all[i as int]);
        }
        let mut attempt = results.remove(0);
        proof {
            assert(results@ =~= all.subrange(i + 1, n as int));
            assert(all.take(i + 1).len() - 1 == i);
        }
        if attempt.value.is_some() && attempt.errors.len() == 0 {
            successes.push(attempt);
        } else {
            errors.append(&mut attempt.errors);
            warnings.append(&mut attempt.warnings);
            requeue.insert(0, queue[i]);
            proof {
                assert(requeue@ =~= seq![queue@[i as int]] + requeued(queue@, all.take(i as int)));
            }
        }
        i = i + 1;
    }
    proof {
        assert(all.take(n as int) =~= all);
        lemma_pass_counts(queue@, all);
    }
    PassSummary { successes, requeued: requeue, errors, warnings }
}

/// What a finished pass means for the loop.
#[derive(Clone, Copy, Debug, PartialEq, Eq, Structural)]
pub enum PassVerdict {
    /// Fewer nodes failed than before (or this was the first pass): go on.
    Progress,
    /// As many nodes failed as in the pass before: nothing more can be typed.
    Stalled,
    /// More nodes failed than before, which a correct typer never causes.
    Regressed,
}

/// Judges a pass by how many nodes failed in it and in the pass before; the
/// first pass is compared with the number of nodes.
pub fn judge_pass(first_pass: bool, previous_failures: usize, failures: usize) -> (v: PassVerdict)
    ensures
        v == if failures == previous_failures && !first_pass {
            PassVerdict::Stalled
        } else if failures > previous_failures {
            PassVerdict::Regressed
        } else {
            PassVerdict::Progress
        },
{
    if failures == previous_failures && !first_pass {
        PassVerdict::Stalled
    } else if failures > previous_failures {
        PassVerdict::Regressed
    } else {
        PassVerdict::Progress
    }
}


/// When nothing succeeded in a pass, every attempt of it failed.
proof fn lemma_all_failed(queue: Seq<usize>, rs: Seq<CompileResult<TypedAstNode>>, i: int)
    requires
        queue.len() >= rs.len(),
        pass_successes(rs).len() == 0,
        0 <= i < rs.len(),
    ensures
        !succeeded(rs[i]),
    decreases rs.len(),
{
    if i < rs.len() - 1 {
        assert(rs.drop_last()[i] == rs[i]);
        lemma_all_failed(queue, rs.drop_last(), i);
    }
}

/// The result of the fixpoint loop.
pub struct FixpointResult {
    pub outcome: FixpointOutcome,
    /// The typed nodes, in the order they were typed: pass by pass, and within
    /// a pass in the order of that pass's queue.
    pub nodes: Vec<TypedAstNode>,
    /// The indices of the nodes that were never typed, in the final queue order.
    pub unresolved: Vec<usize>,
    pub warnings: Vec<CompileWarning>,
    pub errors: Vec<CompileError>,
    /// How many passes were made.
    pub passes: Ghost<nat>,
    /// The attempts of the final pass.
    pub last_pass: Ghost<Seq<CompileResult<TypedAstNode>>>,
    /// How many nodes the first pass failed on.
    pub first_pass_failures: Ghost<nat>,
    /// Every successful attempt, in the order `nodes` keeps.
    pub successes: Ghost<Seq<CompileResult<TypedAstNode>>>,
}

/// Moves the values of successful attempts out, in order, and gathers their
/// warnings and errors.
fn take_successes(
    successes: Vec<CompileResult<TypedAstNode>>,
    warnings: &mut Vec<CompileWarning>,
    errors: &mut Vec<CompileError>,
) -> (r: Vec<TypedAstNode>)
    requires
        forall|i: int| 0 <= i < successes.len() ==> succeeded(#[trigger] successes@[i]),
    ensures
        r@ == success_values(successes@),
        final(warnings)@ == old(warnings)@ + success_warnings(successes@),
        final(errors)@ == old(errors)@,
{
    let ghost all = successes@;
    let ghost w0 = warnings@;
    let mut successes = successes;
    let mut r: Vec<TypedAstNode> = Vec::new();
    let n = successes.len();
    let mut i: usize = 0;
    while i < n
        invariant
            n == all.len(),
            i <= n,
            successes@ == all.subrange(i as int, n as int),
            forall|j: int| 0 <= j < all.len() ==> succeeded(#[trigger] all[j]),
            r@ == success_values(all.take(i as int)),
            warnings@ == w0 + success_warnings(all.take(i as int)),
            errors@ == old(errors)@,
        decreases n - i,
    {
        proof {
            lemma_take_step(all, i as int);
            assert(successes@[0] == all[i as int]);
        }
        let mut attempt = successes.remove(0);
        proof {
            assert(successes@ =~= all.subrange(i + 1, n as int));
            assert(succeeded(all[i as int]));
        }
        warnings.append(&mut attempt.warnings);
        errors.append(&mut attempt.errors);
        match attempt.value {
            Some(node) => {
                r.push(node);
            },
            None => {},
        }
        proof {
            assert(errors@ =~= old(errors)@);
            assert(r@ =~= success_values(all.take(i + 1)));
            assert(warnings@ =~= w0 + success_warnings(all.take(i + 1)));
        }
        i = i + 1;
    }
    proof {
        assert(all.take(n as int) =~= all);
    }
    r
}

/// How the fixpoint loop ended.
#[derive(Clone, Copy, Debug, PartialEq, Eq, Structural)]
pub enum FixpointOutcome {
    /// Every node was typed.
    Complete,
    /// A pass typed no further node; the nodes left stay untyped.
    Stalled,
    /// A pass failed on more nodes than the one before it.
    Regressed,
}

/// The attempts of one pass over `queue`, in queue order, each against the
/// namespace the attempts before it left; and the namespace after the pass.
pub open spec fn pass_attempts<N, S, T: NodeTyper<N, S>>(
    typer: T,
    nodes: Seq<N>,
    queue: Seq<usize>,
    namespace: S,
) -> (Seq<CompileResult<TypedAstNode>>, S)
    decreases queue.len(),
{
    if queue.len() == 0 {
        (seq![], namespace)
    } else {
        let before = pass_attempts(typer, nodes, queue.drop_last(), namespace);
        let attempt = typer.typed(nodes[queue.last() as int], before.1);
        (before.0.push(attempt.0), attempt.1)
    }
}

/// A run of the fixpoint loop from a queue: how it ends, the successful
/// attempts in the order they were made, the nodes left untyped, the attempts
/// of the pass that stalled (empty otherwise), the namespace at the end, and the
/// number of passes. A pass fails on as many nodes as the one before it stalls
/// the loop; the first pass is compared with the number of nodes and never
/// stalls.
pub open spec fn fixpoint_from<N, S, T: NodeTyper<N, S>>(
    typer: T,
    nodes: Seq<N>,
    queue: Seq<usize>,
    namespace: S,
    first_pass: bool,
) -> (
    FixpointOutcome,
    Seq<CompileResult<TypedAstNode>>,
    Seq<usize>,
    Seq<CompileResult<TypedAstNode>>,
    S,
    nat,
)
    decreases 2 * queue.len() + if first_pass {
        1int
    } else {
        0int
    },
{
    if queue.len() == 0 {
        (FixpointOutcome::Complete, seq![], seq![], seq![], namespace, 0)
    } else {
        let pass = pass_attempts(typer, nodes, queue, namespace);
        let next = requeued(queue, pass.0);
        if next.len() == queue.len() && !first_pass {
            (FixpointOutcome::Stalled, seq![], next, pass.0, pass.1, 1)
        } else if next.len() > queue.len() {
            (FixpointOutcome::Regressed, seq![], next, pass.0, pass.1, 1)
        } else {
            let rest = fixpoint_from(typer, nodes, next, pass.1, false);
            (rest.0, pass_successes(pass.0) + rest.1, rest.2, rest.3, rest.4, rest.5 + 1)
        }
    }
}

/// The queue of the first pass: every node, in source order.
pub open spec fn initial_queue(n: nat) -> Seq<usize> {
    Seq::new(n, |i: int| i as usize)
}

/// The run of the fixpoint loop over `nodes` from `namespace`.
pub open spec fn fixpoint_run<N, S, T: NodeTyper<N, S>>(
    typer: T,
    nodes: Seq<N>,
    namespace: S,
) -> (
    FixpointOutcome,
    Seq<CompileResult<TypedAstNode>>,
    Seq<usize>,
    Seq<CompileResult<TypedAstNode>>,
    S,
    nat,
) {
    fixpoint_from(typer, nodes, initial_queue(nodes.len()), namespace, true)
}

/// The nodes the run typed: pass by pass, each pass in its queue order.
pub open spec fn fixpoint_nodes<N, S, T: NodeTyper<N, S>>(
    typer: T,
    nodes: Seq<N>,
    namespace: S,
) -> Seq<TypedAstNode> {
    success_values(fixpoint_run(typer, nodes, namespace).1)
}

/// The namespace at the end of the run.
pub open spec fn fixpoint_namespace<N, S, T: NodeTyper<N, S>>(
    typer: T,
    nodes: Seq<N>,
    namespace: S,
) -> S {
    fixpoint_run(typer, nodes, namespace).4
}

/// The errors the run reports: those of the stalled pass's attempts, if any.
pub open spec fn fixpoint_errors<N, S, T: NodeTyper<N, S>>(
    typer: T,
    nodes: Seq<N>,
    namespace: S,
) -> Seq<CompileError> {
    let run = fixpoint_run(typer, nodes, namespace);
    if run.0 == FixpointOutcome::Stalled {
        failure_errors(run.3)
    } else {
        seq![]
    }
}

/// The warnings the run reports: those of the stalled pass's attempts, if
/// any, then those of every successful attempt.
pub open spec fn fixpoint_warnings<N, S, T: NodeTyper<N, S>>(
    typer: T,
    nodes: Seq<N>,
    namespace: S,
) -> Seq<CompileWarning> {
    let run = fixpoint_run(typer, nodes, namespace);
    (if run.0 == FixpointOutcome::Stalled {
        failure_warnings(run.3)
    } else {
        seq![]
    }) + success_warnings(run.1)
}

/// Types the top-level nodes of a unit in any order of dependence.
///
/// Each pass tries every queued node against the one shared namespace, so a
/// node may use what an earlier node of the same pass declared. Nodes that
/// fail are tried again in the next pass, the most recently failed first. The
/// loop ends when every node is typed, or when a pass fails on as many nodes as
/// the pass before it; then only that final pass's diagnostics are reported,
/// once each. The failures of earlier passes are dropped unreported. The run
/// is the one `fixpoint_run` describes.
pub fn type_check_nodes<N, S, T: NodeTyper<N, S>>(
    nodes: &Vec<N>,
    namespace: &mut S,
    typer: &T,
) -> (r: FixpointResult)
    ensures
        ({
            let run = fixpoint_run(*typer, nodes@, *old(namespace));
            &&& r.outcome == run.0
            &&& r.successes@ == run.1
            &&& r.unresolved@ == run.2
            &&& *final(namespace) == run.4
            &&& r.passes@ == run.5
            &&& r.outcome == FixpointOutcome::Stalled ==> r.last_pass@ == run.3
        }),
        r.nodes@ == fixpoint_nodes(*typer, nodes@, *old(namespace)),
        r.errors@ == fixpoint_errors(*typer, nodes@, *old(namespace)),
        r.warnings@ == fixpoint_warnings(*typer, nodes@, *old(namespace)),
        r.outcome != FixpointOutcome::Regressed,
        r.nodes.len() + r.unresolved.len() == nodes.len(),
        r.outcome == FixpointOutcome::Complete <==> r.unresolved.len() == 0,
        forall|i: int| 0 <= i < r.unresolved.len() ==> #[trigger] r.unresolved@[i] < nodes.len(),
        r.passes@ <= nodes.len() + 1,
        r.first_pass_failures@ < nodes.len() ==> r.passes@ <= nodes.len(),
        nodes.len() > 0 ==> r.passes@ >= 1,
        r.outcome == FixpointOutcome::Stalled ==> r.passes@ >= 2,
        forall|i: int| 0 <= i < r.successes@.len() ==> succeeded(#[trigger] r.successes@[i]),
        r.nodes@ == success_values(r.successes@),
        r.outcome == FixpointOutcome::Complete ==> {
            &&& r.errors@.len() == 0
            &&& r.warnings@ == success_warnings(r.successes@)
        },
        r.outcome == FixpointOutcome::Stalled ==> {
            &&& r.last_pass@.len() == r.unresolved.len()
            &&& forall|i: int| 0 <= i < r.last_pass@.len() ==> !succeeded(#[trigger] r.last_pass@[i])
            &&& r.errors@ == failure_errors(r.last_pass@)
            &&& r.warnings@ == failure_warnings(r.last_pass@) + success_warnings(r.successes@)
        },
{
    let ghost ns0 = *namespace;
    let n = nodes.len();
    let mut queue: Vec<usize> = Vec::new();
    let mut k: usize = 0;
    while k < n
        invariant
            k <= n,
            queue.len() == k,
            forall|i: int| 0 <= i < k ==> #[trigger] queue@[i] == i,
        decreases n - k,
    {
        queue.push(k);
        k = k + 1;
    }
    assert(queue@ =~= initial_queue(n as nat));
    let ghost run = fixpoint_run(*typer, nodes@, ns0);
    let mut successful: Vec<CompileResult<TypedAstNode>> = Vec::new();
    let mut num_failed: usize = n;
    let mut warnings: Vec<CompileWarning> = Vec::new();
    let mut errors: Vec<CompileError> = Vec::new();
    let mut is_first_pass = true;
    let ghost mut passes: nat = 0;
    let mut outcome = FixpointOutcome::Complete;
    let ghost mut last_pass: Seq<CompileResult<TypedAstNode>> = seq![];
    let ghost mut first_failures: nat = n as nat;
    while num_failed > 0
        invariant_except_break
            outcome == FixpointOutcome::Complete,
            errors@.len() == 0,
            warnings@.len() == 0,
            passes + num_failed <= n + 1,
            !is_first_pass && first_failures < n ==> passes + num_failed <= n,
            ({
                let rest = fixpoint_from(*typer, nodes@, queue@, *namespace, is_first_pass);
                &&& run.0 == rest.0
                &&& run.1 == successful@ + rest.1
                &&& run.2 == rest.2
                &&& run.3 == rest.3
                &&& run.4 == rest.4
                &&& run.5 == passes + rest.5
            }),
        invariant
            n == nodes.len(),
            run == fixpoint_run(*typer, nodes@, ns0),
            queue.len() == num_failed,
            forall|i: int| 0 <= i < queue.len() ==> #[trigger] queue@[i] < n,
            successful.len() + queue.len() == n,
            forall|i: int| 0 <= i < successful.len() ==> succeeded(#[trigger] successful@[i]),
            is_first_pass ==> passes == 0 && num_failed == n && first_failures == n,
            !is_first_pass ==> passes >= 1,
        ensures
            outcome == FixpointOutcome::Complete ==> num_failed == 0 && errors@.len() == 0
                && warnings@.len() == 0,
            outcome == FixpointOutcome::Stalled ==> {
                &&& num_failed > 0
                &&& passes >= 2
                &&& last_pass.len() == num_failed
                &&& forall|i: int| 0 <= i < last_pass.len() ==> !succeeded(#[trigger] last_pass[i])
                &&& errors@ == failure_errors(last_pass)
                &&& warnings@ == failure_warnings(last_pass)
            },
            outcome != FixpointOutcome::Regressed,
            passes <= n + 1,
            first_failures < n ==> passes <= n,
            n > 0 ==> passes >= 1,
            run.0 == outcome,
            run.1 == successful@,
            run.2 == queue@,
            outcome == FixpointOutcome::Stalled ==> run.3 == last_pass,
            run.4 == *namespace,
            run.5 == passes,
        decreases 2 * num_failed + if is_first_pass { 1int } else { 0int },
    {
        let ghost ns_start = *namespace;
        let ghost rest = fixpoint_from(*typer, nodes@, queue@, ns_start, is_first_pass);
        let mut results: Vec<CompileResult<TypedAstNode>> = Vec::new();
        let mut j: usize = 0;
        while j < queue.len()
            invariant
                n == nodes.len(),
                j <= queue.len(),
                results.len() == j,
                forall|i: int| 0 <= i < queue.len() ==> #[trigger] queue@[i] < n,
                pass_attempts(*typer, nodes@, queue@.take(j as int), ns_start) == (
                    results@,
                    *namespace,
                ),
            decreases queue.len() - j,
        {
            proof {
                lemma_take_step(queue@, j as int);
            }
            let attempt = typer.type_check_node(&nodes[queue[j]], namespace);
            results.push(attempt);
            j = j + 1;
        }
        proof {
            assert(queue@.take(queue@.len() as int) =~= queue@);
        }
        let ghost attempts = results@;
        let ghost old_queue = queue@;
        let ghost ns_after = *namespace;
        let mut summary = sort_pass(&queue, results);
        proof {
            lemma_pass_counts(old_queue, attempts);
            assert(pass_attempts(*typer, nodes@, old_queue, ns_start) == (attempts, ns_after));
        }
        proof {
            passes = passes + 1;
        }
        let failures = summary.requeued.len();
        match judge_pass(is_first_pass, num_failed, failures) {
            PassVerdict::Stalled => {
                proof {
                    last_pass = attempts;
                    assert(summary.successes.len() == 0);
                    assert forall|i: int| 0 <= i < last_pass.len() implies !succeeded(#[trigger] last_pass[i]) by {
                        lemma_all_failed(old_queue, attempts, i);
                    }
                    assert(successful@ + rest.1 =~= successful@);
                }
                warnings.append(&mut summary.warnings);
                errors.append(&mut summary.errors);
                queue = summary.requeued;
                outcome = FixpointOutcome::Stalled;
                proof {
                    assert(errors@ =~= failure_errors(last_pass));
                    assert(warnings@ =~= failure_warnings(last_pass));
                }
                break;
            },
            PassVerdict::Regressed => {
                errors.append(&mut summary.errors);
                return FixpointResult {
                    outcome: FixpointOutcome::Regressed,
                    nodes: Vec::new(),
                    unresolved: summary.requeued,
                    warnings,
                    errors,
                    passes: Ghost(passes),
                    last_pass: Ghost(attempts),
                    first_pass_failures: Ghost(first_failures),
                    successes: Ghost(successful@),
                };
            },
            PassVerdict::Progress => {},
        }
        proof {
            assert forall|i: int| 0 <= i < summary.requeued.len() implies #[trigger] summary.requeued@[i] < n by {
                let e = summary.requeued@[i];
                assert(e == requeued(old_queue, attempts)[i]);
            }
        }
        let ghost successful_before = successful@;
        successful.append(&mut summary.successes);
        queue = summary.requeued;
        num_failed = failures;
        proof {
            last_pass = attempts;
            if is_first_pass {
                first_failures = failures as nat;
            }
            let next = fixpoint_from(*typer, nodes@, queue@, *namespace, false);
            assert(rest.1 == pass_successes(attempts) + next.1);
            assert(run.1 =~= successful@ + next.1);
        }
        is_first_pass = false;
    }
    proof {
        if outcome == FixpointOutcome::Complete {
            assert(successful@ + seq![] =~= successful@);
        }
    }
    let ghost all_successes = successful@;
    let typed = take_successes(successful, &mut warnings, &mut errors);
    proof {
        if outcome == FixpointOutcome::Complete {
            assert(warnings@ =~= success_warnings(all_successes));
            assert(errors@ =~= fixpoint_errors(*typer, nodes@, ns0));
        } else {
            assert(errors@ =~= fixpoint_errors(*typer, nodes@, ns0));
        }
        assert(warnings@ =~= fixpoint_warnings(*typer, nodes@, ns0));
    }
    FixpointResult {
        outcome,
        nodes: typed,
        unresolved: queue,
        warnings,
        errors,
        passes: Ghost(passes),
        last_pass: Ghost(last_pass),
        first_pass_failures: Ghost(first_failures),
        successes: Ghost(all_successes),
    }
}

/// Each attempt of a pass is the typer's answer on the node queued at its
/// place, against the namespace of that moment.
pub proof fn lemma_pass_attempt_at<N, S, T: NodeTyper<N, S>>(
    typer: T,
    nodes: Seq<N>,
    queue: Seq<usize>,
    namespace: S,
    i: int,
)
    requires
        0 <= i < queue.len(),
    ensures
        pass_attempts(typer, nodes, queue, namespace).0.len() == queue.len(),
        exists|m: S|
            pass_attempts(typer, nodes, queue, namespace).0[i] == #[trigger] typer.typed(
                nodes[queue[i] as int],
                m,
            ).0,
    decreases queue.len(),
{
    let before = pass_attempts(typer, nodes, queue.drop_last(), namespace);
    if i == queue.len() - 1 {
        if queue.len() > 1 {
            lemma_pass_attempt_at(typer, nodes, queue.drop_last(), namespace, 0);
        }
        assert(before.0.len() == queue.len() - 1);
        let m = before.1;
        assert(pass_attempts(typer, nodes, queue, namespace).0[i] == typer.typed(
            nodes[queue[i] as int],
            m,
        ).0);
    } else {
        lemma_pass_attempt_at(typer, nodes, queue.drop_last(), namespace, i);
        assert(queue.drop_last()[i] == queue[i]);
        let m = choose|m: S|
            before.0[i] == #[trigger] typer.typed(nodes[queue.drop_last()[i] as int], m).0;
        assert(pass_attempts(typer, nodes, queue, namespace).0[i] == typer.typed(
            nodes[queue[i] as int],
            m,
        ).0);
    }
}

/// A node whose attempt failed is queued again.
pub proof fn lemma_requeued_keeps_failure(
    queue: Seq<usize>,
    rs: Seq<CompileResult<TypedAstNode>>,
    i: int,
)
    requires
        queue.len() >= rs.len(),
        0 <= i < rs.len(),
        !succeeded(rs[i]),
    ensures
        requeued(queue, rs).contains(queue[i]),
    decreases rs.len(),
{
    let before = requeued(queue, rs.drop_last());
    let now = requeued(queue, rs);
    if i == rs.len() - 1 {
        assert(now[0] == queue[i]);
    } else {
        assert(rs.drop_last()[i] == rs[i]);
        lemma_requeued_keeps_failure(queue, rs.drop_last(), i);
        let j = choose|j: int| 0 <= j < before.len() && before[j] == queue[i];
        if succeeded(rs.last()) {
            assert(now[j] == queue[i]);
        } else {
            assert(now[j + 1] == queue[i]);
        }
    }
}

proof fn lemma_stuck_node_stalls<N, S, T: NodeTyper<N, S>>(
    typer: T,
    nodes: Seq<N>,
    queue: Seq<usize>,
    namespace: S,
    first_pass: bool,
    x: usize,
)
    requires
        queue.contains(x),
        x < nodes.len(),
        forall|m: S| !succeeded(#[trigger] typer.typed(nodes[x as int], m).0),
    ensures
        ({
            let run = fixpoint_from(typer, nodes, queue, namespace, first_pass);
            &&& run.0 == FixpointOutcome::Stalled
            &&& run.2.contains(x)
            &&& exists|k: int, m: S|
                #![trigger run.3[k], typer.typed(nodes[x as int], m)]
                0 <= k < run.3.len() && run.3[k] == typer.typed(nodes[x as int], m).0
        }),
    decreases 2 * queue.len() + if first_pass {
        1int
    } else {
        0int
    },
{
    let i = choose|i: int| 0 <= i < queue.len() && queue[i] == x;
    let pass = pass_attempts(typer, nodes, queue, namespace);
    lemma_pass_attempt_at(typer, nodes, queue, namespace, i);
    let m = choose|m: S| pass.0[i] == #[trigger] typer.typed(nodes[queue[i] as int], m).0;
    assert(!succeeded(pass.0[i]));
    lemma_requeued_keeps_failure(queue, pass.0, i);
    lemma_pass_counts(queue, pass.0);
    let next = requeued(queue, pass.0);
    let run = fixpoint_from(typer, nodes, queue, namespace, first_pass);
    assert(next.len() <= queue.len());
    if !(next.len() == queue.len() && !first_pass) {
        lemma_stuck_node_stalls(typer, nodes, next, pass.1, false, x);
        let rest = fixpoint_from(typer, nodes, next, pass.1, false);
        assert(run.0 == rest.0 && run.2 == rest.2 && run.3 == rest.3);
        let (k, m2) = choose|k: int, m2: S|
            #![trigger rest.3[k], typer.typed(nodes[x as int], m2)]
            0 <= k < rest.3.len() && rest.3[k] == typer.typed(nodes[x as int], m2).0;
        assert(run.3[k] == typer.typed(nodes[x as int], m2).0);
    } else {
        assert(run.3 == pass.0);
        assert(run.3[i] == typer.typed(nodes[x as int], m).0);
    }
}

/// A node that the typer types against no namespace at all (one that names
/// something declared nowhere, say) ends the loop on the stalled path: the
/// node stays unresolved, an attempt on it is among the attempts of the pass
/// that stalled, and the errors reported are exactly the errors of that
/// pass's failed attempts.
pub proof fn lemma_untypable_node_stalls<N, S, T: NodeTyper<N, S>>(
    typer: T,
    nodes: Seq<N>,
    namespace: S,
    x: usize,
)
    requires
        x < nodes.len(),
        forall|m: S| !succeeded(#[trigger] typer.typed(nodes[x as int], m).0),
    ensures
        ({
            let run = fixpoint_run(typer, nodes, namespace);
            &&& run.0 == FixpointOutcome::Stalled
            &&& run.2.contains(x)
            &&& exists|k: int, m: S|
                #![trigger run.3[k], typer.typed(nodes[x as int], m)]
                0 <= k < run.3.len() && run.3[k] == typer.typed(nodes[x as int], m).0
            &&& fixpoint_errors(typer, nodes, namespace) == failure_errors(run.3)
        }),
{
    let q = initial_queue(nodes.len());
    assert(q[x as int] == x);
    lemma_stuck_node_stalls(typer, nodes, q, namespace, true, x);
}

/// `attempt` is what the typer answers on `node` against some namespace.
pub open spec fn answers<N, S, T: NodeTyper<N, S>>(
    typer: T,
    node: N,
    attempt: CompileResult<TypedAstNode>,
) -> bool {
    exists|m: S| #[trigger] typer.typed(node, m).0 == attempt
}

/// The nodes a pass typed: the queue entries whose attempt succeeded, in order.
pub open spec fn pass_typed(queue: Seq<usize>, rs: Seq<CompileResult<TypedAstNode>>) -> Seq<usize>
    decreases rs.len(),
{
    if rs.len() == 0 {
        seq![]
    } else {
        let before = pass_typed(queue, rs.drop_last());
        if succeeded(rs.last()) {
            before.push(queue[rs.len() - 1])
        } else {
            before
        }
    }
}

/// The node each typed node of a run came from, in the order of the typed nodes.
pub open spec fn typed_roots_from<N, S, T: NodeTyper<N, S>>(
    typer: T,
    nodes: Seq<N>,
    queue: Seq<usize>,
    namespace: S,
    first_pass: bool,
) -> Seq<usize>
    decreases 2 * queue.len() + if first_pass {
        1int
    } else {
        0int
    },
{
    if queue.len() == 0 {
        seq![]
    } else {
        let pass = pass_attempts(typer, nodes, queue, namespace);
        let next = requeued(queue, pass.0);
        if next.len() == queue.len() && !first_pass {
            seq![]
        } else if next.len() > queue.len() {
            seq![]
        } else {
            pass_typed(queue, pass.0) + typed_roots_from(typer, nodes, next, pass.1, false)
        }
    }
}

/// The node each element of `fixpoint_nodes` came from.
pub open spec fn fixpoint_typed_roots<N, S, T: NodeTyper<N, S>>(
    typer: T,
    nodes: Seq<N>,
    namespace: S,
) -> Seq<usize> {
    typed_roots_from(typer, nodes, initial_queue(nodes.len()), namespace, true)
}

/// A pass splits the queued nodes between those it typed and those it queues again.
proof fn lemma_pass_partition(queue: Seq<usize>, rs: Seq<CompileResult<TypedAstNode>>)
    requires
        queue.len() >= rs.len(),
    ensures
        (pass_typed(queue, rs) + requeued(queue, rs)).to_multiset() =~= queue.take(
            rs.len() as int,
        ).to_multiset(),
        pass_typed(queue, rs).len() == pass_successes(rs).len(),
    decreases rs.len(),
{
    broadcast use vstd::seq_lib::group_to_multiset_ensures;
    broadcast use vstd::multiset::group_multiset_axioms;

    if rs.len() > 0 {
        let l = rs.len() - 1;
        lemma_pass_partition(queue, rs.drop_last());
        let t0 = pass_typed(queue, rs.drop_last());
        let u0 = requeued(queue, rs.drop_last());
        let v = queue[l];
        assert(queue.take(l + 1) =~= queue.take(l).push(v));
        vstd::seq_lib::lemma_multiset_commutative(t0, u0);
        if succeeded(rs.last()) {
            vstd::seq_lib::lemma_multiset_commutative(t0.push(v), u0);
        } else {
            vstd::seq_lib::lemma_multiset_commutative(t0, seq![v] + u0);
            vstd::seq_lib::lemma_multiset_commutative(seq![v], u0);
            assert(seq![v].to_multiset() =~= Seq::<usize>::empty().push(v).to_multiset()) by {
                assert(seq![v] =~= Seq::<usize>::empty().push(v));
            }
        }
    }
}

/// The k-th success of a pass is the attempt on the k-th node the pass typed.
proof fn lemma_pass_typed_source(queue: Seq<usize>, rs: Seq<CompileResult<TypedAstNode>>, k: int)
    requires
        queue.len() >= rs.len(),
        0 <= k < pass_typed(queue, rs).len(),
    ensures
        pass_typed(queue, rs).len() == pass_successes(rs).len(),
        exists|j: int|
            0 <= j < rs.len() && queue[j] == pass_typed(queue, rs)[k] && #[trigger] rs[j]
                == pass_successes(rs)[k],
    decreases rs.len(),
{
    lemma_pass_partition(queue, rs);
    let l = rs.len() - 1;
    let t0 = pass_typed(queue, rs.drop_last());
    lemma_pass_partition(queue, rs.drop_last());
    if succeeded(rs.last()) && k == t0.len() {
        assert(rs[l] == pass_successes(rs)[k]);
    } else {
        lemma_pass_typed_source(queue, rs.drop_last(), k);
        let j = choose|j: int|
            0 <= j < rs.drop_last().len() && queue[j] == t0[k] && #[trigger] rs.drop_last()[j]
                == pass_successes(rs.drop_last())[k];
        assert(rs[j] == rs.drop_last()[j]);
    }
}

proof fn lemma_typed_roots_partition<N, S, T: NodeTyper<N, S>>(
    typer: T,
    nodes: Seq<N>,
    queue: Seq<usize>,
    namespace: S,
    first_pass: bool,
)
    ensures
        ({
            let run = fixpoint_from(typer, nodes, queue, namespace, first_pass);
            let roots = typed_roots_from(typer, nodes, queue, namespace, first_pass);
            &&& roots.len() == run.1.len()
            &&& (roots + run.2).to_multiset() =~= queue.to_multiset()
            &&& forall|k: int|
                0 <= k < roots.len() ==> #[trigger] answers::<N, S, T>(
                    typer,
                    nodes[roots[k] as int],
                    run.1[k],
                )
        }),
    decreases 2 * queue.len() + if first_pass {
        1int
    } else {
        0int
    },
{
    broadcast use vstd::seq_lib::group_to_multiset_ensures;
    broadcast use vstd::multiset::group_multiset_axioms;

    if queue.len() > 0 {
        let pass = pass_attempts(typer, nodes, queue, namespace);
        lemma_pass_attempt_at(typer, nodes, queue, namespace, 0);
        lemma_pass_counts(queue, pass.0);
        lemma_pass_partition(queue, pass.0);
        assert(queue.take(queue.len() as int) =~= queue);
        let t = pass_typed(queue, pass.0);
        let next = requeued(queue, pass.0);
        vstd::seq_lib::lemma_multiset_commutative(t, next);
        if next.len() == queue.len() && !first_pass {
            assert(t.len() == 0);
            assert(t =~= seq![]);
            assert(seq![] + next =~= next);
            assert(t + next =~= next);
            assert(typed_roots_from(typer, nodes, queue, namespace, first_pass) =~= seq![]);
        } else {
            lemma_typed_roots_partition(typer, nodes, next, pass.1, false);
            let rest_roots = typed_roots_from(typer, nodes, next, pass.1, false);
            let rest = fixpoint_from(typer, nodes, next, pass.1, false);
            vstd::seq_lib::lemma_multiset_commutative(rest_roots, rest.2);
            vstd::seq_lib::lemma_multiset_commutative(t, rest_roots + rest.2);
            assert(t + rest_roots + rest.2 =~= t + (rest_roots + rest.2));
            let run = fixpoint_from(typer, nodes, queue, namespace, first_pass);
            let roots = typed_roots_from(typer, nodes, queue, namespace, first_pass);
            assert forall|k: int| 0 <= k < roots.len() implies #[trigger] answers::<N, S, T>(
                typer,
                nodes[roots[k] as int],
                run.1[k],
            ) by {
                if k < t.len() {
                    lemma_pass_typed_source(queue, pass.0, k);
                    let j = choose|j: int|
                        0 <= j < pass.0.len() && queue[j] == t[k] && #[trigger] pass.0[j]
                            == pass_successes(pass.0)[k];
                    lemma_pass_attempt_at(typer, nodes, queue, namespace, j);
                    let m = choose|m: S|
                        pass.0[j] == #[trigger] typer.typed(nodes[queue[j] as int], m).0;
                    assert(run.1[k] == pass_successes(pass.0)[k]);
                    assert(roots[k] == t[k]);
                    assert(typer.typed(nodes[roots[k] as int], m).0 == run.1[k]);
                } else {
                    let k2 = k - t.len();
                    assert(run.1[k] == rest.1[k2]);
                    assert(roots[k] == rest_roots[k2]);
                    assert(answers::<N, S, T>(typer, nodes[rest_roots[k2] as int], rest.1[k2]));
                }
            }
        }
    } else {
        assert(seq![] + seq![] =~= queue);
    }
}

/// Every node of the unit is typed at most once: the nodes the typed nodes came
/// from, together with the nodes left unresolved, hold each node of the unit
/// exactly once; and the k-th successful attempt of the run is the typer's
/// answer on the node the k-th typed node came from. So a node gives one typed
/// node when an attempt on it succeeded, and none otherwise.
pub proof fn lemma_each_node_typed_at_most_once<N, S, T: NodeTyper<N, S>>(
    typer: T,
    nodes: Seq<N>,
    namespace: S,
)
    requires
        nodes.len() <= usize::MAX,
    ensures
        fixpoint_typed_roots(typer, nodes, namespace).len() == fixpoint_nodes(
            typer,
            nodes,
            namespace,
        ).len(),
        forall|i: usize|
            #![trigger (fixpoint_typed_roots(typer, nodes, namespace) + fixpoint_run(
                typer,
                nodes,
                namespace,
            ).2).to_multiset().count(i)]
            (fixpoint_typed_roots(typer, nodes, namespace) + fixpoint_run(
                typer,
                nodes,
                namespace,
            ).2).to_multiset().count(i) == if i < nodes.len() {
                1nat
            } else {
                0nat
            },
        forall|k: int|
            0 <= k < fixpoint_typed_roots(typer, nodes, namespace).len() ==> #[trigger] answers::<
                N,
                S,
                T,
            >(
                typer,
                nodes[fixpoint_typed_roots(typer, nodes, namespace)[k] as int],
                fixpoint_run(typer, nodes, namespace).1[k],
            ),
{
    broadcast use vstd::seq_lib::group_to_multiset_ensures;

    let q = initial_queue(nodes.len());
    lemma_typed_roots_partition(typer, nodes, q, namespace, true);
    assert forall|a: int, b: int| 0 <= a < q.len() && 0 <= b < q.len() && a != b implies q[a]
        != q[b] by {
        assert(q[a] == a as usize && q[b] == b as usize);
    }
    assert(q.no_duplicates());
    q.lemma_multiset_has_no_duplicates();
    assert forall|i: usize| #[trigger] q.to_multiset().count(i) == if i < nodes.len() {
        1nat
    } else {
        0nat
    } by {
        if i < nodes.len() {
            assert(q[i as int] == i);
            assert(q.contains(i));
        } else {
            assert(!q.contains(i));
        }
    }
}

} // verus!
