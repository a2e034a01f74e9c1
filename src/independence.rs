//! Order independence of the fixpoint loop, for a typer that resolves names.
use vstd::prelude::*;

use crate::error::CompileResult;
use crate::fixpoint::{
    fixpoint_from, fixpoint_namespace, fixpoint_run, fixpoint_typed_roots, initial_queue,
    lemma_each_node_typed_at_most_once, lemma_pass_counts, pass_attempts, pass_successes, pass_typed, requeued,
    succeeded, typed_roots_from, FixpointOutcome,
};
use crate::typed_ast::{NodeTyper, TypedAstNode};

verus! {

/// The names the given nodes declare.
pub open spec fn declared<N>(decl: spec_fn(N) -> int, xs: Set<N>) -> Set<int> {
    Set::new(|k: int| exists|x: N| xs.contains(x) && decl(x) == k)
}

/// A typer that resolves names: it types a node exactly when every name the
/// node refers to is in the namespace, and typing it adds the name it
/// declares; a failed attempt leaves the names as they were.
pub open spec fn resolves_names<N, S, T: NodeTyper<N, S>>(
    typer: T,
    content: spec_fn(S) -> Set<int>,
    refs: spec_fn(N) -> Set<int>,
    decl: spec_fn(N) -> int,
) -> bool {
    forall|x: N, m: S|
        #![trigger typer.typed(x, m)]
        {
            &&& succeeded(typer.typed(x, m).0) <==> refs(x).subset_of(content(m))
            &&& succeeded(typer.typed(x, m).0) ==> content(typer.typed(x, m).1) == content(
                m,
            ).insert(decl(x))
            &&& !succeeded(typer.typed(x, m).0) ==> content(typer.typed(x, m).1) == content(m)
        }
}

/// `xs` holds every node of `nodes` whose references the names of `base` and
/// of `xs` itself cover.
pub open spec fn closed<N>(
    nodes: Set<N>,
    base: Set<int>,
    refs: spec_fn(N) -> Set<int>,
    decl: spec_fn(N) -> int,
    xs: Set<N>,
) -> bool {
    forall|x: N|
        #![trigger xs.contains(x)]
        nodes.contains(x) && refs(x).subset_of(base.union(declared(decl, xs))) ==> xs.contains(x)
}

/// The nodes at the given indices.
pub open spec fn node_set<N>(nodes: Seq<N>, idx: Seq<usize>) -> Set<N> {
    Set::new(|x: N| exists|k: int| 0 <= k < idx.len() && nodes[idx[k] as int] == x)
}

proof fn lemma_declared_insert<N>(decl: spec_fn(N) -> int, xs: Set<N>, x: N)
    ensures
        declared(decl, xs.insert(x)) == declared(decl, xs).insert(decl(x)),
{
    assert forall|k: int| declared(decl, xs.insert(x)).contains(k) == declared(decl, xs).insert(
        decl(x),
    ).contains(k) by {
        if declared(decl, xs.insert(x)).contains(k) {
            let y = choose|y: N| xs.insert(x).contains(y) && decl(y) == k;
            if y != x {
                assert(xs.contains(y));
            }
        }
        if declared(decl, xs).contains(k) {
            let y = choose|y: N| xs.contains(y) && decl(y) == k;
            assert(xs.insert(x).contains(y));
        }
        if k == decl(x) {
            assert(xs.insert(x).contains(x));
        }
    }
    assert(declared(decl, xs.insert(x)) =~= declared(decl, xs).insert(decl(x)));
}

proof fn lemma_node_set_push<N>(nodes: Seq<N>, idx: Seq<usize>, v: usize)
    ensures
        node_set(nodes, idx.push(v)) == node_set(nodes, idx).insert(nodes[v as int]),
{
    assert forall|x: N| node_set(nodes, idx.push(v)).contains(x) == node_set(nodes, idx).insert(
        nodes[v as int],
    ).contains(x) by {
        if node_set(nodes, idx.push(v)).contains(x) {
            let k = choose|k: int| 0 <= k < idx.push(v).len() && nodes[idx.push(v)[k] as int] == x;
            if k < idx.len() {
                assert(idx.push(v)[k] == idx[k]);
            }
        }
        if node_set(nodes, idx).contains(x) {
            let k = choose|k: int| 0 <= k < idx.len() && nodes[idx[k] as int] == x;
            assert(idx.push(v)[k] == idx[k]);
        }
        if x == nodes[v as int] {
            assert(idx.push(v)[idx.len() as int] == v);
        }
    }
    assert(node_set(nodes, idx.push(v)) =~= node_set(nodes, idx).insert(nodes[v as int]));
}

proof fn lemma_pass_typed_prefix(q: Seq<usize>, q2: Seq<usize>, rs: Seq<CompileResult<TypedAstNode>>)
    requires
        q.len() >= rs.len(),
        q2.len() >= rs.len(),
        forall|i: int| 0 <= i < rs.len() ==> q[i] == q2[i],
    ensures
        pass_typed(q, rs) == pass_typed(q2, rs),
    decreases rs.len(),
{
    if rs.len() > 0 {
        lemma_pass_typed_prefix(q, q2, rs.drop_last());
    }
}

/// A pass of a name-resolving typer from names `base` plus those of `done`:
/// the names after it are those plus the names of what it typed, everything it
/// typed is in any closed set holding `done`, and a pass that typed nothing
/// changed no name and failed on nodes whose references are not covered.
proof fn lemma_pass_model<N, S, T: NodeTyper<N, S>>(
    typer: T,
    content: spec_fn(S) -> Set<int>,
    refs: spec_fn(N) -> Set<int>,
    decl: spec_fn(N) -> int,
    nodes: Seq<N>,
    queue: Seq<usize>,
    namespace: S,
    base: Set<int>,
    done: Set<N>,
    xs: Set<N>,
)
    requires
        resolves_names(typer, content, refs, decl),
        content(namespace) == base.union(declared(decl, done)),
        forall|y: N| #[trigger] done.contains(y) ==> refs(y).subset_of(content(namespace)),
        done.subset_of(xs),
        closed(nodes.to_set(), base, refs, decl, xs),
        forall|j: int| 0 <= j < queue.len() ==> #[trigger] queue[j] < nodes.len(),
    ensures
        ({
            let pass = pass_attempts(typer, nodes, queue, namespace);
            let typed = done.union(node_set(nodes, pass_typed(queue, pass.0)));
            &&& pass.0.len() == queue.len()
            &&& content(pass.1) == base.union(declared(decl, typed))
            &&& typed.subset_of(xs)
            &&& forall|y: N| #[trigger] typed.contains(y) ==> refs(y).subset_of(content(pass.1))
            &&& content(namespace).subset_of(content(pass.1))
            &&& pass_successes(pass.0).len() == 0 ==> {
                &&& content(pass.1) == content(namespace)
                &&& forall|j: int|
                    0 <= j < queue.len() ==> !refs(nodes[#[trigger] queue[j] as int]).subset_of(
                        content(namespace),
                    )
            }
        }),
    decreases queue.len(),
{
    if queue.len() == 0 {
        assert(node_set(nodes, seq![]) =~= Set::<N>::empty());
        assert(done.union(Set::<N>::empty()) =~= done);
    } else {
        let q0 = queue.drop_last();
        lemma_pass_model(typer, content, refs, decl, nodes, q0, namespace, base, done, xs);
        let before = pass_attempts(typer, nodes, q0, namespace);
        let pass = pass_attempts(typer, nodes, queue, namespace);
        let v = queue.last();
        let x = nodes[v as int];
        let attempt = typer.typed(x, before.1);
        assert(pass.0.drop_last() =~= before.0);
        assert(pass.0.last() == attempt.0);
        lemma_pass_typed_prefix(queue, q0, before.0);
        let t0 = done.union(node_set(nodes, pass_typed(q0, before.0)));
        let pt0 = pass_typed(queue, before.0);
        if succeeded(attempt.0) {
            assert(pass_typed(queue, pass.0) == pt0.push(v));
            lemma_node_set_push(nodes, pt0, v);
            let t = done.union(node_set(nodes, pass_typed(queue, pass.0)));
            assert(t =~= t0.insert(x));
            lemma_declared_insert(decl, t0, x);
            assert(content(pass.1) =~= base.union(declared(decl, t)));
            assert(nodes.to_set().contains(x)) by {
                assert(nodes[v as int] == x);
            }
            assert(refs(x).subset_of(base.union(declared(decl, xs)))) by {
                assert forall|k: int| declared(decl, t0).contains(k) implies declared(decl, xs).contains(k) by {
                    let y = choose|y: N| t0.contains(y) && decl(y) == k;
                    assert(xs.contains(y));
                }
            }
            assert(xs.contains(x));
            assert(pass_successes(pass.0).len() > 0);
        } else {
            assert(pass_typed(queue, pass.0) == pt0);
            if pass_successes(pass.0).len() == 0 {
                assert(pass_successes(before.0).len() == 0);
                assert forall|j: int| 0 <= j < queue.len() implies !refs(
                    nodes[#[trigger] queue[j] as int],
                ).subset_of(content(namespace)) by {
                    if j < q0.len() {
                        assert(q0[j] == queue[j]);
                    }
                }
            }
        }
    }
}

proof fn lemma_node_set_concat<N>(nodes: Seq<N>, a: Seq<usize>, b: Seq<usize>)
    ensures
        node_set(nodes, a + b) == node_set(nodes, a).union(node_set(nodes, b)),
{
    assert forall|x: N| node_set(nodes, a + b).contains(x) == node_set(nodes, a).union(
        node_set(nodes, b),
    ).contains(x) by {
        if node_set(nodes, a + b).contains(x) {
            let k = choose|k: int| 0 <= k < (a + b).len() && nodes[(a + b)[k] as int] == x;
            if k < a.len() {
                assert((a + b)[k] == a[k]);
            } else {
                assert((a + b)[k] == b[k - a.len()]);
            }
        }
        if node_set(nodes, a).contains(x) {
            let k = choose|k: int| 0 <= k < a.len() && nodes[a[k] as int] == x;
            assert((a + b)[k] == a[k]);
        }
        if node_set(nodes, b).contains(x) {
            let k = choose|k: int| 0 <= k < b.len() && nodes[b[k] as int] == x;
            assert((a + b)[k + a.len()] == b[k]);
        }
    }
    assert(node_set(nodes, a + b) =~= node_set(nodes, a).union(node_set(nodes, b)));
}

/// A run of a name-resolving typer from names `base` plus those of `done`:
/// it never regresses; the names at its end are those plus the names of what
/// it typed; everything it typed is in any closed set holding `done`; and when
/// it stalls, no node it left has its references covered by those names.
proof fn lemma_run_model<N, S, T: NodeTyper<N, S>>(
    typer: T,
    content: spec_fn(S) -> Set<int>,
    refs: spec_fn(N) -> Set<int>,
    decl: spec_fn(N) -> int,
    nodes: Seq<N>,
    queue: Seq<usize>,
    namespace: S,
    first_pass: bool,
    base: Set<int>,
    done: Set<N>,
    xs: Set<N>,
)
    requires
        resolves_names(typer, content, refs, decl),
        content(namespace) == base.union(declared(decl, done)),
        forall|y: N| #[trigger] done.contains(y) ==> refs(y).subset_of(content(namespace)),
        done.subset_of(xs),
        closed(nodes.to_set(), base, refs, decl, xs),
        forall|j: int| 0 <= j < queue.len() ==> #[trigger] queue[j] < nodes.len(),
    ensures
        ({
            let run = fixpoint_from(typer, nodes, queue, namespace, first_pass);
            let typed = done.union(
                node_set(nodes, typed_roots_from(typer, nodes, queue, namespace, first_pass)),
            );
            &&& run.0 != FixpointOutcome::Regressed
            &&& run.0 == FixpointOutcome::Complete ==> run.2.len() == 0
            &&& content(run.4) == base.union(declared(decl, typed))
            &&& typed.subset_of(xs)
            &&& forall|y: N| #[trigger] typed.contains(y) ==> refs(y).subset_of(content(run.4))
            &&& run.0 == FixpointOutcome::Stalled ==> forall|j: int|
                0 <= j < run.2.len() ==> !refs(nodes[#[trigger] run.2[j] as int]).subset_of(
                    content(run.4),
                )
        }),
    decreases 2 * queue.len() + if first_pass {
        1int
    } else {
        0int
    },
{
    if queue.len() == 0 {
        assert(node_set(nodes, seq![]) =~= Set::<N>::empty());
        assert(done.union(Set::<N>::empty()) =~= done);
    } else {
        lemma_pass_model(typer, content, refs, decl, nodes, queue, namespace, base, done, xs);
        let pass = pass_attempts(typer, nodes, queue, namespace);
        lemma_pass_counts(queue, pass.0);
        let next = requeued(queue, pass.0);
        let pt = pass_typed(queue, pass.0);
        let done2 = done.union(node_set(nodes, pt));
        assert forall|j: int| 0 <= j < next.len() implies #[trigger] next[j] < nodes.len() by {
            let k = choose|k: int| 0 <= k < pass.0.len() && next[j] == queue[k];
        }
        if next.len() == queue.len() && !first_pass {
            assert(pass_successes(pass.0).len() == 0);
            assert(typed_roots_from(typer, nodes, queue, namespace, first_pass) =~= seq![]);
            assert(node_set(nodes, seq![]) =~= Set::<N>::empty());
            assert(done.union(Set::<N>::empty()) =~= done);
            assert forall|j: int| 0 <= j < next.len() implies !refs(
                nodes[#[trigger] next[j] as int],
            ).subset_of(content(pass.1)) by {
                let k = choose|k: int| 0 <= k < pass.0.len() && next[j] == queue[k];
                assert(!refs(nodes[queue[k] as int]).subset_of(content(namespace)));
            }
        } else {
            lemma_run_model(typer, content, refs, decl, nodes, next, pass.1, false, base, done2, xs);
            let rest_roots = typed_roots_from(typer, nodes, next, pass.1, false);
            lemma_node_set_concat(nodes, pt, rest_roots);
            let typed = done.union(
                node_set(nodes, typed_roots_from(typer, nodes, queue, namespace, first_pass)),
            );
            assert(typed =~= done2.union(node_set(nodes, rest_roots)));
        }
    }
}

/// The nodes a run typed.
pub open spec fn typed_node_set<N, S, T: NodeTyper<N, S>>(
    typer: T,
    nodes: Seq<N>,
    namespace: S,
) -> Set<N> {
    node_set(nodes, fixpoint_typed_roots(typer, nodes, namespace))
}

/// For a name-resolving typer, the nodes a run types are the least closed set
/// of the unit's nodes over the starting names, the names at the end are the
/// starting names plus what those nodes declare, and the run completes exactly
/// when it typed every node.
pub proof fn lemma_run_types_least_closed_set<N, S, T: NodeTyper<N, S>>(
    typer: T,
    content: spec_fn(S) -> Set<int>,
    refs: spec_fn(N) -> Set<int>,
    decl: spec_fn(N) -> int,
    nodes: Seq<N>,
    namespace: S,
)
    requires
        resolves_names(typer, content, refs, decl),
        nodes.len() <= usize::MAX,
    ensures
        ({
            let run = fixpoint_run(typer, nodes, namespace);
            let typed = typed_node_set(typer, nodes, namespace);
            &&& closed(nodes.to_set(), content(namespace), refs, decl, typed)
            &&& forall|xs: Set<N>|
                #[trigger] closed(nodes.to_set(), content(namespace), refs, decl, xs)
                    ==> typed.subset_of(xs)
            &&& content(run.4) == content(namespace).union(declared(decl, typed))
            &&& run.0 != FixpointOutcome::Regressed
            &&& run.0 == FixpointOutcome::Complete <==> nodes.to_set().subset_of(typed)
        }),
{
    broadcast use vstd::seq_lib::group_to_multiset_ensures;

    let base = content(namespace);
    let none = Set::<N>::empty();
    let q = initial_queue(nodes.len());
    let run = fixpoint_run(typer, nodes, namespace);
    let roots = fixpoint_typed_roots(typer, nodes, namespace);
    let typed = typed_node_set(typer, nodes, namespace);
    assert(declared(decl, none) =~= Set::<int>::empty());
    assert(base.union(Set::<int>::empty()) =~= base);
    assert forall|j: int| 0 <= j < q.len() implies #[trigger] q[j] < nodes.len() by {}
    assert(none.union(typed) =~= typed);
    assert forall|xs: Set<N>| #[trigger]
        closed(nodes.to_set(), base, refs, decl, xs) implies typed.subset_of(xs) by {
        lemma_run_model(typer, content, refs, decl, nodes, q, namespace, true, base, none, xs);
    }
    // A closed set to run the model against: every node.
    let all = nodes.to_set();
    assert(closed(nodes.to_set(), base, refs, decl, all));
    lemma_run_model(typer, content, refs, decl, nodes, q, namespace, true, base, none, all);
    lemma_each_node_typed_at_most_once(typer, nodes, namespace);
    let both = roots + run.2;
    assert forall|i: int| 0 <= i < nodes.len() implies typed.contains(nodes[i]) || (run.0
        == FixpointOutcome::Stalled && !refs(nodes[i]).subset_of(content(run.4))) by {
        let iu = i as usize;
        assert(both.to_multiset().count(iu) == 1);
        assert(both.contains(iu));
        let k = choose|k: int| 0 <= k < both.len() && both[k] == iu;
        if k < roots.len() {
            assert(roots[k] == iu);
            assert(typed.contains(nodes[i]));
        } else {
            assert(run.2[k - roots.len()] == iu);
        }
    }
    assert forall|x: N| #![trigger typed.contains(x)]
        nodes.to_set().contains(x) && refs(x).subset_of(base.union(declared(decl, typed)))
            implies typed.contains(x) by {
        let i = choose|i: int| 0 <= i < nodes.len() && nodes[i] == x;
    }
    if run.0 == FixpointOutcome::Complete {
        assert forall|x: N| nodes.to_set().contains(x) implies typed.contains(x) by {
            let i = choose|i: int| 0 <= i < nodes.len() && nodes[i] == x;
        }
    }
    if nodes.to_set().subset_of(typed) && run.0 == FixpointOutcome::Stalled {
        assert(run.2.len() > 0) by {
            lemma_stall_leaves_nodes(typer, nodes, namespace);
        }
        let i = run.2[0];
        assert(both[roots.len() as int] == i);
        assert(both.to_multiset().count(i) > 0);
        assert(i < nodes.len());
        assert(typed.contains(nodes[i as int]));
        assert(!refs(nodes[i as int]).subset_of(content(run.4)));
    }
}

proof fn lemma_stall_leaves_nodes<N, S, T: NodeTyper<N, S>>(typer: T, nodes: Seq<N>, namespace: S)
    ensures
        fixpoint_run(typer, nodes, namespace).0 == FixpointOutcome::Stalled ==> fixpoint_run(
            typer,
            nodes,
            namespace,
        ).2.len() > 0,
{
    lemma_stall_nonempty(typer, nodes, initial_queue(nodes.len()), namespace, true);
}

proof fn lemma_stall_nonempty<N, S, T: NodeTyper<N, S>>(
    typer: T,
    nodes: Seq<N>,
    queue: Seq<usize>,
    namespace: S,
    first_pass: bool,
)
    ensures
        fixpoint_from(typer, nodes, queue, namespace, first_pass).0 == FixpointOutcome::Stalled
            ==> fixpoint_from(typer, nodes, queue, namespace, first_pass).2.len() > 0,
    decreases 2 * queue.len() + if first_pass {
        1int
    } else {
        0int
    },
{
    if queue.len() > 0 {
        let pass = pass_attempts(typer, nodes, queue, namespace);
        let next = requeued(queue, pass.0);
        if !(next.len() == queue.len() && !first_pass) && next.len() <= queue.len() {
            lemma_stall_nonempty(typer, nodes, next, pass.1, false);
        }
    }
}

/// Order independence: with a typer that resolves names, two units made of
/// the same nodes, in any order, end the same way, type the same nodes and end
/// with the same names in the namespace.
pub proof fn lemma_order_independent<N, S, T: NodeTyper<N, S>>(
    typer: T,
    content: spec_fn(S) -> Set<int>,
    refs: spec_fn(N) -> Set<int>,
    decl: spec_fn(N) -> int,
    a: Seq<N>,
    b: Seq<N>,
    namespace: S,
)
    requires
        resolves_names(typer, content, refs, decl),
        a.to_set() == b.to_set(),
        a.len() <= usize::MAX,
        b.len() <= usize::MAX,
    ensures
        fixpoint_run(typer, a, namespace).0 == fixpoint_run(typer, b, namespace).0,
        typed_node_set(typer, a, namespace) == typed_node_set(typer, b, namespace),
        content(fixpoint_namespace(typer, a, namespace)) == content(
            fixpoint_namespace(typer, b, namespace),
        ),
{
    lemma_run_types_least_closed_set(typer, content, refs, decl, a, namespace);
    lemma_run_types_least_closed_set(typer, content, refs, decl, b, namespace);
    let ta = typed_node_set(typer, a, namespace);
    let tb = typed_node_set(typer, b, namespace);
    assert(closed(b.to_set(), content(namespace), refs, decl, ta));
    assert(closed(a.to_set(), content(namespace), refs, decl, tb));
    assert(ta =~= tb);
}

proof fn lemma_later_passes_bound<N, S, T: NodeTyper<N, S>>(
    typer: T,
    nodes: Seq<N>,
    queue: Seq<usize>,
    namespace: S,
)
    ensures
        fixpoint_from(typer, nodes, queue, namespace, false).5 <= queue.len(),
    decreases queue.len(),
{
    if queue.len() > 0 {
        let pass = pass_attempts(typer, nodes, queue, namespace);
        let next = requeued(queue, pass.0);
        if next.len() < queue.len() {
            lemma_later_passes_bound(typer, nodes, next, pass.1);
        }
    }
}

/// With a typer that resolves names, a unit whose every node can be typed
/// (every closed set of its nodes over the starting names holds them all, as
/// when no references go round in a cycle or to a name declared nowhere) is
/// typed completely, in at most one pass per node.
pub proof fn lemma_resolvable_unit_completes<N, S, T: NodeTyper<N, S>>(
    typer: T,
    content: spec_fn(S) -> Set<int>,
    refs: spec_fn(N) -> Set<int>,
    decl: spec_fn(N) -> int,
    nodes: Seq<N>,
    namespace: S,
)
    requires
        resolves_names(typer, content, refs, decl),
        nodes.len() <= usize::MAX,
        forall|xs: Set<N>|
            #[trigger] closed(nodes.to_set(), content(namespace), refs, decl, xs)
                ==> nodes.to_set().subset_of(xs),
    ensures
        fixpoint_run(typer, nodes, namespace).0 == FixpointOutcome::Complete,
        fixpoint_run(typer, nodes, namespace).5 <= nodes.len(),
{
    lemma_run_types_least_closed_set(typer, content, refs, decl, nodes, namespace);
    let base = content(namespace);
    let typed = typed_node_set(typer, nodes, namespace);
    assert(nodes.to_set().subset_of(typed));
    if nodes.len() > 0 {
        let none = Set::<N>::empty();
        assert(declared(decl, none) =~= Set::<int>::empty());
        assert(base.union(Set::<int>::empty()) =~= base);
        if !(exists|i: int| 0 <= i < nodes.len() && refs(nodes[i]).subset_of(base)) {
            assert(closed(nodes.to_set(), base, refs, decl, none));
            assert(nodes.to_set().contains(nodes[0]));
        }
        let i = choose|i: int| 0 <= i < nodes.len() && refs(nodes[i]).subset_of(base);
        let q = initial_queue(nodes.len());
        assert forall|j: int| 0 <= j < q.len() implies #[trigger] q[j] < nodes.len() by {}
        lemma_pass_model(typer, content, refs, decl, nodes, q, namespace, base, none, nodes.to_set());
        let pass = pass_attempts(typer, nodes, q, namespace);
        assert(q[i] == i as usize);
        assert(pass_successes(pass.0).len() > 0);
        lemma_pass_counts(q, pass.0);
        let next = requeued(q, pass.0);
        lemma_later_passes_bound(typer, nodes, next, pass.1);
    }
}

} // verus!
