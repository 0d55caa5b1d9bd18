//! What holds of every run: the laws of the validator and of the scheduler,
//! each proved from the model of a run.

use vstd::prelude::*;
use crate::error::RunErrorView;
use crate::graph::{
    count_true, edge_error, lemma_count_true_bound, lemma_count_true_set,
    lemma_next_start, lemma_push_contains, lemma_reach_step, lemma_resolve, next_start, resolve,
    structural_error, Graph,
};
use crate::models::{NodeOutcome, NodeType, WorkflowEdge, WorkflowNode};
use crate::schedule::{
    first_failure, lemma_pending_none, lemma_pending_some, lemma_seeds_below, seeds_below,
    sources_before, Schedule,
};

verus! {

/// One flag for each number below `n`, set where the list holds the number.
pub open spec fn marks(s: Seq<usize>, n: nat) -> Seq<bool> {
    Seq::new(n, |v: int| s.contains(v as usize))
}

/// A list of numbers below `n` without repeats sets as many flags as it is long.
pub proof fn lemma_marks_count(s: Seq<usize>, n: nat)
    requires
        n <= usize::MAX,
        s.no_duplicates(),
        forall|i: int| 0 <= i < s.len() ==> (#[trigger] s[i]) < n,
    ensures
        count_true(marks(s, n)) == s.len(),
    decreases s.len(),
{
    if s.len() == 0 {
        lemma_no_marks(n);
        assert(marks(s, n) =~= Seq::new(n, |v: int| false));
    } else {
        let front = s.drop_last();
        let x = s.last();
        lemma_marks_count(front, n);
        assert(!front.contains(x)) by {
            if front.contains(x) {
                let i = choose|i: int| 0 <= i < front.len() && front[i] == x;
                assert(s[i] == s[s.len() - 1]);
            }
        }
        assert(s =~= front.push(x));
        assert forall|v: int| 0 <= v < n implies marks(s, n)[v] == marks(front, n).update(
            x as int,
            true,
        )[v] by {
            lemma_push_contains(front, x, v as usize);
        }
        assert(marks(s, n) =~= marks(front, n).update(x as int, true));
        lemma_count_true_set(marks(front, n), x as int);
    }
}

/// Flags of which none is set count zero.
pub proof fn lemma_no_marks(n: nat)
    ensures
        count_true(Seq::new(n, |v: int| false)) == 0,
    decreases n,
{
    if n > 0 {
        lemma_no_marks((n - 1) as nat);
        assert(Seq::new(n, |v: int| false).drop_last() =~= Seq::new(
            (n - 1) as nat,
            |v: int| false,
        ));
    }
}

/// Flags that are set only where others are set count no more than those,
/// and less where one of the others is set alone.
pub proof fn lemma_count_true_le(a: Seq<bool>, b: Seq<bool>)
    requires
        a.len() == b.len(),
        forall|v: int| 0 <= v < a.len() ==> (#[trigger] a[v] ==> b[v]),
    ensures
        count_true(a) <= count_true(b),
        (exists|v: int| 0 <= v < a.len() && !#[trigger] a[v] && b[v]) ==> count_true(a)
            < count_true(b),
    decreases a.len(),
{
    if a.len() > 0 {
        let fa = a.drop_last();
        let fb = b.drop_last();
        assert forall|v: int| 0 <= v < fa.len() && #[trigger] fa[v] implies fb[v] by {
            assert(a[v] ==> b[v]);
        }
        lemma_count_true_le(fa, fb);
        if exists|v: int| 0 <= v < a.len() && !#[trigger] a[v] && b[v] {
            let v = choose|v: int| 0 <= v < a.len() && !#[trigger] a[v] && b[v];
            if v < a.len() - 1 {
                assert(!fa[v] && fb[v]);
            }
        }
        assert(a[a.len() - 1] ==> b[a.len() - 1]);
    }
}

/// More numbers below `n` than `n` cannot all differ.
pub proof fn lemma_pigeonhole(s: Seq<usize>, n: nat) -> (pair: (int, int))
    requires
        n <= usize::MAX,
        s.len() > n,
        forall|i: int| 0 <= i < s.len() ==> (#[trigger] s[i]) < n,
    ensures
        0 <= pair.0 < pair.1 < s.len(),
        s[pair.0] == s[pair.1],
{
    if s.no_duplicates() {
        lemma_marks_count(s, n);
        lemma_count_true_bound(marks(s, n));
    }
    let (i, j) = choose|i: int, j: int|
        0 <= i < s.len() && 0 <= j < s.len() && i != j && s[i] == s[j];
    if i < j {
        (i, j)
    } else {
        (j, i)
    }
}

/// A node that the start node reaches is a node of the graph.
pub proof fn lemma_reach_in_range(g: Graph, v: usize)
    requires
        g.well_formed(),
        g.reaches(v),
    ensures
        v < g.size,
{
    let walk = choose|walk: Seq<usize>|
        #[trigger] g.is_walk(walk) && walk[0] == g.start && walk.last() == v;
    if walk.len() > 1 {
        let i = walk.len() - 2;
        assert(g.has_edge(walk[i], walk[i + 1]));
        let k = choose|k: int| 0 <= k < g.edges.len() && g.edges[k] == (walk[i], walk[i + 1]);
        assert(g.edges[k].1 < g.size);
    }
}

/// Every node along a walk from a reachable node is reachable.
pub proof fn lemma_walk_reaches(g: Graph, walk: Seq<usize>, i: int)
    requires
        g.is_walk(walk),
        g.reaches(walk[0]),
        0 <= i < walk.len(),
    ensures
        g.reaches(walk[i]),
    decreases i,
{
    if i > 0 {
        lemma_walk_reaches(g, walk, i - 1);
        assert(g.has_edge(walk[i - 1], walk[i - 1 + 1]));
        lemma_reach_step(g, walk[i - 1], walk[i]);
    }
}

/// Among the completed and the ready nodes, in that order, every reachable
/// source of an edge into a node stands before that node.
pub proof fn lemma_source_stands_before(s: Schedule, p: int, u: usize) -> (q: int)
    requires
        s.inv(),
        0 <= p < (s.done + s.ready).len(),
        s.graph.reaches(u),
        s.graph.has_edge(u, (s.done + s.ready)[p]),
    ensures
        0 <= q < p,
        q < s.done.len(),
        (s.done + s.ready)[q] == u,
{
    let g = s.graph;
    let v = (s.done + s.ready)[p];
    if p < s.done.len() {
        assert(sources_before(g, s.done, p));
        assert(s.done.take(p).contains(u));
        let q = choose|q: int| 0 <= q < s.done.take(p).len() && s.done.take(p)[q] == u;
        q
    } else {
        assert(v == s.ready[p - s.done.len()]);
        assert((s.done + s.ready).contains(v));
        assert(s.indegree[v as int] == 0);
        lemma_reach_in_range(g, u);
        lemma_pending_none(g.edges, g.reach_mask(), s.done.to_set(), u, v);
        let q = choose|q: int| 0 <= q < s.done.len() && s.done[q] == u;
        q
    }
}

/// Walking a cycle backwards from a node that stands at place `p` among the
/// completed and the ready nodes, each step leads to an earlier place.
pub proof fn lemma_walk_back(s: Schedule, walk: Seq<usize>, i: int, j: int, p: int) -> (q: int)
    requires
        s.inv(),
        s.graph.is_cycle(walk),
        0 <= j <= i < walk.len(),
        0 <= p < (s.done + s.ready).len(),
        (s.done + s.ready)[p] == walk[i],
    ensures
        0 <= q <= p - (i - j),
        (s.done + s.ready)[q] == walk[j],
    decreases i - j,
{
    if i == j {
        p
    } else {
        lemma_walk_reaches(s.graph, walk, i - 1);
        assert(s.graph.has_edge(walk[i - 1], walk[i - 1 + 1]));
        let q = lemma_source_stands_before(s, p, walk[i - 1]);
        lemma_walk_back(s, walk, i - 1, j, q)
    }
}

/// No node of a cycle of the reachable part is ever completed or ready.
pub proof fn lemma_cycle_never_runs(s: Schedule, walk: Seq<usize>, i: int)
    requires
        s.inv(),
        s.graph.is_cycle(walk),
        0 <= i < walk.len(),
    ensures
        !(s.done + s.ready).contains(walk[i]),
{
    let all = s.done + s.ready;
    if all.contains(walk[i]) {
        let p = choose|p: int| 0 <= p < all.len() && all[p] == walk[i];
        let q0 = lemma_walk_back(s, walk, i, 0, p);
        let last = walk.len() - 1;
        let q1 = lemma_walk_back(s, walk, last, i, q0);
        assert(all[q1] == all[p] && q1 != p);
    }
}

/// A workflow without a start node is refused for that.
pub proof fn law_missing_start(nodes: Seq<WorkflowNode>, edges: Seq<WorkflowEdge>)
    requires
        nodes.len() <= usize::MAX,
        forall|i: int| 0 <= i < nodes.len() ==> (#[trigger] nodes[i]).node_type != NodeType::Start,
    ensures
        structural_error(nodes, edges) == Some(RunErrorView::MissingStart),
        RunErrorView::MissingStart.is_structural(),
{
    lemma_next_start(nodes, 0);
}

/// A workflow with two start nodes, and with edges whose ends all name
/// nodes, is refused for the second start node; the error names a start
/// node that is not the first node of the workflow.
pub proof fn law_second_start(nodes: Seq<WorkflowNode>, edges: Seq<WorkflowEdge>, i: int, j: int)
    requires
        nodes.len() <= usize::MAX,
        0 <= i < j < nodes.len(),
        nodes[i].node_type == NodeType::Start,
        nodes[j].node_type == NodeType::Start,
        forall|k: int|
            0 <= k < edges.len() ==> resolve(nodes, (#[trigger] edges[k]).source_node_id@) is Some
                && resolve(nodes, edges[k].target_node_id@) is Some,
    ensures
        structural_error(nodes, edges) matches Some(RunErrorView::DuplicateStart(id))
            && exists|k: int|
            0 < k < nodes.len() && (#[trigger] nodes[k]).node_type == NodeType::Start
                && nodes[k].id@ == id,
{
    lemma_next_start(nodes, 0);
    let first = next_start(nodes, 0).unwrap();
    lemma_next_start(nodes, first + 1);
    if next_start(nodes, first + 1) is None {
        assert(nodes[j].node_type != NodeType::Start);
    }
    let second = next_start(nodes, first + 1).unwrap();
    assert(nodes[second as int].node_type == NodeType::Start);
    lemma_edges_sound(nodes, edges);
}

/// A workflow with exactly one start node, and with edges whose ends all
/// name nodes, is accepted.
pub proof fn law_sound_structure_is_accepted(
    nodes: Seq<WorkflowNode>,
    edges: Seq<WorkflowEdge>,
    start: int,
)
    requires
        nodes.len() <= usize::MAX,
        0 <= start < nodes.len(),
        forall|i: int|
            0 <= i < nodes.len() ==> ((#[trigger] nodes[i]).node_type == NodeType::Start <==> i
                == start),
        forall|k: int|
            0 <= k < edges.len() ==> resolve(nodes, (#[trigger] edges[k]).source_node_id@) is Some
                && resolve(nodes, edges[k].target_node_id@) is Some,
    ensures
        structural_error(nodes, edges) is None,
{
    lemma_next_start(nodes, 0);
    assert(nodes[start].node_type == NodeType::Start);
    let first = next_start(nodes, 0).unwrap();
    assert(first == start);
    lemma_next_start(nodes, first + 1);
    if next_start(nodes, first + 1) is Some {
        let second = next_start(nodes, first + 1).unwrap();
        assert(nodes[second as int].node_type == NodeType::Start);
    }
    lemma_edges_sound(nodes, edges);
}

/// Edges whose ends all name nodes are not at fault.
pub proof fn lemma_edges_sound(nodes: Seq<WorkflowNode>, edges: Seq<WorkflowEdge>)
    requires
        forall|k: int|
            0 <= k < edges.len() ==> resolve(nodes, (#[trigger] edges[k]).source_node_id@) is Some
                && resolve(nodes, edges[k].target_node_id@) is Some,
    ensures
        edge_error(nodes, edges) is None,
    decreases edges.len(),
{
    if edges.len() > 0 {
        let front = edges.drop_last();
        assert forall|k: int| 0 <= k < front.len() implies resolve(
            nodes,
            (#[trigger] front[k]).source_node_id@,
        ) is Some && resolve(nodes, front[k].target_node_id@) is Some by {
            assert(front[k] == edges[k]);
        }
        lemma_edges_sound(nodes, front);
        assert(edges.last() == edges[edges.len() - 1]);
    }
}

/// An edge at fault names an id that an edge refers to and that no node carries.
pub proof fn lemma_edge_error_names(nodes: Seq<WorkflowNode>, edges: Seq<WorkflowEdge>)
    requires
        nodes.len() <= usize::MAX,
    ensures
        edge_error(nodes, edges) matches Some(e) ==> (e is MissingSource || e is MissingTarget),
        edge_error(nodes, edges) matches Some(RunErrorView::MissingSource(id)) ==> resolve(
            nodes,
            id,
        ) is None && exists|k: int|
            0 <= k < edges.len() && (#[trigger] edges[k]).source_node_id@ == id,
        edge_error(nodes, edges) matches Some(RunErrorView::MissingTarget(id)) ==> resolve(
            nodes,
            id,
        ) is None && exists|k: int|
            0 <= k < edges.len() && (#[trigger] edges[k]).target_node_id@ == id,
    decreases edges.len(),
{
    if edges.len() > 0 {
        let front = edges.drop_last();
        lemma_edge_error_names(nodes, front);
        match edge_error(nodes, front) {
            Some(RunErrorView::MissingSource(id)) => {
                let k = choose|k: int|
                    0 <= k < front.len() && (#[trigger] front[k]).source_node_id@ == id;
                assert(edges[k].source_node_id@ == id);
            },
            Some(RunErrorView::MissingTarget(id)) => {
                let k = choose|k: int|
                    0 <= k < front.len() && (#[trigger] front[k]).target_node_id@ == id;
                assert(edges[k].target_node_id@ == id);
            },
            Some(_) => {},
            None => {
                let k = edges.len() - 1;
                assert(edges[k] == edges.last());
            },
        }
    }
}

/// An edge with an end that names no node is at fault, or an edge before it is.
pub proof fn lemma_edge_error_found(nodes: Seq<WorkflowNode>, edges: Seq<WorkflowEdge>, k: int)
    requires
        0 <= k < edges.len(),
        resolve(nodes, edges[k].source_node_id@) is None || resolve(
            nodes,
            edges[k].target_node_id@,
        ) is None,
    ensures
        edge_error(nodes, edges) is Some,
    decreases edges.len(),
{
    if k < edges.len() - 1 {
        lemma_edge_error_found(nodes, edges.drop_last(), k);
    }
}

/// A workflow with a start node is refused for its first edge with an end
/// that names no node, wherever that edge lies and whatever else is wrong:
/// the error names the source of that edge if it names no node, and else its
/// target.
pub proof fn law_first_dangling_edge(nodes: Seq<WorkflowNode>, edges: Seq<WorkflowEdge>, k: int)
    requires
        nodes.len() <= usize::MAX,
        next_start(nodes, 0) is Some,
        0 <= k < edges.len(),
        forall|j: int|
            0 <= j < k ==> resolve(nodes, (#[trigger] edges[j]).source_node_id@) is Some
                && resolve(nodes, edges[j].target_node_id@) is Some,
        resolve(nodes, edges[k].source_node_id@) is None || resolve(
            nodes,
            edges[k].target_node_id@,
        ) is None,
    ensures
        structural_error(nodes, edges) == Some(
            if resolve(nodes, edges[k].source_node_id@) is None {
                RunErrorView::MissingSource(edges[k].source_node_id@)
            } else {
                RunErrorView::MissingTarget(edges[k].target_node_id@)
            },
        ),
{
    let seen = edges.take(k + 1);
    assert(seen.drop_last() =~= edges.take(k));
    assert(seen.last() == edges[k]);
    assert forall|j: int| 0 <= j < k implies resolve(
        nodes,
        (#[trigger] edges.take(k)[j]).source_node_id@,
    ) is Some && resolve(nodes, edges.take(k)[j].target_node_id@) is Some by {
        assert(edges.take(k)[j] == edges[j]);
    }
    lemma_edges_sound(nodes, edges.take(k));
    crate::graph::lemma_edge_error_stays(nodes, edges, k + 1);
}

/// A workflow with an edge that refers to an id that no node carries is
/// refused with a structural error, wherever the edge lies. Where the
/// workflow has a start node, the error is that of an edge: it names an id
/// that an edge refers to and that no node carries.
pub proof fn law_dangling_edge(nodes: Seq<WorkflowNode>, edges: Seq<WorkflowEdge>, k: int)
    requires
        nodes.len() <= usize::MAX,
        0 <= k < edges.len(),
        (forall|i: int| 0 <= i < nodes.len() ==> (#[trigger] nodes[i]).id@
            != edges[k].source_node_id@) || (forall|i: int|
            0 <= i < nodes.len() ==> (#[trigger] nodes[i]).id@ != edges[k].target_node_id@),
    ensures
        structural_error(nodes, edges) matches Some(e) && e.is_structural(),
        structural_error(nodes, edges) matches Some(RunErrorView::MissingSource(id)) ==> resolve(
            nodes,
            id,
        ) is None && exists|j: int|
            0 <= j < edges.len() && (#[trigger] edges[j]).source_node_id@ == id,
        structural_error(nodes, edges) matches Some(RunErrorView::MissingTarget(id)) ==> resolve(
            nodes,
            id,
        ) is None && exists|j: int|
            0 <= j < edges.len() && (#[trigger] edges[j]).target_node_id@ == id,
        next_start(nodes, 0) is Some ==> structural_error(nodes, edges) == edge_error(
            nodes,
            edges,
        ) && (structural_error(nodes, edges) matches Some(e) && (e is MissingSource
            || e is MissingTarget)),
{
    lemma_resolve(nodes, edges[k].source_node_id@);
    lemma_resolve(nodes, edges[k].target_node_id@);
    lemma_edge_error_found(nodes, edges, k);
    lemma_edge_error_names(nodes, edges);
}

/// The first round holds the start node alone, or nothing where an edge of
/// the reachable part enters the start node: every other reachable node
/// depends on a reachable node.
pub proof fn law_first_round_is_the_start_node(g: Graph, i: int)
    requires
        g.well_formed(),
        0 <= i < seeds_below(g, g.size).len(),
    ensures
        seeds_below(g, g.size)[i] == g.start,
        seeds_below(g, g.size).len() == 1,
{
    let seeds = seeds_below(g, g.size);
    lemma_seeds_below(g, g.size);
    assert forall|k: int| 0 <= k < seeds.len() implies seeds[k] == g.start by {
        let v = seeds[k];
        assert(g.reaches(v) && g.in_degrees()[v as int] == 0);
        if v != g.start {
            let walk = choose|walk: Seq<usize>|
                #[trigger] g.is_walk(walk) && walk[0] == g.start && walk.last() == v;
            assert(walk.len() >= 2);
            let p = walk.len() - 2;
            assert(g.has_edge(walk[p], walk[p + 1]));
            crate::graph::lemma_reach_start(g);
            lemma_walk_reaches(g, walk, p);
            lemma_reach_in_range(g, walk[p]);
            crate::graph::lemma_pending_in_bound(g.edges, g.reach_mask(), Set::empty(), v);
            lemma_pending_none(g.edges, g.reach_mask(), Set::empty(), walk[p], v);
        }
    }
    if seeds.len() > 1 {
        assert(seeds[0] == seeds[1]);
    }
}

/// Only reachable nodes are handed out, and only their results are kept:
/// each result belongs to the node at its place in the order of completion,
/// and no node completes twice.
pub proof fn law_only_reachable_nodes_run(s: Schedule)
    requires
        s.inv(),
    ensures
        forall|i: int| 0 <= i < s.ready.len() ==> s.graph.reaches(#[trigger] s.ready[i]),
        forall|i: int| 0 <= i < s.done.len() ==> s.graph.reaches(#[trigger] s.done[i]),
        (s.done + s.ready).no_duplicates(),
        s.results.len() == s.done.len(),
        forall|i: int|
            0 <= i < s.results.len() ==> (#[trigger] s.results[i]).node_id
                == s.nodes[s.done[i] as int].id@ && s.results[i].success,
{
}

/// A node is handed out only when every reachable node that it depends on
/// has completed.
pub proof fn law_dependencies_complete_first(s: Schedule, i: int, u: usize)
    requires
        s.inv(),
        0 <= i < s.ready.len(),
        s.graph.reaches(u),
        s.graph.has_edge(u, s.ready[i]),
    ensures
        s.done.contains(u),
{
    assert((s.done + s.ready)[s.done.len() + i] == s.ready[i]);
    let q = lemma_source_stands_before(s, s.done.len() + i, u);
    assert(s.done[q] == u);
}

/// In the order of completion, every reachable node that a node depends on
/// stands before that node.
pub proof fn law_results_follow_dependencies(s: Schedule, i: int, u: usize) -> (j: int)
    requires
        s.inv(),
        0 <= i < s.done.len(),
        s.graph.reaches(u),
        s.graph.has_edge(u, s.done[i]),
    ensures
        0 <= j < i,
        s.done[j] == u,
{
    assert((s.done + s.ready)[i] == s.done[i]);
    let q = lemma_source_stands_before(s, i, u);
    assert(s.done[q] == u);
    q
}

/// No more nodes complete than the start node reaches.
pub proof fn lemma_done_count(s: Schedule)
    requires
        s.inv(),
    ensures
        s.done.len() <= s.graph.reach_count(),
        (exists|v: usize| v < s.graph.size && s.graph.reaches(v) && !s.done.contains(v))
            ==> s.done.len() < s.graph.reach_count(),
        (forall|v: usize| v < s.graph.size && s.graph.reaches(v) ==> s.done.contains(v))
            ==> s.done.len() == s.graph.reach_count(),
{
    let g = s.graph;
    let n = g.size;
    assert(s.done.no_duplicates()) by {
        assert forall|a: int, b: int|
            0 <= a < s.done.len() && 0 <= b < s.done.len() && a != b implies s.done[a]
            != s.done[b] by {
            assert((s.done + s.ready)[a] != (s.done + s.ready)[b]);
        }
    }
    lemma_marks_count(s.done, n);
    let a = marks(s.done, n);
    let b = g.reach_mask();
    assert forall|v: int| 0 <= v < a.len() && #[trigger] a[v] implies b[v] by {
        let i = choose|i: int| 0 <= i < s.done.len() && s.done[i] == v as usize;
        assert(g.reaches(s.done[i]));
    }
    lemma_count_true_le(a, b);
    if exists|v: usize| v < g.size && g.reaches(v) && !s.done.contains(v) {
        let v = choose|v: usize| v < g.size && g.reaches(v) && !s.done.contains(v);
        assert(!a[v as int] && b[v as int]);
    }
    if forall|v: usize| v < g.size && g.reaches(v) ==> s.done.contains(v) {
        assert forall|v: int| 0 <= v < n implies a[v] == b[v] by {
            if b[v] {
                assert(g.reaches(v as usize));
            }
        }
        assert(a =~= b);
    }
}

/// Where the reachable part holds a cycle, the nodes completed never come
/// up to the nodes reachable, and the run ends with an error: with the
/// cycle error, unless a node failed first.
pub proof fn law_cycle_fails(s: Schedule)
    requires
        s.inv(),
        s.graph.has_cycle(),
    ensures
        s.done.len() < s.graph.reach_count(),
        s.verdict() is Err,
        s.failure is None ==> s.verdict() == Err::<crate::models::RunResultView, _>(
            RunErrorView::Cycle,
        ),
{
    let g = s.graph;
    let walk = choose|walk: Seq<usize>| #[trigger] g.is_cycle(walk);
    lemma_cycle_never_runs(s, walk, 0);
    lemma_reach_in_range(g, walk[0]);
    let v = walk[0];
    assert(!s.done.contains(v)) by {
        if s.done.contains(v) {
            let i = choose|i: int| 0 <= i < s.done.len() && s.done[i] == v;
            assert((s.done + s.ready)[i] == v);
        }
    }
    lemma_done_count(s);
}

/// A reachable node that has not completed when nothing is ready.
pub open spec fn stuck(s: Schedule, v: usize) -> bool {
    v < s.graph.size && s.graph.reaches(v) && !s.done.contains(v)
}

/// When nothing is ready and no node failed, a reachable node that has not
/// completed ends a walk of any length along such nodes.
pub proof fn lemma_stuck_walk(s: Schedule, v: usize, len: nat) -> (walk: Seq<usize>)
    requires
        s.inv(),
        s.failure is None,
        s.ready.len() == 0,
        stuck(s, v),
        len >= 1,
    ensures
        walk.len() == len,
        s.graph.is_walk(walk),
        walk.last() == v,
        forall|i: int| 0 <= i < walk.len() ==> stuck(s, #[trigger] walk[i]),
    decreases len,
{
    if len == 1 {
        seq![v]
    } else {
        let g = s.graph;
        assert(s.done + s.ready =~= s.done);
        assert(s.indegree[v as int] != 0);
        let u = lemma_pending_some(g.edges, g.reach_mask(), s.done.to_set(), v);
        assert(stuck(s, u));
        let shorter = lemma_stuck_walk(s, u, (len - 1) as nat);
        let walk = shorter.push(v);
        assert forall|i: int| 0 <= i < walk.len() - 1 implies g.has_edge(
            #[trigger] walk[i],
            walk[i + 1],
        ) by {
            if i < shorter.len() - 1 {
                assert(g.has_edge(shorter[i], shorter[i + 1]));
            }
        }
        walk
    }
}

/// Where the reachable part holds no cycle and no node fails, the run ends
/// with its report once nothing is ready: every reachable node has completed
/// exactly once, and the count of completed nodes is the count of reachable
/// nodes.
pub proof fn law_acyclic_run_completes(s: Schedule)
    requires
        s.inv(),
        s.failure is None,
        s.ready.len() == 0,
        !s.graph.has_cycle(),
    ensures
        s.verdict() is Ok,
        s.verdict()->Ok_0.completed_nodes == s.graph.reach_count(),
        s.verdict()->Ok_0.results == s.results,
        s.done.len() == s.graph.reach_count(),
        s.done.no_duplicates(),
        forall|v: usize| v < s.graph.size && s.graph.reaches(v) ==> s.done.contains(v),
{
    let g = s.graph;
    assert(s.done + s.ready =~= s.done);
    assert forall|v: usize| v < g.size && g.reaches(v) implies s.done.contains(v) by {
        if !s.done.contains(v) {
            let walk = lemma_stuck_walk(s, v, g.size + 1);
            let (a, b) = lemma_pigeonhole(walk, g.size);
            let circle = walk.subrange(a, b + 1);
            assert forall|i: int| 0 <= i < circle.len() - 1 implies g.has_edge(
                #[trigger] circle[i],
                circle[i + 1],
            ) by {
                assert(g.has_edge(walk[a + i], walk[a + i + 1]));
            }
            assert(stuck(s, walk[a]));
            assert(g.is_cycle(circle));
        }
    }
    lemma_done_count(s);
}

/// A node that fails ends the run with an error, and no node is handed out
/// after its round.
pub proof fn law_failure_stops_the_run(s: Schedule, outcomes: Seq<NodeOutcome>, i: int)
    requires
        s.inv(),
        outcomes.len() == s.ready.len(),
        0 <= i < outcomes.len(),
        !(outcomes[i] is Succeeded),
    ensures
        first_failure(s.nodes, s.ready, outcomes) is Some,
        s.after_batch(outcomes).failure == first_failure(s.nodes, s.ready, outcomes),
        s.after_batch(outcomes).ready.len() == 0,
        s.after_batch(outcomes).verdict() is Err,
        s.after_batch(outcomes).results == s.results,
{
    lemma_failure_found(s.nodes, s.ready, outcomes, i);
}

/// An outcome that is no success makes a failure of the batch.
pub proof fn lemma_failure_found(
    nodes: Seq<WorkflowNode>,
    batch: Seq<usize>,
    outcomes: Seq<NodeOutcome>,
    i: int,
)
    requires
        0 <= i < outcomes.len(),
        !(outcomes[i] is Succeeded),
    ensures
        first_failure(nodes, batch, outcomes) is Some,
    decreases outcomes.len(),
{
    if i < outcomes.len() - 1 {
        lemma_failure_found(nodes, batch, outcomes.drop_last(), i);
    }
}

/// Once a run has failed it stays failed: nothing is ready, so a further
/// round is empty and changes nothing.
pub proof fn law_failure_is_final(s: Schedule, outcomes: Seq<NodeOutcome>)
    requires
        s.inv(),
        s.failure is Some,
        outcomes.len() == s.ready.len(),
    ensures
        s.ready.len() == 0,
        s.after_batch(outcomes) == s,
        s.verdict() is Err,
{
    let next = s.after_batch(outcomes);
    assert(s.ready =~= Seq::empty());
    assert(outcomes =~= Seq::empty());
    assert(next.done =~= s.done);
    assert(next.results =~= s.results);
    assert(next.ready =~= s.ready);
}

} // verus!
