//! The model of a run: what the scheduler knows between two rounds, how a
//! round changes it, and what holds of it throughout.

use vstd::prelude::*;
use crate::error::RunErrorView;
use crate::graph::{
    in_degree_within, is_member, lemma_push_contains, lemma_targets_within, pending_in,
    targets_within, Graph,
};
use crate::graph::count_true;
use crate::models::{NodeOutcome, NodeResultView, RunResultView, WorkflowNode};

verus! {

/// How often `v` occurs in a list.
pub open spec fn occurrences(s: Seq<usize>, v: usize) -> nat
    decreases s.len(),
{
    if s.len() == 0 {
        0
    } else {
        occurrences(s.drop_last(), v) + if s.last() == v {
            1nat
        } else {
            0nat
        }
    }
}

/// Takes one in-degree away from each target in turn, never going below
/// zero, and puts a target at the end of the queue when its in-degree
/// becomes zero.
pub open spec fn relax(indegree: Seq<usize>, queue: Seq<usize>, targets: Seq<usize>) -> (
    Seq<usize>,
    Seq<usize>,
)
    decreases targets.len(),
{
    if targets.len() == 0 {
        (indegree, queue)
    } else {
        let (degrees, waiting) = relax(indegree, queue, targets.drop_last());
        let t = targets.last();
        if t < degrees.len() {
            let d: usize = if degrees[t as int] > 0 {
                (degrees[t as int] - 1) as usize
            } else {
                0
            };
            (
                degrees.update(t as int, d),
                if d == 0 {
                    waiting.push(t)
                } else {
                    waiting
                },
            )
        } else {
            (degrees, waiting)
        }
    }
}

/// Relaxes the targets of each node of a batch, node by node in the order
/// of the batch.
pub open spec fn relax_batch(
    outbound: Seq<Seq<usize>>,
    indegree: Seq<usize>,
    queue: Seq<usize>,
    batch: Seq<usize>,
) -> (Seq<usize>, Seq<usize>)
    decreases batch.len(),
{
    if batch.len() == 0 {
        (indegree, queue)
    } else {
        let (degrees, waiting) = relax_batch(outbound, indegree, queue, batch.drop_last());
        let u = batch.last();
        if u < outbound.len() {
            relax(degrees, waiting, outbound[u as int])
        } else {
            (degrees, waiting)
        }
    }
}

impl Graph {
    /// The outbound adjacency of the reachable part.
    pub open spec fn outbound(self) -> Seq<Seq<usize>> {
        Seq::new(self.size, |u: int| targets_within(self.edges, self.reach_mask(), u as usize))
    }

    /// The number of reachable nodes.
    pub open spec fn reach_count(self) -> nat {
        count_true(self.reach_mask())
    }

    /// The in-degrees within the reachable part, before any node has run.
    pub open spec fn in_degrees(self) -> Seq<usize> {
        Seq::new(
            self.size,
            |v: int| in_degree_within(self.edges, self.reach_mask(), v as usize) as usize,
        )
    }
}

/// A list holds a value as often as a part of it at its start, or more often.
pub proof fn lemma_occurrences_prefix(s: Seq<usize>, j: int, v: usize)
    requires
        0 <= j <= s.len(),
    ensures
        occurrences(s.take(j), v) <= occurrences(s, v),
        j < s.len() && s[j] == v ==> occurrences(s.take(j), v) < occurrences(s, v),
    decreases s.len() - j,
{
    if j < s.len() {
        lemma_occurrences_prefix(s, j + 1, v);
        assert(s.take(j + 1).drop_last() =~= s.take(j));
    } else {
        assert(s.take(j) =~= s);
    }
}

/// The edges that enter `v` from sources still to run are those that enter it
/// once `u` has run too, and those that come from `u`.
pub proof fn lemma_pending_split(
    edges: Seq<(usize, usize)>,
    members: Seq<bool>,
    done: Set<usize>,
    u: usize,
    v: usize,
)
    requires
        !done.contains(u),
    ensures
        pending_in(edges, members, done, v) == pending_in(edges, members, done.insert(u), v)
            + occurrences(targets_within(edges, members, u), v),
    decreases edges.len(),
{
    if edges.len() > 0 {
        lemma_pending_split(edges.drop_last(), members, done, u, v);
        let rest = targets_within(edges.drop_last(), members, u);
        let edge = edges.last();
        if edge.0 == u && is_member(members, edge.0) && is_member(members, edge.1) {
            assert(rest.push(edge.1).drop_last() =~= rest);
        }
    }
}

/// Where no edge enters `v` from a source still to run, the source of every
/// edge into `v` has run.
pub proof fn lemma_pending_none(
    edges: Seq<(usize, usize)>,
    members: Seq<bool>,
    done: Set<usize>,
    u: usize,
    v: usize,
)
    requires
        pending_in(edges, members, done, v) == 0,
        edges.contains((u, v)),
        is_member(members, u),
        is_member(members, v),
    ensures
        done.contains(u),
    decreases edges.len(),
{
    let k = choose|k: int| 0 <= k < edges.len() && edges[k] == (u, v);
    if k < edges.len() - 1 {
        assert(edges.drop_last()[k] == (u, v));
        lemma_pending_none(edges.drop_last(), members, done, u, v);
    }
}

/// Where an edge enters `v` from a source still to run, there is such an edge.
pub proof fn lemma_pending_some(
    edges: Seq<(usize, usize)>,
    members: Seq<bool>,
    done: Set<usize>,
    v: usize,
) -> (u: usize)
    requires
        pending_in(edges, members, done, v) > 0,
    ensures
        edges.contains((u, v)),
        is_member(members, u),
        is_member(members, v),
        !done.contains(u),
    decreases edges.len(),
{
    let edge = edges.last();
    if edge.1 == v && is_member(members, edge.0) && is_member(members, edge.1) && !done.contains(
        edge.0,
    ) {
        assert(edges[edges.len() - 1] == (edge.0, v));
        edge.0
    } else {
        let u = lemma_pending_some(edges.drop_last(), members, done, v);
        let k = choose|k: int| 0 <= k < edges.len() - 1 && edges.drop_last()[k] == (u, v);
        assert(edges[k] == (u, v));
        u
    }
}

/// What holds while a batch is being relaxed. `done` lists the nodes whose
/// targets count as relaxed, `used` the targets already relaxed of the node
/// at hand, `all` the nodes that have been handed out, and `queue` the nodes
/// found ready so far.
pub open spec fn relaxing(
    g: Graph,
    done: Seq<usize>,
    used: Seq<usize>,
    all: Seq<usize>,
    degrees: Seq<usize>,
    queue: Seq<usize>,
) -> bool {
    &&& degrees.len() == g.size
    &&& forall|v: usize|
        v < g.size && g.reaches(v) ==> #[trigger] degrees[v as int] + occurrences(used, v)
            == pending_in(g.edges, g.reach_mask(), done.to_set(), v)
    &&& forall|v: usize|
        v < g.size && g.reaches(v) ==> ((#[trigger] degrees[v as int] == 0) <==> (all
            + queue).contains(v))
    &&& (all + queue).no_duplicates()
    &&& forall|i: int| 0 <= i < queue.len() ==> (#[trigger] queue[i]) < g.size && g.reaches(queue[i])
}

/// Relaxing the first `j` targets of a node that was handed out keeps what
/// holds while a batch is being relaxed.
pub proof fn lemma_relax(
    g: Graph,
    done: Seq<usize>,
    all: Seq<usize>,
    degrees: Seq<usize>,
    queue: Seq<usize>,
    u: usize,
    j: int,
)
    requires
        g.well_formed(),
        u < g.size,
        g.reaches(u),
        !done.contains(u),
        relaxing(g, done, Seq::empty(), all, degrees, queue),
        0 <= j <= g.outbound()[u as int].len(),
    ensures
        ({
            let used = g.outbound()[u as int].take(j);
            let (after, waiting) = relax(degrees, queue, used);
            relaxing(g, done, used, all, after, waiting)
        }),
    decreases j,
{
    let targets = g.outbound()[u as int];
    let used = targets.take(j);
    if j == 0 {
        assert(used =~= Seq::empty());
    } else {
        lemma_relax(g, done, all, degrees, queue, u, j - 1);
        let before = targets.take(j - 1);
        assert(used.drop_last() =~= before);
        let (mid, waiting) = relax(degrees, queue, before);
        let (after, longer) = relax(degrees, queue, used);
        let t = targets[j - 1];
        assert(used.last() == t);
        let m = g.reach_mask();
        let d = done.to_set();
        assert(targets.contains(t));
        lemma_targets_within(g.edges, m, u, t);
        assert(t < g.size && g.reaches(t));
        lemma_pending_split(g.edges, m, d, u, t);
        lemma_occurrences_prefix(targets, j - 1, t);
        assert(mid[t as int] + occurrences(before, t) == pending_in(g.edges, m, d, t));
        assert(mid[t as int] >= 1);
        assert(!(all + waiting).contains(t));
        assert(after == mid.update(t as int, (mid[t as int] - 1) as usize));
        assert forall|v: usize| v < g.size && g.reaches(v) implies #[trigger] after[v as int]
            + occurrences(used, v) == pending_in(g.edges, m, d, v) by {
            assert(mid[v as int] + occurrences(before, v) == pending_in(g.edges, m, d, v));
        }
        if after[t as int] == 0 {
            assert(longer == waiting.push(t));
            assert(all + longer =~= (all + waiting).push(t));
            assert forall|v: usize| v < g.size && g.reaches(v) implies ((#[trigger] after[v as int]
                == 0) <==> (all + longer).contains(v)) by {
                lemma_push_contains(all + waiting, t, v);
                assert((mid[v as int] == 0) <==> (all + waiting).contains(v));
            }
            assert((all + longer).no_duplicates()) by {
                let grown = (all + waiting).push(t);
                assert forall|a: int, b: int|
                    0 <= a < grown.len() && 0 <= b < grown.len() && a != b implies grown[a]
                    != grown[b] by {
                    if a < grown.len() - 1 && b < grown.len() - 1 {
                        assert((all + waiting)[a] != (all + waiting)[b]);
                    } else if a < grown.len() - 1 {
                        assert((all + waiting)[a] != t);
                    } else {
                        assert((all + waiting)[b] != t);
                    }
                }
            }
        } else {
            assert(longer == waiting);
            assert forall|v: usize| v < g.size && g.reaches(v) implies ((#[trigger] after[v as int]
                == 0) <==> (all + longer).contains(v)) by {
                assert((mid[v as int] == 0) <==> (all + waiting).contains(v));
            }
        }
    }
}


/// A list with one more element holds, as a set, one more element.
pub proof fn lemma_push_to_set(s: Seq<usize>, x: usize)
    ensures
        s.push(x).to_set() == s.to_set().insert(x),
{
    assert forall|v: usize| s.push(x).to_set().contains(v) <==> s.to_set().insert(x).contains(
        v,
    ) by {
        lemma_push_contains(s, x, v);
    }
    assert(s.push(x).to_set() =~= s.to_set().insert(x));
}

/// Relaxing the first `i` nodes of a batch keeps what holds while a batch is
/// being relaxed, with those nodes counted as done.
pub proof fn lemma_relax_batch(
    g: Graph,
    done: Seq<usize>,
    batch: Seq<usize>,
    degrees: Seq<usize>,
    i: int,
)
    requires
        g.well_formed(),
        relaxing(g, done, Seq::empty(), done + batch, degrees, Seq::empty()),
        forall|k: int| 0 <= k < batch.len() ==> (#[trigger] batch[k]) < g.size && g.reaches(batch[k]),
        0 <= i <= batch.len(),
    ensures
        ({
            let (after, queue) = relax_batch(g.outbound(), degrees, Seq::empty(), batch.take(i));
            relaxing(g, done + batch.take(i), Seq::empty(), done + batch, after, queue)
        }),
    decreases i,
{
    let all = done + batch;
    if i == 0 {
        assert(batch.take(0) =~= Seq::empty());
        assert(done + batch.take(0) =~= done);
    } else {
        lemma_relax_batch(g, done, batch, degrees, i - 1);
        assert(batch.take(i).drop_last() =~= batch.take(i - 1));
        let (mid, waiting) = relax_batch(g.outbound(), degrees, Seq::empty(), batch.take(i - 1));
        let u = batch[i - 1];
        assert(batch.take(i).last() == u);
        let targets = g.outbound()[u as int];
        let (after, queue) = relax(mid, waiting, targets);
        assert(relax_batch(g.outbound(), degrees, Seq::empty(), batch.take(i)) == (after, queue));
        let before = done + batch.take(i - 1);
        assert(!before.contains(u)) by {
            if before.contains(u) {
                let p = choose|p: int| 0 <= p < before.len() && before[p] == u;
                assert((all + waiting)[p] == u);
                assert((all + waiting)[done.len() + i - 1] == u);
            }
        }
        lemma_relax(g, before, all, mid, waiting, u, targets.len() as int);
        assert(targets.take(targets.len() as int) =~= targets);
        let now = done + batch.take(i);
        assert(now =~= before.push(u));
        lemma_push_to_set(before, u);
        assert forall|v: usize| v < g.size && g.reaches(v) implies #[trigger] after[v as int]
            + occurrences(Seq::empty(), v) == pending_in(
            g.edges,
            g.reach_mask(),
            now.to_set(),
            v,
        ) by {
            lemma_pending_split(g.edges, g.reach_mask(), before.to_set(), u, v);
            assert(after[v as int] + occurrences(targets, v) == pending_in(
                g.edges,
                g.reach_mask(),
                before.to_set(),
                v,
            ));
        }
    }
}

/// The message of a node that reported a failure.
pub open spec fn failure_message(id: Seq<char>, reason: Seq<char>) -> Seq<char> {
    "Node "@ + id + " failed: "@ + reason
}

/// The result that a node's outcome makes, where the node could be joined.
pub open spec fn result_view(node: WorkflowNode, outcome: NodeOutcome) -> NodeResultView {
    NodeResultView {
        node_id: node.id@,
        node_type: node.node_type,
        success: outcome is Succeeded,
        message: match outcome {
            NodeOutcome::Succeeded(message) => message@,
            NodeOutcome::Failed(reason) => failure_message(node.id@, reason@),
            NodeOutcome::Lost(reason) => reason@,
        },
    }
}

/// The error that a node's outcome ends the run with, if any.
pub open spec fn outcome_error(node: WorkflowNode, outcome: NodeOutcome) -> Option<RunErrorView> {
    match outcome {
        NodeOutcome::Succeeded(_) => None,
        NodeOutcome::Failed(_) => Some(RunErrorView::NodeFailed(result_view(node, outcome).message)),
        NodeOutcome::Lost(reason) => Some(RunErrorView::WorkerLost(reason@)),
    }
}

/// The error of the first node of the batch, in the order of the batch, whose
/// outcome is not a success.
pub open spec fn first_failure(
    nodes: Seq<WorkflowNode>,
    batch: Seq<usize>,
    outcomes: Seq<NodeOutcome>,
) -> Option<RunErrorView>
    decreases outcomes.len(),
{
    if outcomes.len() == 0 {
        None
    } else {
        match first_failure(nodes, batch, outcomes.drop_last()) {
            Some(e) => Some(e),
            None => outcome_error(
                nodes[batch[outcomes.len() - 1] as int],
                outcomes.last(),
            ),
        }
    }
}

/// The results of a batch, one for each node in the order of the batch.
pub open spec fn batch_results(
    nodes: Seq<WorkflowNode>,
    batch: Seq<usize>,
    outcomes: Seq<NodeOutcome>,
) -> Seq<NodeResultView> {
    Seq::new(batch.len(), |i: int| result_view(nodes[batch[i] as int], outcomes[i]))
}

/// The reachable nodes below `k` that no edge of the reachable part enters,
/// in rising order.
pub open spec fn seeds_below(g: Graph, k: nat) -> Seq<usize>
    decreases k,
{
    if k == 0 {
        Seq::empty()
    } else {
        let rest = seeds_below(g, (k - 1) as nat);
        let v = (k - 1) as usize;
        if g.reaches(v) && g.in_degrees()[v as int] == 0 {
            rest.push(v)
        } else {
            rest
        }
    }
}

/// Whether every reachable source of an edge into the node at place `i` of
/// the list stands before that place.
pub open spec fn sources_before(g: Graph, done: Seq<usize>, i: int) -> bool {
    forall|u: usize|
        g.reaches(u) && #[trigger] g.has_edge(u, done[i]) ==> done.take(i).contains(u)
}

/// What the scheduler knows between two rounds.
pub struct Schedule {
    pub workflow_id: Seq<char>,
    pub nodes: Seq<WorkflowNode>,
    pub graph: Graph,
    /// For each reachable node the number of edges that enter it from
    /// reachable nodes that have not completed.
    pub indegree: Seq<usize>,
    /// The nodes to dispatch in the next round, in dispatch order.
    pub ready: Seq<usize>,
    /// The nodes that have completed, in the order of their results.
    pub done: Seq<usize>,
    pub results: Seq<NodeResultView>,
    /// The failure that ended the run, if one did.
    pub failure: Option<RunErrorView>,
}

impl Schedule {
    /// The state before the first round.
    pub open spec fn initial(workflow_id: Seq<char>, nodes: Seq<WorkflowNode>, graph: Graph) -> Schedule {
        Schedule {
            workflow_id,
            nodes,
            graph,
            indegree: graph.in_degrees(),
            ready: seeds_below(graph, graph.size),
            done: Seq::empty(),
            results: Seq::empty(),
            failure: None,
        }
    }

    /// The state after a round in which the nodes of `ready` were dispatched
    /// and ended with the given outcomes, one for each node in dispatch
    /// order. After a failure nothing is ready any more; otherwise the batch
    /// has completed and its targets are relaxed.
    pub open spec fn after_batch(self, outcomes: Seq<NodeOutcome>) -> Schedule {
        match first_failure(self.nodes, self.ready, outcomes) {
            Some(e) => Schedule { ready: Seq::empty(), failure: Some(e), ..self },
            None => {
                let (indegree, ready) = relax_batch(
                    self.graph.outbound(),
                    self.indegree,
                    Seq::empty(),
                    self.ready,
                );
                Schedule {
                    indegree,
                    ready,
                    done: self.done + self.ready,
                    results: self.results + batch_results(self.nodes, self.ready, outcomes),
                    ..self
                }
            },
        }
    }

    /// How the run ends once nothing is ready any more: with the failure
    /// that ended it; or with the report, where every reachable node has
    /// completed; or else with the cycle error.
    pub open spec fn verdict(self) -> Result<RunResultView, RunErrorView> {
        match self.failure {
            Some(e) => Err(e),
            None => if self.done.len() == self.graph.reach_count() {
                Ok(
                    RunResultView {
                        workflow_id: self.workflow_id,
                        completed_nodes: self.done.len(),
                        results: self.results,
                    },
                )
            } else {
                Err(RunErrorView::Cycle)
            },
        }
    }

    /// What holds of the state between any two rounds of a run.
    pub open spec fn inv(self) -> bool {
        let g = self.graph;
        &&& g.well_formed()
        &&& self.nodes.len() == g.size
        &&& self.indegree.len() == g.size
        &&& forall|i: int|
            0 <= i < self.ready.len() ==> (#[trigger] self.ready[i]) < g.size && g.reaches(
                self.ready[i],
            )
        &&& forall|i: int|
            0 <= i < self.done.len() ==> (#[trigger] self.done[i]) < g.size && g.reaches(
                self.done[i],
            )
        &&& (self.done + self.ready).no_duplicates()
        &&& forall|v: usize|
            v < g.size && g.reaches(v) ==> #[trigger] self.indegree[v as int] == pending_in(
                g.edges,
                g.reach_mask(),
                self.done.to_set(),
                v,
            )
        &&& self.failure is None ==> forall|v: usize|
            v < g.size && g.reaches(v) ==> ((#[trigger] self.indegree[v as int] == 0) <==> (
            self.done + self.ready).contains(v))
        &&& forall|i: int| 0 <= i < self.done.len() ==> #[trigger] sources_before(g, self.done, i)
        &&& self.failure is Some ==> self.ready.len() == 0
        &&& self.results.len() == self.done.len()
        &&& forall|i: int|
            0 <= i < self.results.len() ==> {
                &&& (#[trigger] self.results[i]).node_id == self.nodes[self.done[i] as int].id@
                &&& self.results[i].node_type == self.nodes[self.done[i] as int].node_type
                &&& self.results[i].success
            }
    }
}

/// What the seeds below `k` are.
pub proof fn lemma_seeds_below(g: Graph, k: nat)
    requires
        k <= g.size <= usize::MAX,
    ensures
        forall|i: int|
            0 <= i < seeds_below(g, k).len() ==> {
                &&& (#[trigger] seeds_below(g, k)[i]) < k
                &&& g.reaches(seeds_below(g, k)[i])
                &&& g.in_degrees()[seeds_below(g, k)[i] as int] == 0
            },
        forall|v: usize|
            seeds_below(g, k).contains(v) <==> (v < k && g.reaches(v) && g.in_degrees()[v as int]
                == 0),
        seeds_below(g, k).no_duplicates(),
    decreases k,
{
    if k == 0 {
        assert(seeds_below(g, k) =~= Seq::empty());
    } else {
        lemma_seeds_below(g, (k - 1) as nat);
        let rest = seeds_below(g, (k - 1) as nat);
        let v = (k - 1) as usize;
        if g.reaches(v) && g.in_degrees()[v as int] == 0 {
            assert forall|w: usize| rest.push(v).contains(w) <==> (w < k && g.reaches(w)
                && g.in_degrees()[w as int] == 0) by {
                lemma_push_contains(rest, v, w);
            }
        }
    }
}

/// The state before the first round is a state of a run.
pub proof fn lemma_initial_inv(workflow_id: Seq<char>, nodes: Seq<WorkflowNode>, graph: Graph)
    requires
        graph.well_formed(),
        nodes.len() == graph.size,
    ensures
        Schedule::initial(workflow_id, nodes, graph).inv(),
{
    let s = Schedule::initial(workflow_id, nodes, graph);
    lemma_seeds_below(graph, graph.size);
    assert(s.done + s.ready =~= s.ready);
    assert(s.done.to_set() =~= Set::empty());
    assert forall|v: usize| v < graph.size && graph.reaches(v) implies #[trigger] s.indegree[v as int]
        == pending_in(graph.edges, graph.reach_mask(), s.done.to_set(), v) by {
        crate::graph::lemma_pending_in_bound(graph.edges, graph.reach_mask(), Set::empty(), v);
    }
}

/// A round takes a state of a run to a state of a run.
pub proof fn lemma_after_batch_inv(s: Schedule, outcomes: Seq<NodeOutcome>)
    requires
        s.inv(),
        outcomes.len() == s.ready.len(),
    ensures
        s.after_batch(outcomes).inv(),
{
    let g = s.graph;
    let next = s.after_batch(outcomes);
    if first_failure(s.nodes, s.ready, outcomes) is Some {
        assert(next.done + next.ready =~= s.done);
        assert(s.done =~= (s.done + s.ready).take(s.done.len() as int));
        assert forall|a: int, b: int|
            0 <= a < s.done.len() && 0 <= b < s.done.len() && a != b implies s.done[a]
            != s.done[b] by {
            assert((s.done + s.ready)[a] != (s.done + s.ready)[b]);
        }
    } else if s.failure is Some {
        assert(s.ready =~= Seq::empty());
        assert(next.done =~= s.done);
        assert(next.results =~= s.results);
    } else {
        let all = s.done + s.ready;
        assert(all + Seq::<usize>::empty() =~= all);
        assert(relaxing(g, s.done, Seq::empty(), all, s.indegree, Seq::empty()));
        lemma_relax_batch(g, s.done, s.ready, s.indegree, s.ready.len() as int);
        assert(s.ready.take(s.ready.len() as int) =~= s.ready);
        assert(next.done == all);
        assert forall|i: int| 0 <= i < next.done.len() implies #[trigger] sources_before(
            g,
            next.done,
            i,
        ) by {
            if i < s.done.len() {
                assert(sources_before(g, s.done, i));
                assert(next.done.take(i) =~= s.done.take(i));
            } else {
                let v = next.done[i];
                assert(v == s.ready[i - s.done.len()]);
                assert(all[i] == v);
                assert(all.contains(v));
                assert(s.indegree[v as int] == 0);
                assert forall|u: usize| g.reaches(u) && #[trigger] g.has_edge(u, v) implies next.done.take(
                    i,
                ).contains(u) by {
                    let k = choose|k: int| 0 <= k < g.edges.len() && g.edges[k] == (u, v);
                    assert(g.edges[k].0 < g.size);
                    lemma_pending_none(g.edges, g.reach_mask(), s.done.to_set(), u, v);
                    let p = choose|p: int| 0 <= p < s.done.len() && s.done[p] == u;
                    assert(next.done.take(i)[p] == u);
                }
            }
        }
        assert forall|i: int| 0 <= i < next.done.len() implies (#[trigger] next.done[i]) < g.size
            && g.reaches(next.done[i]) by {
            if i >= s.done.len() {
                assert(next.done[i] == s.ready[i - s.done.len()]);
            }
        }
        assert forall|i: int| 0 <= i < next.results.len() implies {
            &&& (#[trigger] next.results[i]).node_id == next.nodes[next.done[i] as int].id@
            &&& next.results[i].node_type == next.nodes[next.done[i] as int].node_type
            &&& next.results[i].success
        } by {
            if i >= s.done.len() {
                let j = i - s.done.len();
                assert(next.done[i] == s.ready[j]);
                lemma_no_failure(s.nodes, s.ready, outcomes, j);
            }
        }
    }
}

/// Where no outcome of a batch is a failure, each is a success.
pub proof fn lemma_no_failure(
    nodes: Seq<WorkflowNode>,
    batch: Seq<usize>,
    outcomes: Seq<NodeOutcome>,
    j: int,
)
    requires
        first_failure(nodes, batch, outcomes) is None,
        0 <= j < outcomes.len(),
    ensures
        outcomes[j] is Succeeded,
    decreases outcomes.len(),
{
    if j < outcomes.len() - 1 {
        lemma_no_failure(nodes, batch, outcomes.drop_last(), j);
    }
}

} // verus!
