//! A run depends on the reachable part of the graph alone: the nodes that
//! the start node does not reach, and the edges that touch them, change
//! nothing in it and may be taken out.

use vstd::prelude::*;
use crate::executor::{after_rounds, is_round, is_run, outcomes_of};
use crate::graph::{
    count_true, is_member, lemma_count_true_bound, lemma_reach_start, pending_in, targets_within,
    Graph,
};
use crate::graph::{
    graph_of, lemma_edge_error_none, lemma_graph_of_well_formed, lemma_next_start, lemma_resolve,
    lemma_targets_within, next_start, resolve, resolved_edges, structural_error,
};
use crate::laws::{
    law_first_round_is_the_start_node, lemma_edges_sound, lemma_reach_in_range,
    lemma_walk_reaches,
};
use crate::models::{NodeOutcome, NodePlan, NodeType, WorkflowEdge, WorkflowNode};
use crate::schedule::{
    batch_results, first_failure, lemma_after_batch_inv, lemma_initial_inv, lemma_seeds_below,
    relax, relax_batch, seeds_below, Schedule,
};

verus! {

/// The edges whose two ends are both members, in the order given.
pub open spec fn edges_within(edges: Seq<(usize, usize)>, members: Seq<bool>) -> Seq<
    (usize, usize),
>
    decreases edges.len(),
{
    if edges.len() == 0 {
        Seq::empty()
    } else {
        let rest = edges_within(edges.drop_last(), members);
        let edge = edges.last();
        if is_member(members, edge.0) && is_member(members, edge.1) {
            rest.push(edge)
        } else {
            rest
        }
    }
}

impl Graph {
    /// The graph without the edges that touch a node outside its reachable
    /// part. The nodes outside the reachable part then lie alone.
    pub open spec fn pruned(self) -> Graph {
        Graph { edges: edges_within(self.edges, self.reach_mask()), ..self }
    }
}

/// The edges within the members are the edges given whose ends are members.
pub proof fn lemma_edges_within(edges: Seq<(usize, usize)>, members: Seq<bool>, e: (usize, usize))
    ensures
        edges_within(edges, members).len() <= edges.len(),
        edges_within(edges, members).contains(e) <==> (edges.contains(e) && is_member(members, e.0)
            && is_member(members, e.1)),
    decreases edges.len(),
{
    if edges.len() > 0 {
        let front = edges.drop_last();
        let rest = edges_within(front, members);
        let last = edges.last();
        lemma_edges_within(front, members, e);
        if edges.contains(e) {
            let k = choose|k: int| 0 <= k < edges.len() && edges[k] == e;
            if k < edges.len() - 1 {
                assert(front[k] == e);
            }
        }
        if front.contains(e) {
            let k = choose|k: int| 0 <= k < front.len() && front[k] == e;
            assert(edges[k] == e);
        }
        if last == e {
            assert(edges[edges.len() - 1] == e);
        }
        if is_member(members, last.0) && is_member(members, last.1) {
            let all = rest.push(last);
            if all.contains(e) {
                let j = choose|j: int| 0 <= j < all.len() && all[j] == e;
                if j < rest.len() {
                    assert(rest[j] == e);
                }
            }
            if rest.contains(e) {
                let j = choose|j: int| 0 <= j < rest.len() && rest[j] == e;
                assert(all[j] == e);
            }
            if last == e {
                assert(all[rest.len() as int] == e);
            }
        }
    }
}

/// Among the edges within the members, the targets of a node are what they
/// are among all edges.
pub proof fn lemma_targets_of_edges_within(
    edges: Seq<(usize, usize)>,
    members: Seq<bool>,
    u: usize,
)
    ensures
        targets_within(edges_within(edges, members), members, u) == targets_within(
            edges,
            members,
            u,
        ),
    decreases edges.len(),
{
    if edges.len() > 0 {
        lemma_targets_of_edges_within(edges.drop_last(), members, u);
        let rest = edges_within(edges.drop_last(), members);
        let last = edges.last();
        if is_member(members, last.0) && is_member(members, last.1) {
            assert(rest.push(last).drop_last() =~= rest);
        }
    }
}

/// Among the edges within the members, as many edges enter a node from
/// sources still to run as among all edges.
pub proof fn lemma_pending_in_edges_within(
    edges: Seq<(usize, usize)>,
    members: Seq<bool>,
    done: Set<usize>,
    v: usize,
)
    ensures
        pending_in(edges_within(edges, members), members, done, v) == pending_in(
            edges,
            members,
            done,
            v,
        ),
    decreases edges.len(),
{
    if edges.len() > 0 {
        lemma_pending_in_edges_within(edges.drop_last(), members, done, v);
        let rest = edges_within(edges.drop_last(), members);
        let last = edges.last();
        if is_member(members, last.0) && is_member(members, last.1) {
            assert(rest.push(last).drop_last() =~= rest);
        }
    }
}

/// Every node along a walk of the graph from its start node is joined to
/// the next by an edge of the pruned graph.
proof fn lemma_walk_stays(g: Graph, walk: Seq<usize>)
    requires
        g.well_formed(),
        g.is_walk(walk),
        walk[0] == g.start,
    ensures
        g.pruned().is_walk(walk),
{
    lemma_reach_start(g);
    assert forall|i: int| 0 <= i < walk.len() - 1 implies g.pruned().has_edge(
        #[trigger] walk[i],
        walk[i + 1],
    ) by {
        assert(g.has_edge(walk[i], walk[i + 1]));
        lemma_walk_reaches(g, walk, i);
        lemma_walk_reaches(g, walk, i + 1);
        lemma_reach_in_range(g, walk[i]);
        lemma_reach_in_range(g, walk[i + 1]);
        lemma_edges_within(g.edges, g.reach_mask(), (walk[i], walk[i + 1]));
    }
}

/// The pruned graph is well formed, and its start node reaches what the
/// start node of the graph reaches.
pub proof fn lemma_pruned_reach(g: Graph)
    requires
        g.well_formed(),
    ensures
        g.pruned().well_formed(),
        forall|v: usize| g.pruned().reaches(v) == g.reaches(v),
        g.pruned().reach_mask() == g.reach_mask(),
{
    let p = g.pruned();
    assert forall|k: int| 0 <= k < p.edges.len() implies (#[trigger] p.edges[k]).0 < p.size
        && p.edges[k].1 < p.size by {
        assert(p.edges.contains(p.edges[k]));
        lemma_edges_within(g.edges, g.reach_mask(), p.edges[k]);
    }
    lemma_edges_within(g.edges, g.reach_mask(), (0, 0));
    assert forall|v: usize| p.reaches(v) == g.reaches(v) by {
        if g.reaches(v) {
            let walk = choose|walk: Seq<usize>|
                #[trigger] g.is_walk(walk) && walk[0] == g.start && walk.last() == v;
            lemma_walk_stays(g, walk);
            assert(p.is_walk(walk) && walk[0] == p.start && walk.last() == v);
        }
        if p.reaches(v) {
            let walk = choose|walk: Seq<usize>|
                #[trigger] p.is_walk(walk) && walk[0] == p.start && walk.last() == v;
            assert forall|i: int| 0 <= i < walk.len() - 1 implies g.has_edge(
                #[trigger] walk[i],
                walk[i + 1],
            ) by {
                assert(p.has_edge(walk[i], walk[i + 1]));
                lemma_edges_within(g.edges, g.reach_mask(), (walk[i], walk[i + 1]));
            }
            assert(g.is_walk(walk) && walk[0] == g.start && walk.last() == v);
        }
    }
    assert(p.reach_mask() =~= g.reach_mask());
}

/// The pruned graph has the outbound lists, the in-degrees and the first
/// round of the graph.
pub proof fn lemma_pruned_tables(g: Graph)
    requires
        g.well_formed(),
    ensures
        g.pruned().outbound() == g.outbound(),
        g.pruned().in_degrees() == g.in_degrees(),
        g.pruned().reach_count() == g.reach_count(),
        forall|k: nat| seeds_below(g.pruned(), k) == seeds_below(g, k),
{
    let p = g.pruned();
    lemma_pruned_reach(g);
    assert forall|u: int| 0 <= u < g.size implies p.outbound()[u] == g.outbound()[u] by {
        lemma_targets_of_edges_within(g.edges, g.reach_mask(), u as usize);
    }
    assert(p.outbound() =~= g.outbound());
    assert forall|v: int| 0 <= v < g.size implies p.in_degrees()[v] == g.in_degrees()[v] by {
        lemma_pending_in_edges_within(g.edges, g.reach_mask(), Set::empty(), v as usize);
    }
    assert(p.in_degrees() =~= g.in_degrees());
    assert forall|k: nat| seeds_below(p, k) == seeds_below(g, k) by {
        lemma_pruned_seeds(g, k);
    }
}

/// The pruned graph has the first round of the graph.
proof fn lemma_pruned_seeds(g: Graph, k: nat)
    requires
        g.well_formed(),
        g.pruned().in_degrees() == g.in_degrees(),
        forall|v: usize| g.pruned().reaches(v) == g.reaches(v),
    ensures
        seeds_below(g.pruned(), k) == seeds_below(g, k),
    decreases k,
{
    if k > 0 {
        lemma_pruned_seeds(g, (k - 1) as nat);
    }
}

/// The state with the pruned graph in place of the graph.
pub open spec fn with_pruned_graph(s: Schedule) -> Schedule {
    Schedule { graph: s.graph.pruned(), ..s }
}

/// The edges that touch a node which the start node does not reach change
/// nothing in a run: with those edges taken out, the run goes through the
/// same states, round by round, hands out the same nodes, and ends with
/// the same verdict, whatever the nodes outside the reachable part are and
/// whatever edges lie among them or lead from them into the reachable part.
pub proof fn law_unreachable_edges_change_nothing(
    workflow_id: Seq<char>,
    nodes: Seq<WorkflowNode>,
    g: Graph,
    rounds: Seq<Seq<NodeOutcome>>,
)
    requires
        g.well_formed(),
    ensures
        after_rounds(Schedule::initial(workflow_id, nodes, g.pruned()), rounds)
            == with_pruned_graph(after_rounds(Schedule::initial(workflow_id, nodes, g), rounds)),
        after_rounds(Schedule::initial(workflow_id, nodes, g.pruned()), rounds).verdict()
            == after_rounds(Schedule::initial(workflow_id, nodes, g), rounds).verdict(),
    decreases rounds.len(),
{
    lemma_pruned_tables(g);
    let first = Schedule::initial(workflow_id, nodes, g);
    let other = Schedule::initial(workflow_id, nodes, g.pruned());
    if rounds.len() == 0 {
        assert(other == with_pruned_graph(first));
    } else {
        law_unreachable_edges_change_nothing(workflow_id, nodes, g, rounds.drop_last());
        let s = after_rounds(first, rounds.drop_last());
        lemma_graph_stays(first, rounds.drop_last());
        assert(with_pruned_graph(s).after_batch(rounds.last()) == with_pruned_graph(
            s.after_batch(rounds.last()),
        ));
    }
    lemma_graph_stays(first, rounds);
}

/// The rounds of a run leave its graph as it is.
pub proof fn lemma_graph_stays(first: Schedule, rounds: Seq<Seq<NodeOutcome>>)
    ensures
        after_rounds(first, rounds).graph == first.graph,
        after_rounds(first, rounds).nodes == first.nodes,
        after_rounds(first, rounds).workflow_id == first.workflow_id,
    decreases rounds.len(),
{
    if rounds.len() > 0 {
        lemma_graph_stays(first, rounds.drop_last());
    }
}


/// The number that a member has once the nodes that are no members are
/// gone: the number of members before it.
pub open spec fn rank(members: Seq<bool>, v: usize) -> usize {
    count_true(members.take(v as int)) as usize
}

/// The members, in rising order.
pub open spec fn kept(members: Seq<bool>) -> Seq<usize>
    decreases members.len(),
{
    if members.len() == 0 {
        Seq::empty()
    } else {
        let rest = kept(members.drop_last());
        if members.last() {
            rest.push((members.len() - 1) as usize)
        } else {
            rest
        }
    }
}

/// The members in rising order are as many as the members, and the rank of
/// a member is its place among them.
pub proof fn lemma_kept(members: Seq<bool>)
    requires
        members.len() <= usize::MAX,
    ensures
        kept(members).len() == count_true(members),
        forall|w: int|
            0 <= w < kept(members).len() ==> {
                &&& is_member(members, #[trigger] kept(members)[w])
                &&& rank(members, kept(members)[w]) == w
            },
        forall|v: usize|
            is_member(members, v) ==> rank(members, v) < kept(members).len() && kept(
                members,
            )[#[trigger] rank(members, v) as int] == v,
    decreases members.len(),
{
    lemma_count_true_bound(members);
    if members.len() > 0 {
        let front = members.drop_last();
        let last = (members.len() - 1) as usize;
        lemma_kept(front);
        lemma_count_true_bound(front);
        assert(members.take(last as int) =~= front);
        assert forall|v: usize| v < last implies members.take(v as int) == #[trigger] front.take(
            v as int,
        ) by {
            assert(members.take(v as int) =~= front.take(v as int));
        }
        assert forall|w: int| 0 <= w < kept(members).len() implies {
            &&& is_member(members, #[trigger] kept(members)[w])
            &&& rank(members, kept(members)[w]) == w
        } by {
            if w < kept(front).len() {
                let v = kept(front)[w];
                assert(is_member(front, v));
                assert(members.take(v as int) == front.take(v as int));
            }
        }
        assert forall|v: usize| is_member(members, v) implies rank(members, v) < kept(
            members,
        ).len() && kept(members)[#[trigger] rank(members, v) as int] == v by {
            if v < last {
                assert(is_member(front, v));
                assert(members.take(v as int) == front.take(v as int));
                assert(kept(front)[rank(front, v) as int] == v);
            }
        }
    }
}

/// Two members with the same rank are the same.
pub proof fn lemma_rank_one_to_one(members: Seq<bool>, a: usize, b: usize)
    requires
        members.len() <= usize::MAX,
        is_member(members, a),
        is_member(members, b),
        rank(members, a) == rank(members, b),
    ensures
        a == b,
{
    lemma_kept(members);
    assert(kept(members)[rank(members, a) as int] == a);
    assert(kept(members)[rank(members, b) as int] == b);
}


/// The ranks of a list of nodes, one for one.
pub open spec fn ranks(members: Seq<bool>, list: Seq<usize>) -> Seq<usize> {
    Seq::new(list.len(), |i: int| rank(members, list[i]))
}

/// The edges between the ranks of their ends.
pub open spec fn renumbered(edges: Seq<(usize, usize)>, members: Seq<bool>) -> Seq<(usize, usize)> {
    Seq::new(edges.len(), |k: int| (rank(members, edges[k].0), rank(members, edges[k].1)))
}

/// Flags that are all set.
pub open spec fn everyone(n: nat) -> Seq<bool> {
    Seq::new(n, |v: int| true)
}

/// The nodes that are members, in the order given.
pub open spec fn kept_nodes(nodes: Seq<WorkflowNode>, members: Seq<bool>) -> Seq<WorkflowNode> {
    Seq::new(kept(members).len(), |w: int| nodes[kept(members)[w] as int])
}

impl Graph {
    /// The reachable part alone: the graph without the nodes that the start
    /// node does not reach and without the edges that touch them, its nodes
    /// numbered anew in their old order.
    pub open spec fn compact(self) -> Graph {
        Graph {
            size: count_true(self.reach_mask()),
            edges: renumbered(self.pruned().edges, self.reach_mask()),
            start: rank(self.reach_mask(), self.start),
        }
    }
}

/// Whether both ends of every edge are members.
pub open spec fn all_within(edges: Seq<(usize, usize)>, members: Seq<bool>) -> bool {
    forall|k: int|
        0 <= k < edges.len() ==> is_member(members, (#[trigger] edges[k]).0) && is_member(
            members,
            edges[k].1,
        )
}

/// Among renumbered edges, the targets of a member's rank are the ranks of
/// the member's targets.
pub proof fn lemma_renumbered_targets(edges: Seq<(usize, usize)>, members: Seq<bool>, u: usize)
    requires
        members.len() <= usize::MAX,
        all_within(edges, members),
        is_member(members, u),
    ensures
        targets_within(
            renumbered(edges, members),
            everyone(count_true(members)),
            rank(members, u),
        ) == ranks(members, targets_within(edges, members, u)),
    decreases edges.len(),
{
    let all = everyone(count_true(members));
    if edges.len() == 0 {
        assert(ranks(members, Seq::empty()) =~= Seq::empty());
    } else {
        let front = edges.drop_last();
        assert(all_within(front, members)) by {
            assert forall|k: int| 0 <= k < front.len() implies is_member(
                members,
                (#[trigger] front[k]).0,
            ) && is_member(members, front[k].1) by {
                assert(front[k] == edges[k]);
            }
        }
        lemma_renumbered_targets(front, members, u);
        assert(renumbered(edges, members).drop_last() =~= renumbered(front, members));
        let edge = edges.last();
        assert(edge == edges[edges.len() - 1]);
        lemma_kept(members);
        assert(is_member(all, rank(members, edge.0)) && is_member(all, rank(members, edge.1)));
        if rank(members, edge.0) == rank(members, u) {
            lemma_rank_one_to_one(members, edge.0, u);
        }
        let rest = targets_within(front, members, u);
        if edge.0 == u {
            assert(ranks(members, rest.push(edge.1)) =~= ranks(members, rest).push(
                rank(members, edge.1),
            ));
        }
    }
}

/// Among renumbered edges, as many edges enter a member's rank as enter the
/// member.
pub proof fn lemma_renumbered_in_degree(edges: Seq<(usize, usize)>, members: Seq<bool>, v: usize)
    requires
        members.len() <= usize::MAX,
        all_within(edges, members),
        is_member(members, v),
    ensures
        pending_in(
            renumbered(edges, members),
            everyone(count_true(members)),
            Set::empty(),
            rank(members, v),
        ) == pending_in(edges, members, Set::empty(), v),
    decreases edges.len(),
{
    let all = everyone(count_true(members));
    if edges.len() > 0 {
        let front = edges.drop_last();
        assert(all_within(front, members)) by {
            assert forall|k: int| 0 <= k < front.len() implies is_member(
                members,
                (#[trigger] front[k]).0,
            ) && is_member(members, front[k].1) by {
                assert(front[k] == edges[k]);
            }
        }
        lemma_renumbered_in_degree(front, members, v);
        assert(renumbered(edges, members).drop_last() =~= renumbered(front, members));
        let edge = edges.last();
        assert(edge == edges[edges.len() - 1]);
        lemma_kept(members);
        assert(is_member(all, rank(members, edge.0)) && is_member(all, rank(members, edge.1)));
        if rank(members, edge.1) == rank(members, v) {
            lemma_rank_one_to_one(members, edge.1, v);
        }
    }
}

/// The edges of the pruned graph lie within the reachable part.
pub proof fn lemma_pruned_within(g: Graph)
    ensures
        all_within(g.pruned().edges, g.reach_mask()),
{
    let p = g.pruned();
    assert forall|k: int| 0 <= k < p.edges.len() implies is_member(
        g.reach_mask(),
        (#[trigger] p.edges[k]).0,
    ) && is_member(g.reach_mask(), p.edges[k].1) by {
        assert(p.edges.contains(p.edges[k]));
        lemma_edges_within(g.edges, g.reach_mask(), p.edges[k]);
    }
}

/// The reachable part alone is a well-formed graph in which the start node
/// reaches every node.
pub proof fn lemma_compact_reach(g: Graph)
    requires
        g.well_formed(),
    ensures
        g.compact().well_formed(),
        g.compact().reach_mask() == everyone(g.compact().size),
        g.compact().reach_count() == g.reach_count(),
{
    let c = g.compact();
    let m = g.reach_mask();
    let p = g.pruned();
    lemma_kept(m);
    lemma_count_true_bound(m);
    lemma_reach_start(g);
    lemma_pruned_within(g);
    lemma_edges_within(g.edges, m, (0, 0));
    assert(is_member(m, g.start));
    assert forall|k: int| 0 <= k < c.edges.len() implies (#[trigger] c.edges[k]).0 < c.size
        && c.edges[k].1 < c.size by {
        assert(is_member(m, p.edges[k].0) && is_member(m, p.edges[k].1));
    }
    assert forall|w: usize| w < c.size implies #[trigger] c.reaches(w) by {
        let v = kept(m)[w as int];
        assert(is_member(m, v));
        assert(g.reaches(v));
        let walk = choose|walk: Seq<usize>|
            #[trigger] g.is_walk(walk) && walk[0] == g.start && walk.last() == v;
        lemma_walk_stays(g, walk);
        let moved = ranks(m, walk);
        assert forall|i: int| 0 <= i < moved.len() - 1 implies c.has_edge(
            #[trigger] moved[i],
            moved[i + 1],
        ) by {
            assert(p.has_edge(walk[i], walk[i + 1]));
            let k = choose|k: int| 0 <= k < p.edges.len() && p.edges[k] == (walk[i], walk[i + 1]);
            assert(c.edges[k] == (moved[i], moved[i + 1]));
        }
        assert(c.is_walk(moved) && moved[0] == c.start && moved.last() == w);
    }
    assert(c.reach_mask() =~= everyone(c.size));
    lemma_everyone_count(c.size);
}

/// Flags that are all set count as many as they are.
pub proof fn lemma_everyone_count(n: nat)
    ensures
        count_true(everyone(n)) == n,
    decreases n,
{
    if n > 0 {
        lemma_everyone_count((n - 1) as nat);
        assert(everyone(n).drop_last() =~= everyone((n - 1) as nat));
    }
}

/// The reachable part alone has, for the rank of each reachable node, the
/// ranks of that node's targets and that node's in-degree.
pub proof fn lemma_compact_tables(g: Graph, v: usize)
    requires
        g.well_formed(),
        v < g.size,
        g.reaches(v),
    ensures
        rank(g.reach_mask(), v) < g.compact().size,
        g.compact().outbound()[rank(g.reach_mask(), v) as int] == ranks(
            g.reach_mask(),
            g.outbound()[v as int],
        ),
        g.compact().in_degrees()[rank(g.reach_mask(), v) as int] == g.in_degrees()[v as int],
{
    let m = g.reach_mask();
    lemma_compact_reach(g);
    lemma_kept(m);
    lemma_pruned_within(g);
    assert(is_member(m, v));
    lemma_renumbered_targets(g.pruned().edges, m, v);
    lemma_targets_of_edges_within(g.edges, m, v);
    lemma_renumbered_in_degree(g.pruned().edges, m, v);
    lemma_pending_in_edges_within(g.edges, m, Set::empty(), v);
}


/// The in-degrees of the members, by rank.
pub open spec fn compact_degrees(members: Seq<bool>, degrees: Seq<usize>) -> Seq<usize> {
    Seq::new(kept(members).len(), |w: int| degrees[kept(members)[w] as int])
}

/// The state of a run as it reads on the reachable part alone.
pub open spec fn compact_state(s: Schedule) -> Schedule {
    let m = s.graph.reach_mask();
    Schedule {
        workflow_id: s.workflow_id,
        nodes: kept_nodes(s.nodes, m),
        graph: s.graph.compact(),
        indegree: compact_degrees(m, s.indegree),
        ready: ranks(m, s.ready),
        done: ranks(m, s.done),
        results: s.results,
        failure: s.failure,
    }
}

/// Relaxing the ranks of targets that are members does to the in-degrees
/// by rank what relaxing the targets does to the in-degrees.
pub proof fn lemma_relax_compact(
    members: Seq<bool>,
    degrees: Seq<usize>,
    queue: Seq<usize>,
    targets: Seq<usize>,
)
    requires
        members.len() <= usize::MAX,
        degrees.len() == members.len(),
        forall|j: int| 0 <= j < targets.len() ==> is_member(members, #[trigger] targets[j]),
    ensures
        relax(degrees, queue, targets).0.len() == degrees.len(),
        relax(
            compact_degrees(members, degrees),
            ranks(members, queue),
            ranks(members, targets),
        ) == (
            compact_degrees(members, relax(degrees, queue, targets).0),
            ranks(members, relax(degrees, queue, targets).1),
        ),
    decreases targets.len(),
{
    lemma_kept(members);
    if targets.len() == 0 {
        assert(ranks(members, targets) =~= Seq::empty());
    } else {
        let front = targets.drop_last();
        lemma_relax_compact(members, degrees, queue, front);
        assert(ranks(members, targets).drop_last() =~= ranks(members, front));
        let t = targets.last();
        assert(t == targets[targets.len() - 1]);
        assert(is_member(members, t));
        let r = rank(members, t);
        assert(ranks(members, targets).last() == r);
        let (d1, q1) = relax(degrees, queue, front);
        let c1 = compact_degrees(members, d1);
        assert(c1[r as int] == d1[t as int]);
        let d: usize = if d1[t as int] > 0 {
            (d1[t as int] - 1) as usize
        } else {
            0
        };
        assert(compact_degrees(members, d1.update(t as int, d)) =~= c1.update(r as int, d)) by {
            assert forall|w: int| 0 <= w < c1.len() implies compact_degrees(
                members,
                d1.update(t as int, d),
            )[w] == c1.update(r as int, d)[w] by {
                let v = kept(members)[w];
                assert(rank(members, v) == w);
            }
        }
        assert(ranks(members, q1.push(t)) =~= ranks(members, q1).push(r));
    }
}

/// Relaxing the ranks of a batch on the reachable part alone does to the
/// in-degrees by rank what relaxing the batch does to the in-degrees.
pub proof fn lemma_relax_batch_compact(
    g: Graph,
    degrees: Seq<usize>,
    queue: Seq<usize>,
    batch: Seq<usize>,
)
    requires
        g.well_formed(),
        degrees.len() == g.size,
        forall|i: int| 0 <= i < batch.len() ==> (#[trigger] batch[i]) < g.size && g.reaches(batch[i]),
    ensures
        relax_batch(g.outbound(), degrees, queue, batch).0.len() == degrees.len(),
        relax_batch(
            g.compact().outbound(),
            compact_degrees(g.reach_mask(), degrees),
            ranks(g.reach_mask(), queue),
            ranks(g.reach_mask(), batch),
        ) == (
            compact_degrees(g.reach_mask(), relax_batch(g.outbound(), degrees, queue, batch).0),
            ranks(g.reach_mask(), relax_batch(g.outbound(), degrees, queue, batch).1),
        ),
    decreases batch.len(),
{
    let m = g.reach_mask();
    if batch.len() == 0 {
        assert(ranks(m, batch) =~= Seq::empty());
    } else {
        let front = batch.drop_last();
        assert forall|i: int| 0 <= i < front.len() implies (#[trigger] front[i]) < g.size
            && g.reaches(front[i]) by {
            assert(front[i] == batch[i]);
        }
        lemma_relax_batch_compact(g, degrees, queue, front);
        assert(ranks(m, batch).drop_last() =~= ranks(m, front));
        let u = batch.last();
        assert(u == batch[batch.len() - 1]);
        assert(ranks(m, batch).last() == rank(m, u));
        lemma_compact_tables(g, u);
        let (d1, q1) = relax_batch(g.outbound(), degrees, queue, front);
        let targets = g.outbound()[u as int];
        assert forall|j: int| 0 <= j < targets.len() implies is_member(m, #[trigger] targets[j]) by {
            assert(targets.contains(targets[j]));
            lemma_targets_within(g.edges, m, u, targets[j]);
        }
        lemma_relax_compact(m, d1, q1, targets);
    }
}

/// The first failure of a batch reads the same on the reachable part alone.
pub proof fn lemma_first_failure_compact(
    nodes: Seq<WorkflowNode>,
    members: Seq<bool>,
    batch: Seq<usize>,
    outcomes: Seq<NodeOutcome>,
)
    requires
        members.len() <= usize::MAX,
        outcomes.len() <= batch.len(),
        forall|i: int| 0 <= i < batch.len() ==> is_member(members, #[trigger] batch[i]),
    ensures
        first_failure(kept_nodes(nodes, members), ranks(members, batch), outcomes)
            == first_failure(nodes, batch, outcomes),
    decreases outcomes.len(),
{
    if outcomes.len() > 0 {
        lemma_first_failure_compact(nodes, members, batch, outcomes.drop_last());
        lemma_kept(members);
        let v = batch[outcomes.len() - 1];
        assert(is_member(members, v));
        assert(kept(members)[rank(members, v) as int] == v);
    }
}

/// A round reads the same on the reachable part alone.
pub proof fn lemma_after_batch_compact(s: Schedule, outcomes: Seq<NodeOutcome>)
    requires
        s.inv(),
        outcomes.len() == s.ready.len(),
    ensures
        compact_state(s).after_batch(outcomes) == compact_state(s.after_batch(outcomes)),
{
    let g = s.graph;
    let m = g.reach_mask();
    let c = compact_state(s);
    lemma_kept(m);
    assert forall|i: int| 0 <= i < s.ready.len() implies is_member(m, #[trigger] s.ready[i]) by {}
    lemma_first_failure_compact(s.nodes, m, s.ready, outcomes);
    let next = s.after_batch(outcomes);
    let other = c.after_batch(outcomes);
    if first_failure(s.nodes, s.ready, outcomes) is Some {
        assert(ranks(m, Seq::empty()) =~= Seq::<usize>::empty());
        assert(other == compact_state(next));
    } else {
        assert(ranks(m, Seq::empty()) =~= Seq::<usize>::empty());
        lemma_relax_batch_compact(g, s.indegree, Seq::empty(), s.ready);
        assert(ranks(m, s.done + s.ready) =~= ranks(m, s.done) + ranks(m, s.ready));
        assert(batch_results(c.nodes, c.ready, outcomes) =~= batch_results(
            s.nodes,
            s.ready,
            outcomes,
        )) by {
            assert forall|i: int| 0 <= i < s.ready.len() implies c.nodes[c.ready[i] as int]
                == s.nodes[s.ready[i] as int] by {
                let v = s.ready[i];
                assert(is_member(m, v));
                assert(kept(m)[rank(m, v) as int] == v);
            }
        }
        assert(other == compact_state(next));
    }
}

/// The first state of a run reads on the reachable part alone as the first
/// state of a run of the reachable part alone.
pub proof fn lemma_initial_compact(workflow_id: Seq<char>, nodes: Seq<WorkflowNode>, g: Graph)
    requires
        g.well_formed(),
    ensures
        Schedule::initial(workflow_id, kept_nodes(nodes, g.reach_mask()), g.compact())
            == compact_state(Schedule::initial(workflow_id, nodes, g)),
{
    let m = g.reach_mask();
    let c = g.compact();
    lemma_compact_reach(g);
    lemma_kept(m);
    lemma_reach_start(g);
    lemma_compact_tables(g, g.start);
    assert(c.in_degrees() =~= compact_degrees(m, g.in_degrees())) by {
        assert forall|w: int| 0 <= w < c.size implies c.in_degrees()[w] == compact_degrees(
            m,
            g.in_degrees(),
        )[w] by {
            let v = kept(m)[w];
            assert(is_member(m, v));
            lemma_compact_tables(g, v);
        }
    }
    let seeds = seeds_below(g, g.size);
    let others = seeds_below(c, c.size);
    lemma_seeds_below(g, g.size);
    lemma_seeds_below(c, c.size);
    if seeds.len() > 0 {
        law_first_round_is_the_start_node(g, 0);
        assert(seeds[0] == g.start);
        assert(g.in_degrees()[g.start as int] == 0);
        lemma_reach_start(c);
        assert(c.in_degrees()[c.start as int] == 0);
        assert(others.contains(c.start));
        let i = choose|i: int| 0 <= i < others.len() && others[i] == c.start;
        law_first_round_is_the_start_node(c, i);
        assert(others =~= ranks(m, seeds));
    } else {
        if others.len() > 0 {
            law_first_round_is_the_start_node(c, 0);
            assert(others[0] == c.start);
            assert(c.in_degrees()[c.start as int] == 0);
            assert(seeds.contains(g.start));
        }
        assert(others =~= ranks(m, seeds));
    }
    let here = Schedule::initial(workflow_id, kept_nodes(nodes, m), c);
    let there = compact_state(Schedule::initial(workflow_id, nodes, g));
    assert(here.done =~= there.done);
    assert(here.ready == there.ready);
    assert(here.indegree == there.indegree);
}

/// Whether each round has as many outcomes as nodes were ready for it.
pub open spec fn fitting(first: Schedule, rounds: Seq<Seq<NodeOutcome>>) -> bool {
    forall|k: int|
        0 <= k < rounds.len() ==> (#[trigger] rounds[k]).len() == after_rounds(
            first,
            rounds.take(k),
        ).ready.len()
}

/// The nodes that the start node does not reach change nothing in a run:
/// with those nodes and every edge that touches them taken out, and the
/// nodes left numbered anew in their old order, the run goes through the
/// same states, round by round, hands out the same nodes in the same order,
/// keeps the same results, and ends with the same verdict.
pub proof fn law_unreachable_nodes_change_nothing(
    workflow_id: Seq<char>,
    nodes: Seq<WorkflowNode>,
    g: Graph,
    rounds: Seq<Seq<NodeOutcome>>,
)
    requires
        g.well_formed(),
        nodes.len() == g.size,
        fitting(Schedule::initial(workflow_id, nodes, g), rounds),
    ensures
        after_rounds(Schedule::initial(workflow_id, nodes, g), rounds).inv(),
        after_rounds(
            Schedule::initial(workflow_id, kept_nodes(nodes, g.reach_mask()), g.compact()),
            rounds,
        ) == compact_state(after_rounds(Schedule::initial(workflow_id, nodes, g), rounds)),
        after_rounds(
            Schedule::initial(workflow_id, kept_nodes(nodes, g.reach_mask()), g.compact()),
            rounds,
        ).verdict() == after_rounds(Schedule::initial(workflow_id, nodes, g), rounds).verdict(),
    decreases rounds.len(),
{
    let first = Schedule::initial(workflow_id, nodes, g);
    lemma_compact_reach(g);
    lemma_graph_stays(first, rounds);
    if rounds.len() == 0 {
        lemma_initial_inv(workflow_id, nodes, g);
        lemma_initial_compact(workflow_id, nodes, g);
    } else {
        let front = rounds.drop_last();
        assert(fitting(first, front)) by {
            assert forall|k: int| 0 <= k < front.len() implies (#[trigger] front[k]).len()
                == after_rounds(first, front.take(k)).ready.len() by {
                assert(front[k] == rounds[k]);
                assert(front.take(k) =~= rounds.take(k));
            }
        }
        law_unreachable_nodes_change_nothing(workflow_id, nodes, g, front);
        let s = after_rounds(first, front);
        lemma_graph_stays(first, front);
        assert(rounds.take(rounds.len() - 1) =~= front);
        assert(rounds[rounds.len() - 1] == rounds.last());
        lemma_after_batch_inv(s, rounds.last());
        lemma_after_batch_compact(s, rounds.last());
    }
    let end = after_rounds(first, rounds);
    assert(ranks(g.reach_mask(), end.done).len() == end.done.len());
}


/// Whether no two nodes carry the same id.
pub open spec fn distinct_ids(nodes: Seq<WorkflowNode>) -> bool {
    forall|i: int, j: int|
        0 <= i < j < nodes.len() ==> (#[trigger] nodes[i]).id@ != (#[trigger] nodes[j]).id@
}

/// Whether both ends of an edge name members.
pub open spec fn names_members(nodes: Seq<WorkflowNode>, members: Seq<bool>, edge: WorkflowEdge) -> bool {
    &&& resolve(nodes, edge.source_node_id@) matches Some(a) && is_member(members, a)
    &&& resolve(nodes, edge.target_node_id@) matches Some(b) && is_member(members, b)
}

/// The edges of a workflow whose two ends both name members, in the order
/// given.
pub open spec fn kept_edges(
    nodes: Seq<WorkflowNode>,
    edges: Seq<WorkflowEdge>,
    members: Seq<bool>,
) -> Seq<WorkflowEdge>
    decreases edges.len(),
{
    if edges.len() == 0 {
        Seq::empty()
    } else {
        let rest = kept_edges(nodes, edges.drop_last(), members);
        if names_members(nodes, members, edges.last()) {
            rest.push(edges.last())
        } else {
            rest
        }
    }
}

/// Where no two nodes carry the same id, the id of a node names that node.
pub proof fn lemma_resolve_distinct(nodes: Seq<WorkflowNode>, i: int)
    requires
        nodes.len() <= usize::MAX,
        distinct_ids(nodes),
        0 <= i < nodes.len(),
    ensures
        resolve(nodes, nodes[i].id@) == Some(i as usize),
{
    lemma_resolve(nodes, nodes[i].id@);
    let n = resolve(nodes, nodes[i].id@).unwrap();
    if n < i {
        assert(nodes[n as int].id@ != nodes[i].id@);
    }
    if i < n {
        assert(nodes[i].id@ != nodes[n as int].id@);
    }
}

/// Among the members of nodes with distinct ids, the id of a member names
/// the member's rank.
pub proof fn lemma_resolve_kept(nodes: Seq<WorkflowNode>, members: Seq<bool>, v: usize)
    requires
        nodes.len() <= usize::MAX,
        members.len() == nodes.len(),
        distinct_ids(nodes),
        is_member(members, v),
    ensures
        distinct_ids(kept_nodes(nodes, members)),
        resolve(kept_nodes(nodes, members), nodes[v as int].id@) == Some(rank(members, v)),
{
    let left = kept_nodes(nodes, members);
    lemma_kept(members);
    lemma_count_true_bound(members);
    assert forall|i: int, j: int| 0 <= i < j < left.len() implies (#[trigger] left[i]).id@ != (
    #[trigger] left[j]).id@ by {
        let a = kept(members)[i];
        let b = kept(members)[j];
        assert(rank(members, a) == i && rank(members, b) == j);
        if a < b {
            assert(nodes[a as int].id@ != nodes[b as int].id@);
        } else {
            assert(nodes[b as int].id@ != nodes[a as int].id@);
        }
    }
    let r = rank(members, v);
    assert(left[r as int] == nodes[v as int]);
    lemma_resolve_distinct(left, r as int);
}

/// The edges kept of a workflow, read among the members, are the edges
/// within the members, renumbered; and their ends all name nodes.
pub proof fn lemma_kept_edges(
    nodes: Seq<WorkflowNode>,
    edges: Seq<WorkflowEdge>,
    members: Seq<bool>,
)
    requires
        nodes.len() <= usize::MAX,
        members.len() == nodes.len(),
        distinct_ids(nodes),
        forall|k: int|
            0 <= k < edges.len() ==> resolve(nodes, (#[trigger] edges[k]).source_node_id@) is Some
                && resolve(nodes, edges[k].target_node_id@) is Some,
    ensures
        kept_edges(nodes, edges, members).len() <= edges.len(),
        resolved_edges(kept_nodes(nodes, members), kept_edges(nodes, edges, members))
            == renumbered(edges_within(resolved_edges(nodes, edges), members), members),
        forall|k: int|
            0 <= k < kept_edges(nodes, edges, members).len() ==> resolve(
                kept_nodes(nodes, members),
                (#[trigger] kept_edges(nodes, edges, members)[k]).source_node_id@,
            ) is Some && resolve(
                kept_nodes(nodes, members),
                kept_edges(nodes, edges, members)[k].target_node_id@,
            ) is Some,
    decreases edges.len(),
{
    let left = kept_nodes(nodes, members);
    if edges.len() == 0 {
        assert(resolved_edges(left, kept_edges(nodes, edges, members)) =~= renumbered(
            edges_within(resolved_edges(nodes, edges), members),
            members,
        ));
    } else {
        let front = edges.drop_last();
        let edge = edges.last();
        assert(edge == edges[edges.len() - 1]);
        assert forall|k: int| 0 <= k < front.len() implies resolve(
            nodes,
            (#[trigger] front[k]).source_node_id@,
        ) is Some && resolve(nodes, front[k].target_node_id@) is Some by {
            assert(front[k] == edges[k]);
        }
        lemma_kept_edges(nodes, front, members);
        let all = resolved_edges(nodes, edges);
        assert(all.drop_last() =~= resolved_edges(nodes, front));
        let a = resolve(nodes, edge.source_node_id@).unwrap();
        let b = resolve(nodes, edge.target_node_id@).unwrap();
        assert(all.last() == (a, b));
        let rest = kept_edges(nodes, front, members);
        let within = edges_within(resolved_edges(nodes, front), members);
        if names_members(nodes, members, edge) {
            lemma_resolve(nodes, edge.source_node_id@);
            lemma_resolve(nodes, edge.target_node_id@);
            lemma_resolve_kept(nodes, members, a);
            lemma_resolve_kept(nodes, members, b);
            let more = rest.push(edge);
            assert(resolved_edges(left, more) =~= resolved_edges(left, rest).push(
                (rank(members, a), rank(members, b)),
            )) by {
                assert forall|k: int| 0 <= k < rest.len() implies more[k] == rest[k] by {}
            }
            assert(renumbered(within.push((a, b)), members) =~= renumbered(
                within,
                members,
            ).push((rank(members, a), rank(members, b))));
            assert forall|k: int| 0 <= k < more.len() implies resolve(
                left,
                (#[trigger] more[k]).source_node_id@,
            ) is Some && resolve(left, more[k].target_node_id@) is Some by {
                if k < rest.len() {
                    assert(more[k] == rest[k]);
                }
            }
        }
    }
}

/// The workflow without the nodes that its start node does not reach, and
/// without the edges that touch them, is sound where the workflow is, and
/// its graph is the reachable part alone.
pub proof fn lemma_removal_gives_compact(nodes: Seq<WorkflowNode>, edges: Seq<WorkflowEdge>)
    requires
        nodes.len() <= usize::MAX,
        edges.len() <= usize::MAX,
        distinct_ids(nodes),
        structural_error(nodes, edges) is None,
    ensures
        ({
            let m = graph_of(nodes, edges).reach_mask();
            &&& structural_error(kept_nodes(nodes, m), kept_edges(nodes, edges, m)) is None
            &&& graph_of(kept_nodes(nodes, m), kept_edges(nodes, edges, m)) == graph_of(
                nodes,
                edges,
            ).compact()
        }),
{
    let g = graph_of(nodes, edges);
    let m = g.reach_mask();
    let left = kept_nodes(nodes, m);
    let fewer = kept_edges(nodes, edges, m);
    lemma_graph_of_well_formed(nodes, edges);
    lemma_kept(m);
    lemma_count_true_bound(m);
    lemma_reach_start(g);
    lemma_next_start(nodes, 0);
    let first = next_start(nodes, 0).unwrap();
    lemma_next_start(nodes, first + 1);
    lemma_resolve_distinct(nodes, first as int);
    assert(g.start == first);
    assert(is_member(m, first));
    let r = rank(m, first);
    lemma_resolve_kept(nodes, m, first);
    assert(left[r as int] == nodes[first as int]);
    assert forall|w: int| 0 <= w < left.len() && w != r implies (#[trigger] left[w]).node_type
        != NodeType::Start by {
        let v = kept(m)[w];
        assert(rank(m, v) == w);
        assert(v != first);
        assert(nodes[v as int].node_type != NodeType::Start);
    }
    lemma_next_start(left, 0);
    assert(next_start(left, 0) == Some(r)) by {
        if next_start(left, 0) is None {
            assert(left[r as int].node_type != NodeType::Start);
        }
    }
    lemma_next_start(left, r + 1);
    assert(next_start(left, r + 1) is None);
    assert forall|k: int| 0 <= k < edges.len() implies resolve(
        nodes,
        (#[trigger] edges[k]).source_node_id@,
    ) is Some && resolve(nodes, edges[k].target_node_id@) is Some by {
        lemma_edge_error_none(nodes, edges, k);
    }
    lemma_kept_edges(nodes, edges, m);
    lemma_edges_sound(left, fewer);
    assert(graph_of(left, fewer).edges == g.compact().edges);
}

/// The rounds of a run fit: each has as many outcomes as nodes were ready.
pub proof fn lemma_run_fits<F: Fn(Vec<NodePlan>) -> Vec<NodeOutcome>>(
    first: Schedule,
    home: Option<Seq<char>>,
    dispatch: F,
    asked: Seq<Vec<NodePlan>>,
    told: Seq<Vec<NodeOutcome>>,
)
    requires
        is_run(first, home, dispatch, asked, told),
        forall|plans: Vec<NodePlan>, outcomes: Vec<NodeOutcome>|
            #[trigger] dispatch.ensures((plans,), outcomes) ==> outcomes.len() == plans.len(),
    ensures
        fitting(first, outcomes_of(told)),
{
    let rounds = outcomes_of(told);
    assert forall|k: int| 0 <= k < rounds.len() implies (#[trigger] rounds[k]).len()
        == after_rounds(first, rounds.take(k)).ready.len() by {
        assert(is_round(first, home, dispatch, asked, told, k));
        assert(dispatch.ensures((asked[k],), told[k]));
    }
}

/// The nodes that the start node does not reach may be taken out of a
/// workflow, with every edge that touches them: where no two nodes carry
/// the same id, the workflow that is left is sound, and its run goes
/// through the same states as the run of the whole workflow, read on the
/// reachable part; it hands out the same nodes in the same order, keeps
/// the same results, and ends with the same verdict.
pub proof fn law_unreachable_nodes_may_be_removed(
    workflow_id: Seq<char>,
    nodes: Seq<WorkflowNode>,
    edges: Seq<WorkflowEdge>,
    rounds: Seq<Seq<NodeOutcome>>,
)
    requires
        nodes.len() <= usize::MAX,
        edges.len() <= usize::MAX,
        distinct_ids(nodes),
        structural_error(nodes, edges) is None,
        fitting(Schedule::initial(workflow_id, nodes, graph_of(nodes, edges)), rounds),
    ensures
        ({
            let m = graph_of(nodes, edges).reach_mask();
            let whole = after_rounds(
                Schedule::initial(workflow_id, nodes, graph_of(nodes, edges)),
                rounds,
            );
            let part = after_rounds(
                Schedule::initial(
                    workflow_id,
                    kept_nodes(nodes, m),
                    graph_of(kept_nodes(nodes, m), kept_edges(nodes, edges, m)),
                ),
                rounds,
            );
            &&& structural_error(kept_nodes(nodes, m), kept_edges(nodes, edges, m)) is None
            &&& part == compact_state(whole)
            &&& part.results == whole.results
            &&& part.verdict() == whole.verdict()
        }),
{
    lemma_graph_of_well_formed(nodes, edges);
    lemma_removal_gives_compact(nodes, edges);
    law_unreachable_nodes_change_nothing(workflow_id, nodes, graph_of(nodes, edges), rounds);
}

} // verus!
