//! The graph model of a workflow: nodes by number, edges between numbers, and
//! what can be reached from the start node.

use std::collections::VecDeque;
use vstd::prelude::*;
use crate::error::{RunError, RunErrorView};
use crate::models::{NodeType, Workflow, WorkflowEdge, WorkflowNode};

verus! {

/// A directed graph on the node numbers `0..size`, with a start node. An edge
/// `(u, v)` says that `v` depends on `u`. Edges may repeat.
pub struct Graph {
    pub size: nat,
    pub edges: Seq<(usize, usize)>,
    pub start: usize,
}

impl Graph {
    /// The start node and the ends of every edge are nodes of the graph, and
    /// the nodes and the edges are no more than a machine can count.
    pub open spec fn well_formed(self) -> bool {
        &&& self.size <= usize::MAX
        &&& self.edges.len() <= usize::MAX
        &&& self.start < self.size
        &&& forall|k: int|
            0 <= k < self.edges.len() ==> (#[trigger] self.edges[k]).0 < self.size
                && self.edges[k].1 < self.size
    }

    /// Whether an edge leads from `from` to `to`.
    pub open spec fn has_edge(self, from: usize, to: usize) -> bool {
        self.edges.contains((from, to))
    }

    /// A walk is a list of nodes, each joined to the next by an edge.
    pub open spec fn is_walk(self, walk: Seq<usize>) -> bool {
        &&& walk.len() > 0
        &&& forall|i: int|
            0 <= i < walk.len() - 1 ==> self.has_edge(#[trigger] walk[i], walk[i + 1])
    }

    /// Whether a walk leads from the start node to `v`.
    pub open spec fn reaches(self, v: usize) -> bool {
        exists|walk: Seq<usize>|
            #[trigger] self.is_walk(walk) && walk[0] == self.start && walk.last() == v
    }

    /// A cycle of the reachable part: a walk along at least one edge that
    /// ends where it began, at a node that the start node reaches.
    pub open spec fn is_cycle(self, walk: Seq<usize>) -> bool {
        &&& self.is_walk(walk)
        &&& walk.len() >= 2
        &&& walk[0] == walk.last()
        &&& self.reaches(walk[0])
    }

    /// Whether the reachable part holds a cycle.
    pub open spec fn has_cycle(self) -> bool {
        exists|walk: Seq<usize>| #[trigger] self.is_cycle(walk)
    }

    /// The reachable nodes, as one flag for each node.
    pub open spec fn reach_mask(self) -> Seq<bool> {
        Seq::new(self.size, |v: int| self.reaches(v as usize))
    }
}

/// The number of the node that an id names: the last node with that id.
pub open spec fn resolve(nodes: Seq<WorkflowNode>, id: Seq<char>) -> Option<usize>
    decreases nodes.len(),
{
    if nodes.len() == 0 {
        None
    } else if nodes.last().id@ == id {
        Some((nodes.len() - 1) as usize)
    } else {
        resolve(nodes.drop_last(), id)
    }
}

/// The first start node at or after position `from`.
pub open spec fn next_start(nodes: Seq<WorkflowNode>, from: int) -> Option<usize>
    decreases nodes.len() - from,
{
    if from < 0 || from >= nodes.len() {
        None
    } else if nodes[from].node_type == NodeType::Start {
        Some(from as usize)
    } else {
        next_start(nodes, from + 1)
    }
}

/// The first edge, in the order given, with an end that names no node. The
/// source of an edge is looked at before its target.
pub open spec fn edge_error(nodes: Seq<WorkflowNode>, edges: Seq<WorkflowEdge>) -> Option<
    RunErrorView,
>
    decreases edges.len(),
{
    if edges.len() == 0 {
        None
    } else {
        match edge_error(nodes, edges.drop_last()) {
            Some(e) => Some(e),
            None => {
                let edge = edges.last();
                if resolve(nodes, edge.source_node_id@) is None {
                    Some(RunErrorView::MissingSource(edge.source_node_id@))
                } else if resolve(nodes, edge.target_node_id@) is None {
                    Some(RunErrorView::MissingTarget(edge.target_node_id@))
                } else {
                    None
                }
            },
        }
    }
}

/// What is wrong with the structure of a workflow, if anything: no start node,
/// an edge that names no node, or a second start node, looked for in that
/// order. So a workflow with a start node and an edge at fault is always
/// refused for that edge.
pub open spec fn structural_error(nodes: Seq<WorkflowNode>, edges: Seq<WorkflowEdge>) -> Option<
    RunErrorView,
> {
    match next_start(nodes, 0) {
        None => Some(RunErrorView::MissingStart),
        Some(first) => match edge_error(nodes, edges) {
            Some(e) => Some(e),
            None => match next_start(nodes, first + 1) {
                Some(second) => Some(RunErrorView::DuplicateStart(nodes[second as int].id@)),
                None => None,
            },
        },
    }
}

/// The edges of a workflow between node numbers, in the order given.
pub open spec fn resolved_edges(nodes: Seq<WorkflowNode>, edges: Seq<WorkflowEdge>) -> Seq<
    (usize, usize),
> {
    Seq::new(
        edges.len(),
        |k: int|
            (
                resolve(nodes, edges[k].source_node_id@).unwrap(),
                resolve(nodes, edges[k].target_node_id@).unwrap(),
            ),
    )
}

/// The graph of a workflow whose structure is sound. Its start node is the
/// node that the id of the start node names.
pub open spec fn graph_of(nodes: Seq<WorkflowNode>, edges: Seq<WorkflowEdge>) -> Graph {
    Graph {
        size: nodes.len(),
        edges: resolved_edges(nodes, edges),
        start: resolve(nodes, nodes[next_start(nodes, 0).unwrap() as int].id@).unwrap(),
    }
}

/// An id names a node exactly when some node carries it, and then the node
/// it names carries it and no later node does.
pub proof fn lemma_resolve(nodes: Seq<WorkflowNode>, id: Seq<char>)
    requires
        nodes.len() <= usize::MAX,
    ensures
        resolve(nodes, id) is None <==> (forall|i: int|
            0 <= i < nodes.len() ==> (#[trigger] nodes[i]).id@ != id),
        resolve(nodes, id) matches Some(n) ==> n < nodes.len() && nodes[n as int].id@ == id
            && (forall|i: int| n < i < nodes.len() ==> (#[trigger] nodes[i]).id@ != id),
    decreases nodes.len(),
{
    if nodes.len() > 0 {
        lemma_resolve(nodes.drop_last(), id);
        if nodes.last().id@ != id {
            if resolve(nodes, id) is None {
                assert forall|i: int| 0 <= i < nodes.len() implies (#[trigger] nodes[i]).id@
                    != id by {
                    if i < nodes.len() - 1 {
                        assert(nodes[i] == nodes.drop_last()[i]);
                    }
                }
            } else {
                let n = resolve(nodes, id).unwrap();
                assert(nodes[n as int] == nodes.drop_last()[n as int]);
                assert forall|i: int| n < i < nodes.len() implies (#[trigger] nodes[i]).id@
                    != id by {
                    if i < nodes.len() - 1 {
                        assert(nodes[i] == nodes.drop_last()[i]);
                    }
                }
            }
        }
    }
}

/// The start node found is a start node, and no node between `from` and it is.
pub proof fn lemma_next_start(nodes: Seq<WorkflowNode>, from: int)
    requires
        0 <= from,
        nodes.len() <= usize::MAX,
    ensures
        next_start(nodes, from) is None <==> (forall|i: int|
            from <= i < nodes.len() ==> (#[trigger] nodes[i]).node_type != NodeType::Start),
        next_start(nodes, from) matches Some(n) ==> from <= n < nodes.len()
            && nodes[n as int].node_type == NodeType::Start && (forall|i: int|
            from <= i < n ==> (#[trigger] nodes[i]).node_type != NodeType::Start),
    decreases nodes.len() - from,
{
    if from < nodes.len() {
        lemma_next_start(nodes, from + 1);
    }
}

/// The graph of a workflow whose structure is sound is well formed.
pub proof fn lemma_graph_of_well_formed(nodes: Seq<WorkflowNode>, edges: Seq<WorkflowEdge>)
    requires
        nodes.len() <= usize::MAX,
        edges.len() <= usize::MAX,
        structural_error(nodes, edges) is None,
    ensures
        graph_of(nodes, edges).well_formed(),
{
    let g = graph_of(nodes, edges);
    lemma_next_start(nodes, 0);
    let first = next_start(nodes, 0).unwrap();
    lemma_resolve(nodes, nodes[first as int].id@);
    assert forall|k: int| 0 <= k < g.edges.len() implies (#[trigger] g.edges[k]).0 < g.size
        && g.edges[k].1 < g.size by {
        lemma_edge_error_none(nodes, edges, k);
        lemma_resolve(nodes, edges[k].source_node_id@);
        lemma_resolve(nodes, edges[k].target_node_id@);
    }
}

/// Where no edge is at fault, both ends of every edge name a node.
pub proof fn lemma_edge_error_none(nodes: Seq<WorkflowNode>, edges: Seq<WorkflowEdge>, k: int)
    requires
        edge_error(nodes, edges) is None,
        0 <= k < edges.len(),
    ensures
        resolve(nodes, edges[k].source_node_id@) is Some,
        resolve(nodes, edges[k].target_node_id@) is Some,
    decreases edges.len(),
{
    if k < edges.len() - 1 {
        lemma_edge_error_none(nodes, edges.drop_last(), k);
    }
}

/// Finds the node that an id names.
pub fn find_node(nodes: &Vec<WorkflowNode>, id: &String) -> (found: Option<usize>)
    ensures
        found == resolve(nodes@, id@),
{
    let mut i: usize = nodes.len();
    assert(nodes@.take(i as int) =~= nodes@);
    while i > 0
        invariant
            i <= nodes.len(),
            resolve(nodes@, id@) == resolve(nodes@.take(i as int), id@),
        decreases i,
    {
        assert(nodes@.take(i as int).drop_last() =~= nodes@.take(i as int - 1));
        if nodes[i - 1].id == *id {
            return Some(i - 1);
        }
        i = i - 1;
    }
    None
}

/// Finds the first start node at or after position `from`.
pub fn find_start(nodes: &Vec<WorkflowNode>, from: usize) -> (found: Option<usize>)
    ensures
        found == next_start(nodes@, from as int),
{
    let mut i: usize = from;
    while i < nodes.len()
        invariant
            from <= i,
            next_start(nodes@, from as int) == next_start(nodes@, i as int),
        decreases nodes.len() - i,
    {
        if nodes[i].node_type == NodeType::Start {
            return Some(i);
        }
        i = i + 1;
    }
    None
}


/// Whether the flags count `v` in.
pub open spec fn is_member(members: Seq<bool>, v: usize) -> bool {
    v < members.len() && members[v as int]
}

/// The targets of the edges that leave `u`, in the order of the edges, with
/// only those edges counted whose two ends are both members.
pub open spec fn targets_within(edges: Seq<(usize, usize)>, members: Seq<bool>, u: usize) -> Seq<
    usize,
>
    decreases edges.len(),
{
    if edges.len() == 0 {
        Seq::empty()
    } else {
        let rest = targets_within(edges.drop_last(), members, u);
        let edge = edges.last();
        if edge.0 == u && is_member(members, edge.0) && is_member(members, edge.1) {
            rest.push(edge.1)
        } else {
            rest
        }
    }
}

/// How many edges enter `v` from a source that is not in `done`, with only
/// those edges counted whose two ends are both members.
pub open spec fn pending_in(
    edges: Seq<(usize, usize)>,
    members: Seq<bool>,
    done: Set<usize>,
    v: usize,
) -> nat
    decreases edges.len(),
{
    if edges.len() == 0 {
        0
    } else {
        let rest = pending_in(edges.drop_last(), members, done, v);
        let edge = edges.last();
        if edge.1 == v && is_member(members, edge.0) && is_member(members, edge.1)
            && !done.contains(edge.0) {
            rest + 1
        } else {
            rest
        }
    }
}

/// The in-degree of `v` among the members.
pub open spec fn in_degree_within(edges: Seq<(usize, usize)>, members: Seq<bool>, v: usize) -> nat {
    pending_in(edges, members, Set::empty(), v)
}

/// How many of the flags are set.
pub open spec fn count_true(flags: Seq<bool>) -> nat
    decreases flags.len(),
{
    if flags.len() == 0 {
        0
    } else {
        count_true(flags.drop_last()) + if flags.last() {
            1nat
        } else {
            0nat
        }
    }
}

/// No more edges enter a node than there are edges.
pub proof fn lemma_pending_in_bound(
    edges: Seq<(usize, usize)>,
    members: Seq<bool>,
    done: Set<usize>,
    v: usize,
)
    ensures
        pending_in(edges, members, done, v) <= edges.len(),
    decreases edges.len(),
{
    if edges.len() > 0 {
        lemma_pending_in_bound(edges.drop_last(), members, done, v);
    }
}

/// The targets listed for `u` are the ends of the counted edges that leave `u`.
pub proof fn lemma_targets_within(
    edges: Seq<(usize, usize)>,
    members: Seq<bool>,
    u: usize,
    t: usize,
)
    ensures
        targets_within(edges, members, u).contains(t) <==> (edges.contains((u, t)) && is_member(
            members,
            u,
        ) && is_member(members, t)),
    decreases edges.len(),
{
    if edges.len() > 0 {
        let front = edges.drop_last();
        let rest = targets_within(front, members, u);
        lemma_targets_within(front, members, u, t);
        let edge = edges.last();
        if edges.contains((u, t)) {
            let k = choose|k: int| 0 <= k < edges.len() && edges[k] == (u, t);
            if k < edges.len() - 1 {
                assert(front[k] == (u, t));
            }
        }
        if front.contains((u, t)) {
            let k = choose|k: int| 0 <= k < front.len() && front[k] == (u, t);
            assert(edges[k] == (u, t));
        }
        if edge.0 == u && is_member(members, edge.0) && is_member(members, edge.1) {
            let all = rest.push(edge.1);
            if all.contains(t) {
                let j = choose|j: int| 0 <= j < all.len() && all[j] == t;
                if j < rest.len() {
                    assert(rest[j] == t);
                } else {
                    assert(edges[edges.len() - 1] == (u, t));
                }
            }
            if rest.contains(t) {
                let j = choose|j: int| 0 <= j < rest.len() && rest[j] == t;
                assert(all[j] == t);
            }
            if edge.1 == t {
                assert(all[rest.len() as int] == t);
                assert(edges[edges.len() - 1] == (u, t));
            }
        }
    }
}

/// Setting one more flag raises the count by one.
pub proof fn lemma_count_true_set(flags: Seq<bool>, v: int)
    requires
        0 <= v < flags.len(),
        !flags[v],
    ensures
        count_true(flags.update(v, true)) == count_true(flags) + 1,
    decreases flags.len(),
{
    let set = flags.update(v, true);
    if v == flags.len() - 1 {
        assert(set.drop_last() =~= flags.drop_last());
    } else {
        lemma_count_true_set(flags.drop_last(), v);
        assert(set.drop_last() =~= flags.drop_last().update(v, true));
    }
}

/// No more flags are set than there are flags.
pub proof fn lemma_count_true_bound(flags: Seq<bool>)
    ensures
        count_true(flags) <= flags.len(),
    decreases flags.len(),
{
    if flags.len() > 0 {
        lemma_count_true_bound(flags.drop_last());
    }
}

/// A node that an edge leaves a reachable node for is reachable too.
pub proof fn lemma_reach_step(g: Graph, u: usize, t: usize)
    requires
        g.reaches(u),
        g.has_edge(u, t),
    ensures
        g.reaches(t),
{
    let walk = choose|walk: Seq<usize>|
        #[trigger] g.is_walk(walk) && walk[0] == g.start && walk.last() == u;
    let longer = walk.push(t);
    assert forall|i: int| 0 <= i < longer.len() - 1 implies g.has_edge(
        #[trigger] longer[i],
        longer[i + 1],
    ) by {
        if i < walk.len() - 1 {
            assert(g.has_edge(walk[i], walk[i + 1]));
        }
    }
    assert(g.is_walk(longer) && longer[0] == g.start && longer.last() == t);
}

/// The start node reaches itself.
pub proof fn lemma_reach_start(g: Graph)
    ensures
        g.reaches(g.start),
{
    let walk = seq![g.start];
    assert(g.is_walk(walk) && walk[0] == g.start && walk.last() == g.start);
}

/// Flags that count the start node in, and with each node counted in every
/// node that an edge leads to from it, count in every node along a walk from
/// the start node.
proof fn lemma_closed_holds_walk(g: Graph, flags: Seq<bool>, walk: Seq<usize>, i: int)
    requires
        g.well_formed(),
        flags.len() == g.size,
        flags[g.start as int],
        forall|u: usize, t: usize|
            u < g.size && flags[u as int] && #[trigger] g.has_edge(u, t) ==> is_member(flags, t),
        g.is_walk(walk),
        walk[0] == g.start,
        0 <= i < walk.len(),
    ensures
        is_member(flags, walk[i]),
    decreases i,
{
    if i > 0 {
        lemma_closed_holds_walk(g, flags, walk, i - 1);
        assert(g.has_edge(walk[i - 1], walk[i - 1 + 1]));
    }
}

/// What a list holds after one more element was put at its end.
pub proof fn lemma_push_contains(s: Seq<usize>, x: usize, t: usize)
    ensures
        s.push(x).contains(t) <==> (s.contains(t) || x == t),
{
    let longer = s.push(x);
    if s.contains(t) {
        let i = choose|i: int| 0 <= i < s.len() && s[i] == t;
        assert(longer[i] == t);
    }
    if x == t {
        assert(longer[s.len() as int] == t);
    }
    if longer.contains(t) {
        let i = choose|i: int| 0 <= i < longer.len() && longer[i] == t;
        if i < s.len() {
            assert(s[i] == t);
        }
    }
}

/// What a list holds is its first element and what the rest holds.
pub proof fn lemma_tail_contains(s: Seq<usize>, t: usize)
    requires
        s.len() > 0,
    ensures
        s.contains(t) <==> (s[0] == t || s.subrange(1, s.len() as int).contains(t)),
{
    let tail = s.subrange(1, s.len() as int);
    if s.contains(t) {
        let i = choose|i: int| 0 <= i < s.len() && s[i] == t;
        if i > 0 {
            assert(tail[i - 1] == t);
        }
    }
    if tail.contains(t) {
        let i = choose|i: int| 0 <= i < tail.len() && tail[i] == t;
        assert(s[i + 1] == t);
    }
}

/// The graph model in memory: the nodes of a workflow by number and its edges
/// between numbers. It does not change once it is built.
pub struct GraphModel {
    size: usize,
    edges: Vec<(usize, usize)>,
    start: usize,
}

impl View for GraphModel {
    type V = Graph;

    closed spec fn view(&self) -> Graph {
        Graph { size: self.size as nat, edges: self.edges@, start: self.start }
    }
}

impl GraphModel {
    #[verifier::type_invariant]
    spec fn sound(self) -> bool {
        self@.well_formed()
    }

    /// The number of nodes.
    pub fn size(&self) -> (n: usize)
        ensures
            n == self@.size,
    {
        self.size
    }

    /// The start node.
    pub fn start(&self) -> (v: usize)
        ensures
            v == self@.start,
    {
        self.start
    }

    /// The outbound adjacency over a subset of the nodes: for each node the
    /// targets of the edges that leave it, in the order of the edges, where
    /// both ends are members.
    pub fn outbound(&self, members: &Vec<bool>) -> (lists: Vec<Vec<usize>>)
        ensures
            lists.len() == self@.size,
            forall|u: usize|
                u < self@.size ==> (#[trigger] lists[u as int])@ == targets_within(
                    self@.edges,
                    members@,
                    u,
                ),
    {
        let mut lists: Vec<Vec<usize>> = Vec::new();
        let mut n: usize = 0;
        while n < self.size
            invariant
                n <= self.size,
                lists.len() == n,
                forall|u: usize| u < n ==> (#[trigger] lists[u as int])@ == Seq::<usize>::empty(),
            decreases self.size - n,
        {
            lists.push(Vec::new());
            n = n + 1;
        }
        proof {
            use_type_invariant(self);
        }
        let mut k: usize = 0;
        while k < self.edges.len()
            invariant
                k <= self.edges.len(),
                self@.well_formed(),
                lists.len() == self.size,
                forall|u: usize|
                    u < self.size ==> (#[trigger] lists[u as int])@ == targets_within(
                        self.edges@.take(k as int),
                        members@,
                        u,
                    ),
            decreases self.edges.len() - k,
        {
            let (from, to) = self.edges[k];
            assert(self.edges@.take(k as int + 1).drop_last() =~= self.edges@.take(k as int));
            assert(self@.edges[k as int] == (from, to));
            if from < members.len() && members[from] && to < members.len() && members[to] {
                lists[from].push(to);
            }
            k = k + 1;
        }
        assert(self.edges@.take(k as int) =~= self.edges@);
        lists
    }

    /// The in-degree of every node over a subset of the nodes: for each node
    /// the number of edges that enter it, where both ends are members.
    pub fn in_degrees(&self, members: &Vec<bool>) -> (degrees: Vec<usize>)
        ensures
            degrees.len() == self@.size,
            forall|v: usize|
                v < self@.size ==> #[trigger] degrees[v as int] == in_degree_within(
                    self@.edges,
                    members@,
                    v,
                ),
    {
        let mut degrees: Vec<usize> = Vec::new();
        let mut n: usize = 0;
        while n < self.size
            invariant
                n <= self.size,
                degrees.len() == n,
                forall|v: usize| v < n ==> #[trigger] degrees[v as int] == 0,
            decreases self.size - n,
        {
            degrees.push(0);
            n = n + 1;
        }
        proof {
            use_type_invariant(self);
        }
        let mut k: usize = 0;
        while k < self.edges.len()
            invariant
                k <= self.edges.len(),
                self@.well_formed(),
                degrees.len() == self.size,
                forall|v: usize|
                    v < self.size ==> #[trigger] degrees[v as int] == in_degree_within(
                        self.edges@.take(k as int),
                        members@,
                        v,
                    ),
            decreases self.edges.len() - k,
        {
            let (from, to) = self.edges[k];
            assert(self.edges@.take(k as int + 1).drop_last() =~= self.edges@.take(k as int));
            assert(self@.edges[k as int] == (from, to));
            if from < members.len() && members[from] && to < members.len() && members[to] {
                proof {
                    lemma_pending_in_bound(self.edges@.take(k as int), members@, Set::empty(), to);
                }
                degrees.set(to, degrees[to] + 1);
            }
            k = k + 1;
        }
        assert(self.edges@.take(k as int) =~= self.edges@);
        degrees
    }

    /// The reachability filter: one flag for each node, set for the nodes that
    /// a walk along the edges leads to from the start node.
    pub fn reachable(&self) -> (mask: Vec<bool>)
        ensures
            mask@ == self@.reach_mask(),
    {
        proof {
            use_type_invariant(self);
        }
        let ghost g = self@;
        let mut everyone: Vec<bool> = Vec::new();
        let mut mask: Vec<bool> = Vec::new();
        let mut n: usize = 0;
        while n < self.size
            invariant
                n <= self.size,
                everyone.len() == n,
                mask.len() == n,
                forall|v: int| 0 <= v < n ==> everyone[v],
                forall|v: int| 0 <= v < n ==> !mask[v],
                count_true(mask@) == 0,
            decreases self.size - n,
        {
            let ghost unmarked = mask@;
            everyone.push(true);
            mask.push(false);
            assert(mask@.drop_last() =~= unmarked);
            n = n + 1;
        }
        let lists = self.outbound(&everyone);
        let mut queue: VecDeque<usize> = VecDeque::new();
        queue.push_back(self.start);
        proof {
            lemma_reach_start(g);
            assert(queue@[0] == g.start);
        }
        while queue.len() > 0
            invariant
                g == self@,
                g.well_formed(),
                everyone.len() == g.size,
                forall|v: int| 0 <= v < everyone.len() ==> everyone[v],
                lists.len() == g.size,
                forall|u: usize|
                    u < g.size ==> (#[trigger] lists[u as int])@ == targets_within(
                        g.edges,
                        everyone@,
                        u,
                    ),
                mask.len() == g.size,
                forall|v: usize| v < g.size && #[trigger] mask[v as int] ==> g.reaches(v),
                forall|i: int|
                    0 <= i < queue@.len() ==> (#[trigger] queue@[i]) < g.size && g.reaches(
                        queue@[i],
                    ),
                forall|u: usize, t: usize|
                    u < g.size && mask[u as int] && #[trigger] g.has_edge(u, t) ==> is_member(
                        mask@,
                        t,
                    ) || queue@.contains(t),
                is_member(mask@, g.start) || queue@.contains(g.start),
            decreases g.size - count_true(mask@), queue@.len(),
        {
            let ghost before = queue@;
            let ghost marked = mask@;
            proof {
                lemma_count_true_bound(mask@);
            }
            let u = queue.pop_front().unwrap();
            assert(u == before[0]);
            assert forall|t: usize| before.contains(t) implies t == u || queue@.contains(t) by {
                lemma_tail_contains(before, t);
            }
            if !mask[u] {
                mask.set(u, true);
                proof {
                    lemma_count_true_set(marked, u as int);
                    lemma_count_true_bound(mask@);
                }
                let mut j: usize = 0;
                while j < lists[u].len()
                    invariant
                        j <= lists[u as int].len(),
                        u < g.size,
                        g.well_formed(),
                        everyone.len() == g.size,
                        forall|v: int| 0 <= v < everyone.len() ==> everyone[v],
                        lists.len() == g.size,
                        lists[u as int]@ == targets_within(g.edges, everyone@, u),
                        mask.len() == g.size,
                        mask[u as int],
                        g.reaches(u),
                        forall|i: int|
                            0 <= i < queue@.len() ==> (#[trigger] queue@[i]) < g.size && g.reaches(
                                queue@[i],
                            ),
                        forall|w: usize, t: usize|
                            w < g.size && w != u && mask[w as int] && #[trigger] g.has_edge(w, t)
                                ==> is_member(mask@, t) || queue@.contains(t),
                        forall|i: int|
                            0 <= i < j ==> is_member(mask@, #[trigger] lists[u as int][i])
                                || queue@.contains(lists[u as int][i]),
                        is_member(mask@, g.start) || queue@.contains(g.start),
                    decreases lists[u as int].len() - j,
                {
                    let t = lists[u][j];
                    let ghost waiting = queue@;
                    proof {
                        assert(lists[u as int]@.contains(t));
                        lemma_targets_within(g.edges, everyone@, u, t);
                        lemma_reach_step(g, u, t);
                        let k = choose|k: int| 0 <= k < g.edges.len() && g.edges[k] == (u, t);
                        assert(g.edges[k].1 < g.size);
                    }
                    queue.push_back(t);
                    proof {
                        assert forall|x: usize|
                            #![trigger queue@.contains(x)]
                            waiting.contains(x) || x == t implies queue@.contains(x) by {
                            lemma_push_contains(waiting, t, x);
                        }
                    }
                    j = j + 1;
                }
                proof {
                    assert forall|w: usize, t: usize|
                        w < g.size && mask[w as int] && #[trigger] g.has_edge(w, t) implies is_member(
                        mask@,
                        t,
                    ) || queue@.contains(t) by {
                        if w == u {
                            lemma_targets_within(g.edges, everyone@, u, t);
                            let k = choose|k: int| 0 <= k < g.edges.len() && g.edges[k] == (u, t);
                            assert(g.edges[k].1 < g.size);
                            let i = choose|i: int|
                                0 <= i < lists[u as int]@.len() && lists[u as int]@[i] == t;
                            assert(is_member(mask@, lists[u as int][i]) || queue@.contains(
                                lists[u as int][i],
                            ));
                        }
                    }
                }
            }
        }
        proof {
            assert(queue@.len() == 0);
            assert(!queue@.contains(g.start));
            assert forall|u: usize, t: usize|
                u < g.size && mask@[u as int] && #[trigger] g.has_edge(u, t) implies is_member(
                mask@,
                t,
            ) by {
                assert(!queue@.contains(t));
            }
            assert forall|v: int| 0 <= v < g.size implies mask@[v] == g.reach_mask()[v] by {
                if g.reaches(v as usize) {
                    let walk = choose|walk: Seq<usize>|
                        #[trigger] g.is_walk(walk) && walk[0] == g.start && walk.last() == v as usize;
                    lemma_closed_holds_walk(g, mask@, walk, walk.len() - 1);
                }
            }
            assert(mask@ =~= g.reach_mask());
        }
        mask
    }
}

/// Counts the flags that are set.
pub fn count_set(flags: &Vec<bool>) -> (n: usize)
    ensures
        n == count_true(flags@),
{
    let mut n: usize = 0;
    let mut i: usize = 0;
    while i < flags.len()
        invariant
            i <= flags.len(),
            n == count_true(flags@.take(i as int)),
            n <= i,
        decreases flags.len() - i,
    {
        assert(flags@.take(i as int + 1).drop_last() =~= flags@.take(i as int));
        if flags[i] {
            n = n + 1;
        }
        i = i + 1;
    }
    assert(flags@.take(i as int) =~= flags@);
    n
}

/// The validator: checks the structure of a workflow and builds its graph
/// model. It looks at all nodes and edges, whether or not the start node
/// reaches them.
pub fn validate(workflow: &Workflow) -> (r: Result<GraphModel, RunError>)
    ensures
        match r {
            Ok(g) => structural_error(workflow.nodes@, workflow.edges@) is None && g@ == graph_of(
                workflow.nodes@,
                workflow.edges@,
            ) && g@.well_formed(),
            Err(e) => structural_error(workflow.nodes@, workflow.edges@) == Some(e@),
        },
{
    let nodes = &workflow.nodes;
    let size = nodes.len();
    let ghost wanted = resolved_edges(nodes@, workflow.edges@);
    let first = match find_start(nodes, 0) {
        Some(first) => first,
        None => {
            return Err(RunError::MissingStart);
        },
    };
    proof {
        lemma_next_start(nodes@, 0);
        lemma_resolve(nodes@, nodes[first as int].id@);
    }
    let start = find_node(nodes, &nodes[first].id).unwrap();
    let mut edges: Vec<(usize, usize)> = Vec::new();
    let mut k: usize = 0;
    while k < workflow.edges.len()
        invariant
            k <= workflow.edges.len(),
            nodes == &workflow.nodes,
            wanted == resolved_edges(nodes@, workflow.edges@),
            next_start(nodes@, 0) == Some(first),
            edge_error(nodes@, workflow.edges@.take(k as int)) is None,
            edges@ == wanted.take(k as int),
        decreases workflow.edges.len() - k,
    {
        let edge = &workflow.edges[k];
        assert(workflow.edges@.take(k as int + 1).drop_last() =~= workflow.edges@.take(k as int));
        assert(workflow.edges@.take(k as int + 1).last() == workflow.edges@[k as int]);
        let from = match find_node(nodes, &edge.source_node_id) {
            Some(from) => from,
            None => {
                proof {
                    lemma_edge_error_stays(nodes@, workflow.edges@, k as int + 1);
                }
                return Err(RunError::MissingSource(edge.source_node_id.clone()));
            },
        };
        let to = match find_node(nodes, &edge.target_node_id) {
            Some(to) => to,
            None => {
                proof {
                    lemma_edge_error_stays(nodes@, workflow.edges@, k as int + 1);
                }
                return Err(RunError::MissingTarget(edge.target_node_id.clone()));
            },
        };
        edges.push((from, to));
        k = k + 1;
        assert(edges@ =~= wanted.take(k as int));
    }
    assert(workflow.edges@.take(k as int) =~= workflow.edges@);
    match find_start(nodes, first + 1) {
        Some(second) => {
            proof {
                lemma_next_start(nodes@, first + 1);
            }
            return Err(RunError::DuplicateStart(nodes[second].id.clone()));
        },
        None => {},
    }
    proof {
        assert(edges@ =~= wanted);
        lemma_graph_of_well_formed(nodes@, workflow.edges@);
    }
    Ok(GraphModel { size, edges, start })
}

/// An edge at fault among the first edges is the edge at fault among all.
pub proof fn lemma_edge_error_stays(nodes: Seq<WorkflowNode>, edges: Seq<WorkflowEdge>, k: int)
    requires
        0 <= k <= edges.len(),
        edge_error(nodes, edges.take(k)) is Some,
    ensures
        edge_error(nodes, edges) == edge_error(nodes, edges.take(k)),
    decreases edges.len() - k,
{
    if k < edges.len() {
        assert(edges.take(k + 1).drop_last() =~= edges.take(k));
        lemma_edge_error_stays(nodes, edges, k + 1);
    } else {
        assert(edges.take(k) =~= edges);
    }
}

} // verus!
