//! The scheduler: it hands out the nodes of a workflow round by round, takes
//! in how each round ended, and makes the report of the run.

use vstd::prelude::*;
use vstd::string::StringExecFns;
use crate::error::{RunError, RunErrorView};
use crate::graph::{
    count_set, graph_of, lemma_pending_in_bound,
    lemma_targets_within, structural_error, validate, Graph,
};
use crate::models::{
    result_views, NodeExecutionResult, NodeOutcome, RunWorkflowResult, Workflow, WorkflowNode,
};
use crate::schedule::{
    batch_results, failure_message, first_failure, lemma_after_batch_inv, lemma_initial_inv,
    relax, relax_batch, result_view, seeds_below, Schedule,
};

verus! {

/// The view of an error that may be there.
pub open spec fn error_view(e: Option<RunError>) -> Option<RunErrorView> {
    match e {
        Some(e) => Some(e@),
        None => None,
    }
}

/// The message of a node that reported a failure.
pub fn node_failure_message(id: &String, reason: &String) -> (message: String)
    ensures
        message@ == failure_message(id@, reason@),
{
    String::from_str("Node ").concat(id.as_str()).concat(" failed: ").concat(reason.as_str())
}

/// The result of a node whose worker was joined, and nothing for a node
/// whose worker was lost.
pub fn node_result(node: &WorkflowNode, outcome: &NodeOutcome) -> (r: Option<NodeExecutionResult>)
    ensures
        match r {
            Some(result) => !(outcome is Lost) && result@ == result_view(*node, *outcome),
            None => outcome is Lost,
        },
{
    match outcome {
        NodeOutcome::Succeeded(message) => Some(
            NodeExecutionResult {
                node_id: node.id.clone(),
                node_type: node.node_type,
                success: true,
                message: message.clone(),
            },
        ),
        NodeOutcome::Failed(reason) => Some(
            NodeExecutionResult {
                node_id: node.id.clone(),
                node_type: node.node_type,
                success: false,
                message: node_failure_message(&node.id, reason),
            },
        ),
        NodeOutcome::Lost(_) => None,
    }
}

/// Looks through the outcomes of a batch in dispatch order. The first outcome
/// that is no success decides: its error is returned. With successes only,
/// the results of the batch are returned, in dispatch order.
pub fn judge(nodes: &Vec<WorkflowNode>, batch: &Vec<usize>, outcomes: &Vec<NodeOutcome>) -> (r:
    Result<Vec<NodeExecutionResult>, RunError>)
    requires
        outcomes.len() == batch.len(),
        forall|i: int| 0 <= i < batch.len() ==> (#[trigger] batch[i]) < nodes.len(),
    ensures
        match r {
            Ok(results) => first_failure(nodes@, batch@, outcomes@) is None && result_views(
                results@,
            ) == batch_results(nodes@, batch@, outcomes@),
            Err(e) => first_failure(nodes@, batch@, outcomes@) == Some(e@),
        },
{
    let mut results: Vec<NodeExecutionResult> = Vec::new();
    let mut i: usize = 0;
    while i < outcomes.len()
        invariant
            i <= outcomes.len(),
            outcomes.len() == batch.len(),
            forall|i: int| 0 <= i < batch.len() ==> (#[trigger] batch[i]) < nodes.len(),
            first_failure(nodes@, batch@, outcomes@.take(i as int)) is None,
            results.len() == i,
            forall|k: int|
                0 <= k < i ==> (#[trigger] results[k])@ == result_view(
                    nodes[batch[k] as int],
                    outcomes[k],
                ),
        decreases outcomes.len() - i,
    {
        let node = &nodes[batch[i]];
        assert(outcomes@.take(i as int + 1).drop_last() =~= outcomes@.take(i as int));
        assert(outcomes@.take(i as int + 1).last() == outcomes[i as int]);
        match &outcomes[i] {
            NodeOutcome::Succeeded(message) => {
                results.push(
                    NodeExecutionResult {
                        node_id: node.id.clone(),
                        node_type: node.node_type,
                        success: true,
                        message: message.clone(),
                    },
                );
            },
            NodeOutcome::Failed(reason) => {
                proof {
                    lemma_first_failure_stays(nodes@, batch@, outcomes@, i as int + 1);
                }
                return Err(RunError::NodeFailed(node_failure_message(&node.id, reason)));
            },
            NodeOutcome::Lost(reason) => {
                proof {
                    lemma_first_failure_stays(nodes@, batch@, outcomes@, i as int + 1);
                }
                return Err(RunError::WorkerLost(reason.clone()));
            },
        }
        i = i + 1;
    }
    assert(outcomes@.take(i as int) =~= outcomes@);
    assert(result_views(results@) =~= batch_results(nodes@, batch@, outcomes@));
    Ok(results)
}

/// A failure among the first outcomes is the first failure among all.
pub proof fn lemma_first_failure_stays(
    nodes: Seq<WorkflowNode>,
    batch: Seq<usize>,
    outcomes: Seq<NodeOutcome>,
    k: int,
)
    requires
        0 <= k <= outcomes.len(),
        first_failure(nodes, batch, outcomes.take(k)) is Some,
    ensures
        first_failure(nodes, batch, outcomes) == first_failure(nodes, batch, outcomes.take(k)),
    decreases outcomes.len() - k,
{
    if k < outcomes.len() {
        assert(outcomes.take(k + 1).drop_last() =~= outcomes.take(k));
        lemma_first_failure_stays(nodes, batch, outcomes, k + 1);
    } else {
        assert(outcomes.take(k) =~= outcomes);
    }
}

/// Takes one in-degree away from each target in turn and queues the targets
/// whose in-degree becomes zero.
pub fn relax_targets(indegree: &mut Vec<usize>, queue: &mut Vec<usize>, targets: &Vec<usize>)
    requires
        forall|j: int| 0 <= j < targets.len() ==> (#[trigger] targets[j]) < old(indegree).len(),
    ensures
        (final(indegree)@, final(queue)@) == relax(old(indegree)@, old(queue)@, targets@),
        final(indegree).len() == old(indegree).len(),
{
    let mut j: usize = 0;
    while j < targets.len()
        invariant
            j <= targets.len(),
            indegree.len() == old(indegree).len(),
            forall|j: int| 0 <= j < targets.len() ==> (#[trigger] targets[j]) < indegree.len(),
            (indegree@, queue@) == relax(old(indegree)@, old(queue)@, targets@.take(j as int)),
        decreases targets.len() - j,
    {
        let t = targets[j];
        assert(targets@.take(j as int + 1).drop_last() =~= targets@.take(j as int));
        assert(targets@.take(j as int + 1).last() == t);
        let degree = indegree[t];
        let lower: usize = if degree > 0 {
            degree - 1
        } else {
            0
        };
        indegree.set(t, lower);
        if lower == 0 {
            queue.push(t);
        }
        j = j + 1;
    }
    assert(targets@.take(j as int) =~= targets@);
}

/// The lists of a table as sequences.
pub open spec fn lists_view(lists: Seq<Vec<usize>>) -> Seq<Seq<usize>> {
    Seq::new(lists.len(), |u: int| lists[u]@)
}

/// Relaxes the targets of each node of a batch, node by node in the order
/// of the batch.
pub fn relax_nodes(
    outbound: &Vec<Vec<usize>>,
    indegree: &mut Vec<usize>,
    queue: &mut Vec<usize>,
    batch: &Vec<usize>,
)
    requires
        forall|i: int| 0 <= i < batch.len() ==> (#[trigger] batch[i]) < outbound.len(),
        forall|u: int, j: int|
            0 <= u < outbound.len() && 0 <= j < outbound[u].len() ==> (#[trigger] outbound[u][j])
                < old(indegree).len(),
    ensures
        (final(indegree)@, final(queue)@) == relax_batch(
            lists_view(outbound@),
            old(indegree)@,
            old(queue)@,
            batch@,
        ),
        final(indegree).len() == old(indegree).len(),
{
    let mut i: usize = 0;
    while i < batch.len()
        invariant
            i <= batch.len(),
            indegree.len() == old(indegree).len(),
            forall|i: int| 0 <= i < batch.len() ==> (#[trigger] batch[i]) < outbound.len(),
            forall|u: int, j: int|
                0 <= u < outbound.len() && 0 <= j < outbound[u].len() ==> (
                #[trigger] outbound[u][j]) < indegree.len(),
            (indegree@, queue@) == relax_batch(
                lists_view(outbound@),
                old(indegree)@,
                old(queue)@,
                batch@.take(i as int),
            ),
        decreases batch.len() - i,
    {
        let u = batch[i];
        assert(batch@.take(i as int + 1).drop_last() =~= batch@.take(i as int));
        assert(batch@.take(i as int + 1).last() == u);
        assert(lists_view(outbound@)[u as int] == outbound[u as int]@);
        relax_targets(indegree, queue, &outbound[u]);
        i = i + 1;
    }
    assert(batch@.take(i as int) =~= batch@);
}


/// A second value of the same error.
pub fn copy_error(e: &RunError) -> (copy: RunError)
    ensures
        copy@ == e@,
{
    match e {
        RunError::MissingStart => RunError::MissingStart,
        RunError::DuplicateStart(id) => RunError::DuplicateStart(id.clone()),
        RunError::MissingSource(id) => RunError::MissingSource(id.clone()),
        RunError::MissingTarget(id) => RunError::MissingTarget(id.clone()),
        RunError::Cycle => RunError::Cycle,
        RunError::NodeFailed(message) => RunError::NodeFailed(message.clone()),
        RunError::WorkerLost(reason) => RunError::WorkerLost(reason.clone()),
    }
}

/// The state of one run. The caller dispatches what `next_batch` hands out,
/// waits for the whole batch, gives the outcomes to `record`, and goes on
/// until nothing is handed out; `finish` then makes the report.
pub struct Scheduler {
    workflow_id: String,
    nodes: Vec<WorkflowNode>,
    graph: Ghost<Graph>,
    reach_count: usize,
    outbound: Vec<Vec<usize>>,
    indegree: Vec<usize>,
    ready: Vec<usize>,
    done: Ghost<Seq<usize>>,
    results: Vec<NodeExecutionResult>,
    failure: Option<RunError>,
}

impl View for Scheduler {
    type V = Schedule;

    closed spec fn view(&self) -> Schedule {
        Schedule {
            workflow_id: self.workflow_id@,
            nodes: self.nodes@,
            graph: self.graph@,
            indegree: self.indegree@,
            ready: self.ready@,
            done: self.done@,
            results: result_views(self.results@),
            failure: error_view(self.failure),
        }
    }
}

impl Scheduler {
    /// Whether the scheduler is in a state of a run of its workflow.
    pub closed spec fn wf(&self) -> bool {
        &&& self@.inv()
        &&& self.reach_count == self.graph@.reach_count()
        &&& lists_view(self.outbound@) == self.graph@.outbound()
    }

    /// A scheduler in a state of a run has a state of which the invariant holds.
    pub proof fn lemma_wf(&self)
        requires
            self.wf(),
        ensures
            self@.inv(),
    {
    }

    /// Validates the workflow, keeps what the start node reaches, and gets
    /// the first round ready: the reachable nodes that no reachable edge
    /// enters. A workflow whose structure is unsound is refused.
    pub fn new(workflow: Workflow) -> (r: Result<Scheduler, RunError>)
        ensures
            match r {
                Ok(s) => {
                    &&& structural_error(workflow.nodes@, workflow.edges@) is None
                    &&& s.wf()
                    &&& s@ == Schedule::initial(
                        workflow.id@,
                        workflow.nodes@,
                        graph_of(workflow.nodes@, workflow.edges@),
                    )
                },
                Err(e) => structural_error(workflow.nodes@, workflow.edges@) == Some(e@),
            },
    {
        let model = match validate(&workflow) {
            Ok(model) => model,
            Err(e) => {
                return Err(e);
            },
        };
        let ghost g = model@;
        let size = workflow.nodes.len();
        let reach = model.reachable();
        let reach_count = count_set(&reach);
        let outbound = model.outbound(&reach);
        let indegree = model.in_degrees(&reach);
        proof {
            assert forall|v: int| 0 <= v < size implies indegree@[v] == g.in_degrees()[v] by {
                lemma_pending_in_bound(g.edges, g.reach_mask(), Set::empty(), v as usize);
            }
            assert(indegree@ =~= g.in_degrees());
            assert(lists_view(outbound@) =~= g.outbound());
        }
        let mut ready: Vec<usize> = Vec::new();
        let mut v: usize = 0;
        while v < size
            invariant
                v <= size,
                size == g.size,
                reach@ == g.reach_mask(),
                indegree@ == g.in_degrees(),
                ready@ == seeds_below(g, v as nat),
            decreases size - v,
        {
            if reach[v] && indegree[v] == 0 {
                ready.push(v);
            }
            v = v + 1;
        }
        let s = Scheduler {
            workflow_id: workflow.id,
            nodes: workflow.nodes,
            graph: Ghost(g),
            reach_count,
            outbound,
            indegree,
            ready,
            done: Ghost(Seq::empty()),
            results: Vec::new(),
            failure: None,
        };
        proof {
            let first = Schedule::initial(workflow.id@, workflow.nodes@, g);
            lemma_initial_inv(workflow.id@, workflow.nodes@, g);
            assert(s@.results =~= first.results);
            assert(s@ == first);
        }
        Ok(s)
    }

    /// The node with the given number, if there is one.
    pub fn node(&self, v: usize) -> (r: Option<&WorkflowNode>)
        ensures
            r == if v < self@.nodes.len() {
                Some(&self@.nodes[v as int])
            } else {
                None
            },
    {
        if v < self.nodes.len() {
            Some(&self.nodes[v])
        } else {
            None
        }
    }

    /// The nodes to dispatch in the next round, in dispatch order. The run
    /// is over once nothing is handed out.
    pub fn next_batch(&self) -> (batch: Vec<usize>)
        ensures
            batch@ == self@.ready,
    {
        let mut batch: Vec<usize> = Vec::new();
        let mut i: usize = 0;
        while i < self.ready.len()
            invariant
                i <= self.ready.len(),
                batch@ == self.ready@.take(i as int),
            decreases self.ready.len() - i,
        {
            batch.push(self.ready[i]);
            i = i + 1;
            assert(batch@ =~= self.ready@.take(i as int));
        }
        assert(self.ready@.take(i as int) =~= self.ready@);
        batch
    }

    /// Takes in how the round ended: one outcome for each node handed out,
    /// in dispatch order, once the whole batch has been joined. The first
    /// outcome that is no success fails the run: its error is returned and
    /// nothing is handed out any more. With successes only, the results are
    /// kept and the nodes that now depend on nothing else become ready.
    pub fn record(&mut self, outcomes: Vec<NodeOutcome>) -> (r: Result<(), RunError>)
        requires
            old(self).wf(),
            outcomes.len() == old(self)@.ready.len(),
        ensures
            final(self).wf(),
            final(self)@ == old(self)@.after_batch(outcomes@),
            match r {
                Ok(_) => first_failure(old(self)@.nodes, old(self)@.ready, outcomes@) is None,
                Err(e) => first_failure(old(self)@.nodes, old(self)@.ready, outcomes@) == Some(
                    e@,
                ),
            },
    {
        let ghost before = self@;
        let ghost g = self.graph@;
        proof {
            lemma_after_batch_inv(before, outcomes@);
            assert forall|u: int, j: int|
                0 <= u < self.outbound.len() && 0 <= j < self.outbound[u].len() implies (
            #[trigger] self.outbound[u][j]) < self.indegree.len() by {
                let t = self.outbound[u][j];
                assert(lists_view(self.outbound@)[u] == self.outbound[u]@);
                assert(self.outbound[u]@.contains(t));
                lemma_targets_within(g.edges, g.reach_mask(), u as usize, t);
            }
            assert(lists_view(self.outbound@).len() == g.size);
        }
        let mut batch: Vec<usize> = Vec::new();
        std::mem::swap(&mut batch, &mut self.ready);
        match judge(&self.nodes, &batch, &outcomes) {
            Err(e) => {
                self.failure = Some(copy_error(&e));
                proof {
                    assert(self@.ready =~= Seq::empty());
                    assert(self@ == before.after_batch(outcomes@));
                }
                Err(e)
            },
            Ok(mut fresh) => {
                let ghost kept = self.results@;
                let ghost added = fresh@;
                relax_nodes(&self.outbound, &mut self.indegree, &mut self.ready, &batch);
                self.results.append(&mut fresh);
                self.done = Ghost(self.done@ + batch@);
                proof {
                    assert(self.results@ =~= kept + added);
                    assert(result_views(kept + added) =~= result_views(kept) + result_views(added));
                    assert(self@ == before.after_batch(outcomes@));
                }
                Ok(())
            },
        }
    }

    /// Ends the run once nothing is ready any more. A run that failed ends
    /// with its failure. Otherwise the count of completed nodes is held
    /// against the count of reachable nodes: short of it, the reachable part
    /// holds a cycle and the run ends with the cycle error; else the report
    /// lists every result in the order of completion.
    pub fn finish(self) -> (r: Result<RunWorkflowResult, RunError>)
        requires
            self.wf(),
            self@.ready.len() == 0,
        ensures
            match r {
                Ok(report) => self@.verdict() == Ok::<_, RunErrorView>(report@),
                Err(e) => self@.verdict() == Err::<crate::models::RunResultView, _>(e@),
            },
    {
        match self.failure {
            Some(e) => Err(e),
            None => {
                let completed = self.results.len();
                if completed != self.reach_count {
                    Err(RunError::Cycle)
                } else {
                    Ok(
                        RunWorkflowResult {
                            workflow_id: self.workflow_id,
                            completed_nodes: completed,
                            results: self.results,
                        },
                    )
                }
            },
        }
    }
}

} // verus!
