//! A whole run, from the workflow to its report, for a caller that can
//! dispatch a batch and wait for it in one call.

use vstd::prelude::*;
use crate::error::{RunError, RunErrorView};
use crate::graph::{graph_of, structural_error};
use crate::laws::lemma_done_count;
use crate::models::{
    NodeOutcome, NodePlan, RunResultView, RunWorkflowResult, Workflow, WorkflowNode,
};
use crate::runner::{execute_node, home_view, node_plan};
use crate::schedule::{first_failure, lemma_after_batch_inv, Schedule};
use crate::scheduler::Scheduler;

verus! {

/// The view of a report or of the error in its place.
pub open spec fn run_view(r: Result<RunWorkflowResult, RunError>) -> Result<
    RunResultView,
    RunErrorView,
> {
    match r {
        Ok(report) => Ok(report@),
        Err(e) => Err(e@),
    }
}

/// Whether the plans are those of the batch: one plan for each node, in the
/// order of the batch.
pub open spec fn plans_of(
    nodes: Seq<WorkflowNode>,
    home: Option<Seq<char>>,
    batch: Seq<usize>,
    plans: Seq<NodePlan>,
) -> bool {
    &&& plans.len() == batch.len()
    &&& forall|i: int|
        0 <= i < batch.len() ==> (#[trigger] plans[i])@ == node_plan(
            nodes[batch[i] as int],
            home,
        )
}

/// The state of a run of the workflow before its first round.
pub open spec fn first_state(workflow: Workflow) -> Schedule {
    Schedule::initial(
        workflow.id@,
        workflow.nodes@,
        graph_of(workflow.nodes@, workflow.edges@),
    )
}

/// Whether a run of the workflow may ask for these plans: the structure of
/// the workflow is sound, and the plans are those of a batch of nodes that
/// the start node reaches.
pub open spec fn may_ask(
    workflow: Workflow,
    home: Option<Seq<char>>,
    batch: Seq<usize>,
    plans: Seq<NodePlan>,
) -> bool {
    &&& structural_error(workflow.nodes@, workflow.edges@) is None
    &&& batch.len() > 0
    &&& forall|i: int|
        0 <= i < batch.len() ==> (#[trigger] batch[i]) < workflow.nodes@.len() && graph_of(
            workflow.nodes@,
            workflow.edges@,
        ).reaches(batch[i])
    &&& plans_of(workflow.nodes@, home, batch, plans)
}

/// The outcomes of each round as sequences.
pub open spec fn outcomes_of(told: Seq<Vec<NodeOutcome>>) -> Seq<Seq<NodeOutcome>> {
    Seq::new(told.len(), |k: int| told[k]@)
}

/// The state after the given rounds, each with the outcomes of its batch.
pub open spec fn after_rounds(s: Schedule, rounds: Seq<Seq<NodeOutcome>>) -> Schedule
    decreases rounds.len(),
{
    if rounds.len() == 0 {
        s
    } else {
        after_rounds(s, rounds.drop_last()).after_batch(rounds.last())
    }
}

/// Whether round `k` is a round of a run that began in state `first`: it
/// begins with no failure behind it and with nodes ready, and `dispatch` was
/// asked for the plans of the ready nodes and told the outcomes of the round.
pub open spec fn is_round<F: Fn(Vec<NodePlan>) -> Vec<NodeOutcome>>(
    first: Schedule,
    home: Option<Seq<char>>,
    dispatch: F,
    asked: Seq<Vec<NodePlan>>,
    told: Seq<Vec<NodeOutcome>>,
    k: int,
) -> bool {
    let s = after_rounds(first, outcomes_of(told).take(k));
    &&& s.failure is None
    &&& s.ready.len() > 0
    &&& plans_of(s.nodes, home, s.ready, asked[k]@)
    &&& dispatch.ensures((asked[k],), told[k])
}

/// Whether the rounds are those of a run that began in state `first`.
pub open spec fn is_run<F: Fn(Vec<NodePlan>) -> Vec<NodeOutcome>>(
    first: Schedule,
    home: Option<Seq<char>>,
    dispatch: F,
    asked: Seq<Vec<NodePlan>>,
    told: Seq<Vec<NodeOutcome>>,
) -> bool {
    &&& asked.len() == told.len()
    &&& forall|k: int|
        0 <= k < told.len() ==> #[trigger] is_round(first, home, dispatch, asked, told, k)
}

/// The state after one more round.
proof fn lemma_after_one_more(first: Schedule, told: Seq<Vec<NodeOutcome>>, outcomes: Vec<NodeOutcome>)
    ensures
        after_rounds(first, outcomes_of(told.push(outcomes))) == after_rounds(
            first,
            outcomes_of(told),
        ).after_batch(outcomes@),
{
    let more = told.push(outcomes);
    assert(outcomes_of(more).drop_last() =~= outcomes_of(told));
    assert(outcomes_of(more).last() == outcomes@);
}

/// A run of one more round.
proof fn lemma_one_more_round<F: Fn(Vec<NodePlan>) -> Vec<NodeOutcome>>(
    first: Schedule,
    home: Option<Seq<char>>,
    dispatch: F,
    asked: Seq<Vec<NodePlan>>,
    told: Seq<Vec<NodeOutcome>>,
    plans: Vec<NodePlan>,
    outcomes: Vec<NodeOutcome>,
)
    requires
        is_run(first, home, dispatch, asked, told),
        after_rounds(first, outcomes_of(told)).failure is None,
        after_rounds(first, outcomes_of(told)).ready.len() > 0,
        plans_of(
            after_rounds(first, outcomes_of(told)).nodes,
            home,
            after_rounds(first, outcomes_of(told)).ready,
            plans@,
        ),
        dispatch.ensures((plans,), outcomes),
    ensures
        is_run(first, home, dispatch, asked.push(plans), told.push(outcomes)),
{
    let more = told.push(outcomes);
    let wanted = asked.push(plans);
    assert forall|k: int| 0 <= k < more.len() implies #[trigger] is_round(
        first,
        home,
        dispatch,
        wanted,
        more,
        k,
    ) by {
        if k < told.len() {
            assert(is_round(first, home, dispatch, asked, told, k));
            assert(outcomes_of(more).take(k) =~= outcomes_of(told).take(k));
            assert(wanted[k] == asked[k]);
            assert(more[k] == told[k]);
        } else {
            assert(outcomes_of(more).take(k) =~= outcomes_of(told));
            assert(wanted[k] == plans);
            assert(more[k] == outcomes);
        }
    }
}

/// Runs a workflow to its end. The workflow is validated first; a workflow
/// whose structure is unsound is refused before anything is dispatched.
/// Then, round by round, the plans of the nodes that are ready are handed
/// to `dispatch`, which performs them, waits for all of them, and returns one
/// outcome for each plan in the same order. The first outcome of a round
/// that is no success ends the run with its error, and nothing is
/// dispatched after that round. Once nothing is ready, the run ends with the
/// verdict of the state it has reached. `home` is the home directory, where
/// it is known.
///
/// `dispatch` need only accept what a run may ask for: nothing at all for a
/// workflow whose structure is unsound, and else the plans of reachable nodes.
pub fn run_workflow<F: Fn(Vec<NodePlan>) -> Vec<NodeOutcome>>(
    workflow: Workflow,
    home: Option<&str>,
    dispatch: F,
) -> (r: Result<RunWorkflowResult, RunError>)
    requires
        forall|batch: Seq<usize>, plans: Vec<NodePlan>|
            #[trigger] may_ask(workflow, home_view(home), batch, plans@) ==> dispatch.requires(
                (plans,),
            ),
        forall|plans: Vec<NodePlan>, outcomes: Vec<NodeOutcome>|
            #[trigger] dispatch.ensures((plans,), outcomes) ==> outcomes.len() == plans.len(),
    ensures
        match structural_error(workflow.nodes@, workflow.edges@) {
            Some(e) => run_view(r) == Err::<RunResultView, _>(e),
            None => exists|asked: Seq<Vec<NodePlan>>, told: Seq<Vec<NodeOutcome>>|
                {
                    let end = after_rounds(first_state(workflow), outcomes_of(told));
                    &&& #[trigger] is_run(
                        first_state(workflow),
                        home_view(home),
                        dispatch,
                        asked,
                        told,
                    )
                    &&& end.inv()
                    &&& end.ready.len() == 0
                    &&& run_view(r) == end.verdict()
                },
        },
{
    let ghost first = first_state(workflow);
    let mut scheduler = match Scheduler::new(workflow) {
        Ok(scheduler) => scheduler,
        Err(e) => {
            return Err(e);
        },
    };
    let ghost mut asked: Seq<Vec<NodePlan>> = Seq::empty();
    let ghost mut told: Seq<Vec<NodeOutcome>> = Seq::empty();
    assert(outcomes_of(told) =~= Seq::empty());
    loop
        invariant
            first == first_state(workflow),
            structural_error(workflow.nodes@, workflow.edges@) is None,
            scheduler.wf(),
            scheduler@ == after_rounds(first, outcomes_of(told)),
            scheduler@.nodes == workflow.nodes@,
            scheduler@.graph == graph_of(workflow.nodes@, workflow.edges@),
            scheduler@.failure is None,
            is_run(first, home_view(home), dispatch, asked, told),
            forall|batch: Seq<usize>, plans: Vec<NodePlan>|
                #[trigger] may_ask(workflow, home_view(home), batch, plans@)
                    ==> dispatch.requires((plans,)),
            forall|plans: Vec<NodePlan>, outcomes: Vec<NodeOutcome>|
                #[trigger] dispatch.ensures((plans,), outcomes) ==> outcomes.len() == plans.len(),
        decreases scheduler@.graph.reach_count() - scheduler@.done.len(),
    {
        let ghost before = scheduler@;
        proof {
            scheduler.lemma_wf();
            lemma_done_count(before);
        }
        let batch = scheduler.next_batch();
        if batch.len() == 0 {
            let r = scheduler.finish();
            assert(run_view(r) == before.verdict());
            return r;
        }
        let mut plans: Vec<NodePlan> = Vec::new();
        let mut i: usize = 0;
        while i < batch.len()
            invariant
                i <= batch.len(),
                plans.len() == i,
                scheduler@ == before,
                before.inv(),
                batch@ == before.ready,
                forall|k: int|
                    0 <= k < i ==> (#[trigger] plans[k])@ == node_plan(
                        before.nodes[batch[k] as int],
                        home_view(home),
                    ),
            decreases batch.len() - i,
        {
            assert(before.ready[i as int] < before.nodes.len());
            let node = scheduler.node(batch[i]).unwrap();
            plans.push(execute_node(node, home));
            i = i + 1;
        }
        let ghost handed = plans;
        assert(may_ask(workflow, home_view(home), batch@, plans@));
        let outcomes = dispatch(plans);
        proof {
            lemma_one_more_round(first, home_view(home), dispatch, asked, told, handed, outcomes);
            lemma_after_one_more(first, told, outcomes);
            asked = asked.push(handed);
            told = told.push(outcomes);
        }
        match scheduler.record(outcomes) {
            Ok(_) => {
                proof {
                    scheduler.lemma_wf();
                    lemma_done_count(scheduler@);
                }
            },
            Err(e) => {
                proof {
                    scheduler.lemma_wf();
                }
                return Err(e);
            },
        }
    }
}

/// Every round of a run begins in a state of a run: the invariant of a run
/// holds before each round and after the last. So only reachable nodes are
/// ever handed to `dispatch`, each after all that it depends on.
pub proof fn law_run_keeps_invariant<F: Fn(Vec<NodePlan>) -> Vec<NodeOutcome>>(
    first: Schedule,
    home: Option<Seq<char>>,
    dispatch: F,
    asked: Seq<Vec<NodePlan>>,
    told: Seq<Vec<NodeOutcome>>,
    k: int,
)
    requires
        first.inv(),
        is_run(first, home, dispatch, asked, told),
        forall|plans: Vec<NodePlan>, outcomes: Vec<NodeOutcome>|
            #[trigger] dispatch.ensures((plans,), outcomes) ==> outcomes.len() == plans.len(),
        0 <= k <= told.len(),
    ensures
        after_rounds(first, outcomes_of(told).take(k)).inv(),
    decreases k,
{
    let rounds = outcomes_of(told).take(k);
    if k > 0 {
        law_run_keeps_invariant(first, home, dispatch, asked, told, k - 1);
        assert(rounds.drop_last() =~= outcomes_of(told).take(k - 1));
        assert(rounds.last() == told[k - 1]@);
        assert(is_round(first, home, dispatch, asked, told, k - 1));
        let s = after_rounds(first, outcomes_of(told).take(k - 1));
        assert(dispatch.ensures((asked[k - 1],), told[k - 1]));
        lemma_after_batch_inv(s, told[k - 1]@);
    } else {
        assert(rounds =~= Seq::empty());
    }
}

/// A run in which every outcome is a success has no failure.
pub proof fn law_run_without_failure(first: Schedule, rounds: Seq<Seq<NodeOutcome>>)
    requires
        first.failure is None,
        forall|k: int, i: int|
            0 <= k < rounds.len() && 0 <= i < rounds[k].len() ==> #[trigger] rounds[k][i]
                is Succeeded,
    ensures
        after_rounds(first, rounds).failure is None,
    decreases rounds.len(),
{
    if rounds.len() > 0 {
        let front = rounds.drop_last();
        assert forall|k: int, i: int| 0 <= k < front.len() && 0 <= i < front[k].len() implies 
            #[trigger] front[k][i] is Succeeded by {
            assert(rounds[k][i] is Succeeded);
        }
        law_run_without_failure(first, front);
        let s = after_rounds(first, front);
        let last = rounds.last();
        if first_failure(s.nodes, s.ready, last) is Some {
            let i = lemma_failure_has_cause(s.nodes, s.ready, last);
            assert(rounds[rounds.len() - 1][i] is Succeeded);
        }
    }
}

/// Where a batch has a failure, one of its outcomes is no success.
pub proof fn lemma_failure_has_cause(
    nodes: Seq<WorkflowNode>,
    batch: Seq<usize>,
    outcomes: Seq<NodeOutcome>,
) -> (i: int)
    requires
        first_failure(nodes, batch, outcomes) is Some,
    ensures
        0 <= i < outcomes.len(),
        !(outcomes[i] is Succeeded),
    decreases outcomes.len(),
{
    if first_failure(nodes, batch, outcomes.drop_last()) is Some {
        lemma_failure_has_cause(nodes, batch, outcomes.drop_last())
    } else {
        outcomes.len() - 1
    }
}

} // verus!
