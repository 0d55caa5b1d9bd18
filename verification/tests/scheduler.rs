use quicktools::error::RunError;
use quicktools::graph::{count_set, validate};
use quicktools::models::{
    NodeExecutionResult, NodeOutcome, NodeType, ParamValue, Workflow, WorkflowEdge, WorkflowNode,
};
use quicktools::scheduler::{node_result, Scheduler};

fn node(id: &str, node_type: NodeType) -> WorkflowNode {
    WorkflowNode { id: id.to_string(), node_type, params: ParamValue::Null }
}

fn edge(source: &str, target: &str) -> WorkflowEdge {
    WorkflowEdge {
        source_node_id: source.to_string(),
        target_node_id: target.to_string(),
        source_handle_id: None,
        target_handle_id: None,
    }
}

fn workflow(nodes: Vec<WorkflowNode>, edges: Vec<WorkflowEdge>) -> Workflow {
    Workflow { id: "wf-1".to_string(), name: "Test".to_string(), nodes, edges }
}

fn steps(ids: &[&str]) -> Vec<WorkflowNode> {
    ids.iter()
        .enumerate()
        .map(|(i, id)| node(id, if i == 0 { NodeType::Start } else { NodeType::OpenBrowser }))
        .collect()
}

fn edges(pairs: &[(&str, &str)]) -> Vec<WorkflowEdge> {
    pairs.iter().map(|(s, t)| edge(s, t)).collect()
}

fn all_succeed(scheduler: &Scheduler, batch: &[usize]) -> Vec<NodeOutcome> {
    batch
        .iter()
        .map(|v| NodeOutcome::Succeeded(format!("ran {}", scheduler.node(*v).unwrap().id)))
        .collect()
}

/// Runs every round with success and returns the rounds with the scheduler.
fn run_all(wf: Workflow) -> (Vec<Vec<usize>>, Scheduler) {
    let mut scheduler = Scheduler::new(wf).unwrap();
    let mut rounds: Vec<Vec<usize>> = Vec::new();
    loop {
        let batch = scheduler.next_batch();
        if batch.is_empty() {
            break;
        }
        let outcomes = all_succeed(&scheduler, &batch);
        rounds.push(batch);
        scheduler.record(outcomes).unwrap();
    }
    (rounds, scheduler)
}

#[test]
fn diamond_runs_in_dependency_order() {
    let wf = workflow(
        steps(&["start", "a", "b", "c", "d"]),
        edges(&[("start", "a"), ("a", "b"), ("a", "c"), ("b", "d"), ("c", "d")]),
    );
    let (rounds, scheduler) = run_all(wf);
    assert_eq!(rounds, vec![vec![0], vec![1], vec![2, 3], vec![4]]);
    let report = scheduler.finish().unwrap();
    assert_eq!(report.workflow_id, "wf-1");
    assert_eq!(report.completed_nodes, 5);
    let ids: Vec<&str> = report.results.iter().map(|r| r.node_id.as_str()).collect();
    assert_eq!(ids, vec!["start", "a", "b", "c", "d"]);
    let place = |id: &str| ids.iter().position(|x| *x == id).unwrap();
    assert!(place("a") < place("d"));
    assert!(place("b") < place("d"));
    assert!(place("c") < place("d"));
    assert!(report.results.iter().all(|r| r.success));
    assert_eq!(report.results[1].message, "ran a");
    assert_eq!(report.results[1].node_type, NodeType::OpenBrowser);
    assert_eq!(report.results[0].node_type, NodeType::Start);
}

#[test]
fn diamond_from_the_start_node() {
    let wf = workflow(
        steps(&["a", "b", "c", "d"]),
        edges(&[("a", "b"), ("a", "c"), ("b", "d"), ("c", "d")]),
    );
    let (rounds, scheduler) = run_all(wf);
    assert_eq!(rounds, vec![vec![0], vec![1, 2], vec![3]]);
    let report = scheduler.finish().unwrap();
    assert_eq!(report.completed_nodes, 4);
    let ids: Vec<&str> = report.results.iter().map(|r| r.node_id.as_str()).collect();
    let place = |id: &str| ids.iter().position(|x| *x == id).unwrap();
    assert!(place("a") < place("d"));
    assert!(place("b") < place("d"));
    assert!(place("c") < place("d"));
}

#[test]
fn cycle_through_start_is_reported() {
    let wf = workflow(steps(&["start", "a"]), edges(&[("start", "a"), ("a", "start")]));
    let scheduler = Scheduler::new(wf).unwrap();
    assert!(scheduler.next_batch().is_empty());
    let error = scheduler.finish().unwrap_err();
    assert_eq!(error, RunError::Cycle);
    assert_eq!(error.message(), "Workflow contains a dependency cycle");
    assert!(!error.is_structural());
}

#[test]
fn cycle_behind_start_leaves_partial_work() {
    let wf = workflow(
        steps(&["start", "a", "b", "c"]),
        edges(&[("start", "a"), ("a", "b"), ("b", "c"), ("c", "b")]),
    );
    let (rounds, scheduler) = run_all(wf);
    assert_eq!(rounds, vec![vec![0], vec![1]]);
    assert_eq!(scheduler.finish().unwrap_err(), RunError::Cycle);
}

#[test]
fn self_loop_is_a_cycle() {
    let wf = workflow(steps(&["start", "a"]), edges(&[("start", "a"), ("a", "a")]));
    let (rounds, scheduler) = run_all(wf);
    assert_eq!(rounds, vec![vec![0]]);
    assert_eq!(scheduler.finish().unwrap_err(), RunError::Cycle);
}

#[test]
fn missing_start_is_refused() {
    let wf = workflow(
        vec![node("a", NodeType::Delay), node("b", NodeType::OpenApp)],
        edges(&[("a", "b")]),
    );
    let error = Scheduler::new(wf).err().unwrap();
    assert_eq!(error, RunError::MissingStart);
    assert_eq!(error.message(), "Workflow is missing a START node");
    assert!(error.is_structural());
}

#[test]
fn empty_workflow_is_missing_its_start() {
    let error = Scheduler::new(workflow(vec![], vec![])).err().unwrap();
    assert_eq!(error, RunError::MissingStart);
}

#[test]
fn missing_start_is_found_before_a_dangling_edge() {
    let wf = workflow(vec![node("a", NodeType::Delay)], edges(&[("a", "ghost")]));
    assert_eq!(Scheduler::new(wf).err().unwrap(), RunError::MissingStart);
}

#[test]
fn second_start_is_refused() {
    let wf = workflow(
        vec![
            node("s1", NodeType::Start),
            node("a", NodeType::Delay),
            node("s2", NodeType::Start),
        ],
        edges(&[("s1", "a")]),
    );
    let error = Scheduler::new(wf).err().unwrap();
    assert_eq!(error, RunError::DuplicateStart("s2".to_string()));
    assert_eq!(error.message(), "Workflow has more than one START node: s2");
    assert!(error.is_structural());
}

#[test]
fn dangling_edge_is_named_also_with_a_second_start() {
    let wf = workflow(
        vec![
            node("s1", NodeType::Start),
            node("a", NodeType::Delay),
            node("s2", NodeType::Start),
        ],
        edges(&[("s1", "a"), ("a", "ghost"), ("phantom", "a")]),
    );
    let error = Scheduler::new(wf).err().unwrap();
    assert_eq!(error, RunError::MissingTarget("ghost".to_string()));
    assert_eq!(error.message(), "Invalid edge: target node ghost does not exist");
    let wf = workflow(
        vec![node("s1", NodeType::Start), node("s2", NodeType::Start)],
        edges(&[("nobody", "s2")]),
    );
    assert_eq!(Scheduler::new(wf).err().unwrap(), RunError::MissingSource("nobody".to_string()));
}

#[test]
fn dangling_source_is_named() {
    let wf = workflow(steps(&["start", "a"]), edges(&[("start", "a"), ("ghost", "a")]));
    let error = Scheduler::new(wf).err().unwrap();
    assert_eq!(error, RunError::MissingSource("ghost".to_string()));
    assert_eq!(error.message(), "Invalid edge: source node ghost does not exist");
    assert!(error.is_structural());
}

#[test]
fn dangling_target_is_named() {
    let wf = workflow(steps(&["start", "a"]), edges(&[("start", "a"), ("a", "nowhere")]));
    let error = Scheduler::new(wf).err().unwrap();
    assert_eq!(error, RunError::MissingTarget("nowhere".to_string()));
    assert_eq!(error.message(), "Invalid edge: target node nowhere does not exist");
}

#[test]
fn source_is_checked_before_target() {
    let wf = workflow(steps(&["start"]), edges(&[("x", "y")]));
    assert_eq!(Scheduler::new(wf).err().unwrap(), RunError::MissingSource("x".to_string()));
}

#[test]
fn first_dangling_edge_decides() {
    let wf = workflow(steps(&["start", "a"]), edges(&[("a", "t1"), ("s2", "a")]));
    assert_eq!(Scheduler::new(wf).err().unwrap(), RunError::MissingTarget("t1".to_string()));
}

#[test]
fn dangling_edge_between_unreachable_nodes_is_refused() {
    let wf = workflow(
        steps(&["start", "a", "island"]),
        edges(&[("start", "a"), ("island", "ghost")]),
    );
    assert_eq!(Scheduler::new(wf).err().unwrap(), RunError::MissingTarget("ghost".to_string()));
}

#[test]
fn unreachable_nodes_never_run() {
    let wf = workflow(
        steps(&["start", "a", "island", "rock"]),
        edges(&[("start", "a"), ("island", "rock"), ("rock", "island"), ("island", "a")]),
    );
    let (rounds, scheduler) = run_all(wf);
    assert_eq!(rounds, vec![vec![0], vec![1]]);
    let report = scheduler.finish().unwrap();
    assert_eq!(report.completed_nodes, 2);
    let ids: Vec<&str> = report.results.iter().map(|r| r.node_id.as_str()).collect();
    assert_eq!(ids, vec!["start", "a"]);
}

#[test]
fn start_alone_completes() {
    let (rounds, scheduler) = run_all(workflow(steps(&["start"]), vec![]));
    assert_eq!(rounds, vec![vec![0]]);
    let report = scheduler.finish().unwrap();
    assert_eq!(report.completed_nodes, 1);
    assert_eq!(report.results.len(), 1);
}

#[test]
fn start_need_not_come_first() {
    let wf = workflow(
        vec![node("a", NodeType::Delay), node("s", NodeType::Start)],
        edges(&[("s", "a")]),
    );
    let (rounds, scheduler) = run_all(wf);
    assert_eq!(rounds, vec![vec![1], vec![0]]);
    assert_eq!(scheduler.finish().unwrap().completed_nodes, 2);
}

#[test]
fn repeated_edges_are_counted_and_relaxed_alike() {
    let wf = workflow(
        steps(&["start", "a", "b"]),
        edges(&[("start", "a"), ("start", "a"), ("a", "b"), ("start", "b"), ("a", "b")]),
    );
    let (rounds, scheduler) = run_all(wf);
    assert_eq!(rounds, vec![vec![0], vec![1], vec![2]]);
    assert_eq!(scheduler.finish().unwrap().completed_nodes, 3);
}

#[test]
fn ready_nodes_come_in_the_order_in_which_they_became_ready() {
    let wf = workflow(
        steps(&["start", "a", "b", "c"]),
        edges(&[("start", "c"), ("start", "a"), ("start", "b")]),
    );
    let (rounds, _) = run_all(wf);
    assert_eq!(rounds, vec![vec![0], vec![3, 1, 2]]);
}

#[test]
fn last_node_with_an_id_is_the_one_it_names() {
    let wf = workflow(
        vec![
            node("start", NodeType::Start),
            node("twin", NodeType::Delay),
            node("twin", NodeType::OpenApp),
        ],
        edges(&[("start", "twin")]),
    );
    let (rounds, scheduler) = run_all(wf);
    assert_eq!(rounds, vec![vec![0], vec![2]]);
    let report = scheduler.finish().unwrap();
    assert_eq!(report.results[1].node_type, NodeType::OpenApp);
}

#[test]
fn failing_node_stops_the_run() {
    let wf = workflow(
        steps(&["start", "a", "b", "c"]),
        edges(&[("start", "a"), ("start", "b"), ("a", "c"), ("b", "c")]),
    );
    let mut scheduler = Scheduler::new(wf).unwrap();
    let first = scheduler.next_batch();
    assert_eq!(first, vec![0]);
    scheduler.record(vec![NodeOutcome::Succeeded("ok".to_string())]).unwrap();
    assert_eq!(scheduler.next_batch(), vec![1, 2]);
    let error = scheduler
        .record(vec![
            NodeOutcome::Succeeded("fine".to_string()),
            NodeOutcome::Failed("exit 3".to_string()),
        ])
        .unwrap_err();
    assert_eq!(error, RunError::NodeFailed("Node b failed: exit 3".to_string()));
    assert_eq!(error.message(), "Node b failed: exit 3");
    assert!(!error.is_structural());
    assert!(scheduler.next_batch().is_empty());
    scheduler.record(vec![]).unwrap();
    assert!(scheduler.next_batch().is_empty());
    assert_eq!(
        scheduler.finish().unwrap_err(),
        RunError::NodeFailed("Node b failed: exit 3".to_string())
    );
}

#[test]
fn first_failure_of_a_batch_decides() {
    let wf = workflow(steps(&["start", "a", "b"]), edges(&[("start", "a"), ("start", "b")]));
    let mut scheduler = Scheduler::new(wf).unwrap();
    scheduler.record(vec![NodeOutcome::Succeeded("ok".to_string())]).unwrap();
    let error = scheduler
        .record(vec![
            NodeOutcome::Lost("task panicked".to_string()),
            NodeOutcome::Failed("late".to_string()),
        ])
        .unwrap_err();
    assert_eq!(error, RunError::WorkerLost("task panicked".to_string()));
    assert_eq!(error.message(), "Worker join error: task panicked");
    assert_eq!(
        scheduler.finish().unwrap_err(),
        RunError::WorkerLost("task panicked".to_string())
    );
}

#[test]
fn failure_is_reported_rather_than_the_cycle() {
    let wf = workflow(steps(&["start", "a"]), edges(&[("start", "a"), ("a", "a")]));
    let mut scheduler = Scheduler::new(wf).unwrap();
    let error = scheduler.record(vec![NodeOutcome::Failed("boom".to_string())]).unwrap_err();
    assert_eq!(error.message(), "Node start failed: boom");
    assert_eq!(scheduler.finish().unwrap_err().message(), "Node start failed: boom");
}

#[test]
fn node_lookup_by_number() {
    let scheduler = Scheduler::new(workflow(steps(&["start", "a"]), vec![])).unwrap();
    assert_eq!(scheduler.node(1).unwrap().id, "a");
    assert!(scheduler.node(2).is_none());
}

#[test]
fn node_result_of_a_success_and_of_a_failure() {
    let a = node("a", NodeType::OpenApp);
    let good = node_result(&a, &NodeOutcome::Succeeded("Opened app: Notes".to_string())).unwrap();
    assert_eq!(
        good,
        NodeExecutionResult {
            node_id: "a".to_string(),
            node_type: NodeType::OpenApp,
            success: true,
            message: "Opened app: Notes".to_string(),
        }
    );
    let bad = node_result(&a, &NodeOutcome::Failed("open exited with status 1".to_string()))
        .unwrap();
    assert!(!bad.success);
    assert_eq!(bad.node_id, "a");
    assert_eq!(bad.message, "Node a failed: open exited with status 1");
    assert!(node_result(&a, &NodeOutcome::Lost("gone".to_string())).is_none());
}

#[test]
fn graph_model_of_a_workflow() {
    let wf = workflow(
        steps(&["start", "a", "b", "island"]),
        edges(&[("start", "a"), ("a", "b"), ("start", "b"), ("island", "b")]),
    );
    let model = validate(&wf).unwrap();
    assert_eq!(model.size(), 4);
    assert_eq!(model.start(), 0);
    let reach = model.reachable();
    assert_eq!(reach, vec![true, true, true, false]);
    assert_eq!(count_set(&reach), 3);
    let everyone = vec![true; 4];
    assert_eq!(model.outbound(&everyone), vec![vec![1, 2], vec![2], vec![], vec![2]]);
    assert_eq!(model.outbound(&reach), vec![vec![1, 2], vec![2], vec![], vec![]]);
    assert_eq!(model.in_degrees(&everyone), vec![0, 1, 3, 0]);
    assert_eq!(model.in_degrees(&reach), vec![0, 1, 2, 0]);
}
