use std::cell::RefCell;
use std::time::{Duration, Instant};

use quicktools::error::RunError;
use quicktools::executor::run_workflow;
use quicktools::models::{
    NodeOutcome, NodePlan, NodeType, ParamValue, Step, Workflow, WorkflowEdge, WorkflowNode,
};

fn node(id: &str, node_type: NodeType, params: ParamValue) -> WorkflowNode {
    WorkflowNode { id: id.to_string(), node_type, params }
}

fn folder(id: &str) -> WorkflowNode {
    let params = ParamValue::Record(vec![(
        "path".to_string(),
        ParamValue::Text(format!("/{id}")),
    )]);
    node(id, NodeType::OpenFolderInFinder, params)
}

fn start(id: &str) -> WorkflowNode {
    node(id, NodeType::Start, ParamValue::Null)
}

fn edge(source: &str, target: &str) -> WorkflowEdge {
    WorkflowEdge {
        source_node_id: source.to_string(),
        target_node_id: target.to_string(),
        source_handle_id: None,
        target_handle_id: None,
    }
}

fn workflow(nodes: Vec<WorkflowNode>, pairs: &[(&str, &str)]) -> Workflow {
    Workflow {
        id: "wf-7".to_string(),
        name: "Test".to_string(),
        nodes,
        edges: pairs.iter().map(|(s, t)| edge(s, t)).collect(),
    }
}

/// Performs no step and lets each plan report what it would.
fn pretend(plans: Vec<NodePlan>) -> Vec<NodeOutcome> {
    plans.into_iter().map(|plan| plan.conclude(None)).collect()
}

fn opened(plan: &NodePlan) -> String {
    match plan.steps.first() {
        Some(Step::Run { args, .. }) => args.join(" "),
        Some(Step::Sleep { milliseconds }) => format!("sleep {milliseconds}"),
        None => "nothing".to_string(),
    }
}

#[test]
fn run_of_a_diamond() {
    let wf = workflow(
        vec![start("s"), folder("a"), folder("b"), folder("c"), folder("d")],
        &[("s", "a"), ("a", "b"), ("a", "c"), ("b", "d"), ("c", "d")],
    );
    let rounds: RefCell<Vec<Vec<String>>> = RefCell::new(Vec::new());
    let report = run_workflow(wf, None, |plans| {
        rounds.borrow_mut().push(plans.iter().map(opened).collect());
        pretend(plans)
    })
    .unwrap();
    assert_eq!(
        rounds.into_inner(),
        vec![vec!["nothing"], vec!["/a"], vec!["/b", "/c"], vec!["/d"]]
    );
    assert_eq!(report.workflow_id, "wf-7");
    assert_eq!(report.completed_nodes, 5);
    let messages: Vec<&str> = report.results.iter().map(|r| r.message.as_str()).collect();
    assert_eq!(
        messages,
        vec![
            "Start node acknowledged",
            "Opened folder /a",
            "Opened folder /b",
            "Opened folder /c",
            "Opened folder /d",
        ]
    );
    let ids: Vec<&str> = report.results.iter().map(|r| r.node_id.as_str()).collect();
    let place = |id: &str| ids.iter().position(|x| *x == id).unwrap();
    assert!(place("a") < place("d") && place("b") < place("d") && place("c") < place("d"));
}

#[test]
fn run_refuses_an_unsound_workflow_before_anything_is_dispatched() {
    let calls = RefCell::new(0usize);
    let count = |plans: Vec<NodePlan>| {
        *calls.borrow_mut() += 1;
        pretend(plans)
    };
    let no_start = workflow(vec![folder("a")], &[]);
    assert_eq!(run_workflow(no_start, None, &count), Err(RunError::MissingStart));
    let dangling = workflow(vec![start("s"), folder("a"), folder("z")], &[("s", "a"), ("z", "q")]);
    assert_eq!(
        run_workflow(dangling, None, &count),
        Err(RunError::MissingTarget("q".to_string()))
    );
    assert_eq!(*calls.borrow(), 0);
}

#[test]
fn run_with_a_cycle_ends_with_the_cycle_error() {
    let calls = RefCell::new(0usize);
    let through_start = workflow(vec![start("s"), folder("a")], &[("s", "a"), ("a", "s")]);
    let r = run_workflow(through_start, None, |plans| {
        *calls.borrow_mut() += plans.len();
        pretend(plans)
    });
    assert_eq!(r, Err(RunError::Cycle));
    assert_eq!(*calls.borrow(), 0);

    let behind = workflow(
        vec![start("s"), folder("a"), folder("b"), folder("c")],
        &[("s", "a"), ("a", "b"), ("b", "c"), ("c", "b")],
    );
    let r = run_workflow(behind, None, |plans| {
        *calls.borrow_mut() += plans.len();
        pretend(plans)
    });
    assert_eq!(r, Err(RunError::Cycle));
    assert_eq!(*calls.borrow(), 2);
}

#[test]
fn run_stops_after_the_round_of_a_failure() {
    let wf = workflow(
        vec![
            start("s"),
            folder("a"),
            node("bad", NodeType::OpenUrl, ParamValue::Null),
            folder("c"),
            folder("later"),
        ],
        &[("s", "a"), ("s", "bad"), ("s", "c"), ("a", "later")],
    );
    let rounds: RefCell<Vec<usize>> = RefCell::new(Vec::new());
    let r = run_workflow(wf, None, |plans| {
        rounds.borrow_mut().push(plans.len());
        pretend(plans)
    });
    assert_eq!(
        r,
        Err(RunError::NodeFailed("Node bad failed: Open URL requires urls[]".to_string()))
    );
    assert_eq!(rounds.into_inner(), vec![1, 3]);
}

#[test]
fn run_reports_a_step_that_failed() {
    let wf = workflow(vec![start("s"), folder("a")], &[("s", "a")]);
    let r = run_workflow(wf, None, |plans| {
        plans
            .into_iter()
            .map(|plan| {
                let failure =
                    if plan.steps.is_empty() { None } else { Some("open exited with status 1".to_string()) };
                plan.conclude(failure)
            })
            .collect()
    });
    assert_eq!(
        r.unwrap_err().message(),
        "Node a failed: open exited with status 1"
    );
}

#[test]
fn run_reports_a_lost_worker() {
    let wf = workflow(vec![start("s")], &[]);
    let r = run_workflow(wf, None, |plans| {
        plans.iter().map(|_| NodeOutcome::Lost("task 3 panicked".to_string())).collect()
    });
    assert_eq!(r.unwrap_err().message(), "Worker join error: task 3 panicked");
}

#[test]
fn run_skips_what_the_start_node_does_not_reach() {
    let wf = workflow(
        vec![start("s"), folder("a"), node("island", NodeType::OpenUrl, ParamValue::Null)],
        &[("s", "a"), ("island", "a")],
    );
    let report = run_workflow(wf, None, pretend).unwrap();
    assert_eq!(report.completed_nodes, 2);
    assert!(report.results.iter().all(|r| r.node_id != "island"));
}

#[test]
fn run_expands_the_home_directory_in_plans() {
    let params = ParamValue::Record(vec![("path".to_string(), ParamValue::Text("~/x".to_string()))]);
    let wf = workflow(
        vec![start("s"), node("t", NodeType::OpenTerminalAtPath, params)],
        &[("s", "t")],
    );
    let report = run_workflow(wf, Some("/Users/me"), pretend).unwrap();
    assert_eq!(report.results[1].message, "Opened Terminal at /Users/me/x");
}

#[test]
fn delay_of_a_numeric_text_waits_that_long() {
    let params = ParamValue::Record(vec![(
        "milliseconds".to_string(),
        ParamValue::Text("250".to_string()),
    )]);
    let wf = workflow(vec![start("s"), node("wait", NodeType::Delay, params)], &[("s", "wait")]);
    let began = Instant::now();
    let report = run_workflow(wf, None, |plans| {
        plans
            .into_iter()
            .map(|plan| {
                for step in &plan.steps {
                    if let Step::Sleep { milliseconds } = step {
                        let asked = Instant::now();
                        while asked.elapsed() < Duration::from_millis(*milliseconds) {
                            std::hint::spin_loop();
                        }
                    }
                }
                plan.conclude(None)
            })
            .collect()
    })
    .unwrap();
    assert!(began.elapsed() >= Duration::from_millis(250));
    assert!(report.results[1].success);
    assert_eq!(report.results[1].message, "Delayed for 250 ms");
}

#[test]
fn run_is_the_same_without_what_the_start_node_does_not_reach() {
    let island = || {
        vec![
            node("bad", NodeType::OpenUrl, ParamValue::Null),
            folder("loop1"),
            folder("loop2"),
        ]
    };
    let mut nodes = vec![folder("a"), start("s")];
    nodes.extend(island());
    nodes.push(folder("b"));
    let whole = workflow(
        nodes,
        &[
            ("bad", "a"),
            ("s", "a"),
            ("loop1", "loop2"),
            ("a", "b"),
            ("loop2", "loop1"),
            ("loop2", "b"),
            ("s", "b"),
        ],
    );
    let part = workflow(
        vec![folder("a"), start("s"), folder("b")],
        &[("s", "a"), ("a", "b"), ("s", "b")],
    );
    let seen_whole: RefCell<Vec<Vec<String>>> = RefCell::new(Vec::new());
    let seen_part: RefCell<Vec<Vec<String>>> = RefCell::new(Vec::new());
    let report_whole = run_workflow(whole, None, |plans| {
        seen_whole.borrow_mut().push(plans.iter().map(opened).collect());
        pretend(plans)
    });
    let report_part = run_workflow(part, None, |plans| {
        seen_part.borrow_mut().push(plans.iter().map(opened).collect());
        pretend(plans)
    });
    assert_eq!(report_whole, report_part);
    assert_eq!(seen_whole.into_inner(), seen_part.into_inner());
    let report = report_whole.unwrap();
    assert_eq!(report.completed_nodes, 3);
    let ids: Vec<&str> = report.results.iter().map(|r| r.node_id.as_str()).collect();
    assert_eq!(ids, vec!["s", "a", "b"]);
}
