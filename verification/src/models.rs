//! The data carried by a workflow and by the report of a run.

use vstd::prelude::*;

verus! {

/// The closed set of operation kinds a workflow node can carry.
#[derive(Clone, Copy, Debug, PartialEq, Eq, Structural)]
pub enum NodeType {
    Start,
    Delay,
    OpenApp,
    OpenBrowser,
    OpenUrl,
    OpenTerminalAtPath,
    ExecuteCommand,
    OpenFolderInFinder,
}

/// A number of a parameter payload.
#[derive(Clone, Copy, Debug, PartialEq, Eq, Structural)]
pub enum ParamNumber {
    /// A whole number that is not negative.
    Unsigned(u64),
    /// A whole number held with its sign.
    Signed(i64),
    /// A number with a fractional notation. It carries the nearest whole
    /// number, capped at the largest `u64`, when the number is finite and not
    /// below zero, and nothing otherwise.
    Fraction(Option<u64>),
}

/// The semi-structured payload of a node: a tree of the usual document kinds.
#[derive(Debug, PartialEq, Eq)]
pub enum ParamValue {
    Null,
    Bool(bool),
    Number(ParamNumber),
    Text(String),
    List(Vec<ParamValue>),
    /// Named entries. Where a name occurs more than once, the last entry counts.
    Record(Vec<(String, ParamValue)>),
}

/// One step of a workflow.
#[derive(Debug, PartialEq, Eq)]
pub struct WorkflowNode {
    pub id: String,
    pub node_type: NodeType,
    pub params: ParamValue,
}

/// "The target depends on the source": the target may start once the source
/// has completed.
#[derive(Clone, Debug, PartialEq, Eq)]
pub struct WorkflowEdge {
    pub source_node_id: String,
    pub target_node_id: String,
    pub source_handle_id: Option<String>,
    pub target_handle_id: Option<String>,
}

/// A graph of nodes and the edges between them.
#[derive(Debug, PartialEq, Eq)]
pub struct Workflow {
    pub id: String,
    pub name: String,
    pub nodes: Vec<WorkflowNode>,
    pub edges: Vec<WorkflowEdge>,
}

/// What one executed node reported.
#[derive(Clone, Debug, PartialEq, Eq)]
pub struct NodeExecutionResult {
    pub node_id: String,
    pub node_type: NodeType,
    pub success: bool,
    pub message: String,
}

/// The report of a run that completed.
#[derive(Clone, Debug, PartialEq, Eq)]
pub struct RunWorkflowResult {
    pub workflow_id: String,
    pub completed_nodes: usize,
    pub results: Vec<NodeExecutionResult>,
}

/// One action that a node asks of its surroundings.
#[derive(Clone, Debug, PartialEq, Eq)]
pub enum Step {
    /// Wait for so many milliseconds.
    Sleep { milliseconds: u64 },
    /// Run a program with arguments and wait for it to end.
    Run { binary: String, args: Vec<String> },
}

/// What a node is to do: its steps, to be performed in order, and what the
/// node reports once every step has succeeded. A plan that was refused has
/// no steps and reports why.
#[derive(Debug, PartialEq, Eq)]
pub struct NodePlan {
    pub steps: Vec<Step>,
    pub outcome: Result<String, String>,
}

/// How an attempt to run a program ended.
#[derive(Clone, Debug, PartialEq, Eq)]
pub enum CommandStatus {
    /// The program could not be started; it carries the reason.
    NotStarted(String),
    /// The program ran and ended, with an exit code unless a signal ended it.
    Exited { success: bool, code: Option<i32> },
}

/// How the work of one dispatched node ended.
#[derive(Clone, Debug, PartialEq, Eq)]
pub enum NodeOutcome {
    /// The node did its work; it carries the node's message.
    Succeeded(String),
    /// The node reported a failure; it carries the reason.
    Failed(String),
    /// The node's worker could not be joined; it carries the reason.
    Lost(String),
}

/// An outcome with its text as a character sequence.
pub enum OutcomeView {
    Succeeded(Seq<char>),
    Failed(Seq<char>),
    Lost(Seq<char>),
}

impl View for NodeOutcome {
    type V = OutcomeView;

    open spec fn view(&self) -> OutcomeView {
        match self {
            NodeOutcome::Succeeded(message) => OutcomeView::Succeeded(message@),
            NodeOutcome::Failed(reason) => OutcomeView::Failed(reason@),
            NodeOutcome::Lost(reason) => OutcomeView::Lost(reason@),
        }
    }
}

/// A node result with its texts as character sequences.
pub struct NodeResultView {
    pub node_id: Seq<char>,
    pub node_type: NodeType,
    pub success: bool,
    pub message: Seq<char>,
}

impl View for NodeExecutionResult {
    type V = NodeResultView;

    open spec fn view(&self) -> NodeResultView {
        NodeResultView {
            node_id: self.node_id@,
            node_type: self.node_type,
            success: self.success,
            message: self.message@,
        }
    }
}

/// A run report with its texts as character sequences.
pub struct RunResultView {
    pub workflow_id: Seq<char>,
    pub completed_nodes: nat,
    pub results: Seq<NodeResultView>,
}

/// The views of a list of node results, one for one.
pub open spec fn result_views(results: Seq<NodeExecutionResult>) -> Seq<NodeResultView> {
    Seq::new(results.len(), |i: int| results[i]@)
}

impl View for RunWorkflowResult {
    type V = RunResultView;

    open spec fn view(&self) -> RunResultView {
        RunResultView {
            workflow_id: self.workflow_id@,
            completed_nodes: self.completed_nodes as nat,
            results: result_views(self.results@),
        }
    }
}


/// The texts of a list as character sequences.
pub open spec fn texts(list: Seq<String>) -> Seq<Seq<char>> {
    Seq::new(list.len(), |i: int| list[i]@)
}

/// A step with its texts as character sequences.
pub enum StepView {
    Sleep { milliseconds: u64 },
    Run { binary: Seq<char>, args: Seq<Seq<char>> },
}

impl View for Step {
    type V = StepView;

    open spec fn view(&self) -> StepView {
        match self {
            Step::Sleep { milliseconds } => StepView::Sleep { milliseconds: *milliseconds },
            Step::Run { binary, args } => StepView::Run { binary: binary@, args: texts(args@) },
        }
    }
}

/// The views of a list of steps, one for one.
pub open spec fn step_views(steps: Seq<Step>) -> Seq<StepView> {
    Seq::new(steps.len(), |i: int| steps[i]@)
}

/// The view of a text or of the error in its place.
pub open spec fn outcome_view(outcome: Result<String, String>) -> Result<Seq<char>, Seq<char>> {
    match outcome {
        Ok(message) => Ok(message@),
        Err(reason) => Err(reason@),
    }
}

/// A plan with its texts as character sequences.
pub struct PlanView {
    pub steps: Seq<StepView>,
    pub outcome: Result<Seq<char>, Seq<char>>,
}

impl View for NodePlan {
    type V = PlanView;

    open spec fn view(&self) -> PlanView {
        PlanView { steps: step_views(self.steps@), outcome: outcome_view(self.outcome) }
    }
}

} // verus!
