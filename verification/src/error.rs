//! Why a run ended without a report.

use vstd::prelude::*;
use vstd::string::StringExecFns;

verus! {

/// The single terminal error of a run.
#[derive(Clone, Debug, PartialEq, Eq)]
pub enum RunError {
    /// No node of the workflow is a start node.
    MissingStart,
    /// A second start node; it carries that node's id.
    DuplicateStart(String),
    /// An edge whose source names no node; it carries the missing id.
    MissingSource(String),
    /// An edge whose target names no node; it carries the missing id.
    MissingTarget(String),
    /// The nodes reachable from the start node depend on each other in a circle.
    Cycle,
    /// A node reported a failure; it carries the message of that node's result.
    NodeFailed(String),
    /// A dispatched node could not be joined; it carries the reason given.
    WorkerLost(String),
}

/// A run error with its text as a character sequence.
pub enum RunErrorView {
    MissingStart,
    DuplicateStart(Seq<char>),
    MissingSource(Seq<char>),
    MissingTarget(Seq<char>),
    Cycle,
    NodeFailed(Seq<char>),
    WorkerLost(Seq<char>),
}

impl View for RunError {
    type V = RunErrorView;

    open spec fn view(&self) -> RunErrorView {
        match self {
            RunError::MissingStart => RunErrorView::MissingStart,
            RunError::DuplicateStart(id) => RunErrorView::DuplicateStart(id@),
            RunError::MissingSource(id) => RunErrorView::MissingSource(id@),
            RunError::MissingTarget(id) => RunErrorView::MissingTarget(id@),
            RunError::Cycle => RunErrorView::Cycle,
            RunError::NodeFailed(message) => RunErrorView::NodeFailed(message@),
            RunError::WorkerLost(reason) => RunErrorView::WorkerLost(reason@),
        }
    }
}

impl RunErrorView {
    /// The message shown to the user for this error.
    pub open spec fn message(self) -> Seq<char> {
        match self {
            RunErrorView::MissingStart => "Workflow is missing a START node"@,
            RunErrorView::DuplicateStart(id) => "Workflow has more than one START node: "@ + id,
            RunErrorView::MissingSource(id) => "Invalid edge: source node "@ + id
                + " does not exist"@,
            RunErrorView::MissingTarget(id) => "Invalid edge: target node "@ + id
                + " does not exist"@,
            RunErrorView::Cycle => "Workflow contains a dependency cycle"@,
            RunErrorView::NodeFailed(message) => message,
            RunErrorView::WorkerLost(reason) => "Worker join error: "@ + reason,
        }
    }

    /// Whether the error was found before any node could run.
    pub open spec fn is_structural(self) -> bool {
        self is MissingStart || self is DuplicateStart || self is MissingSource
            || self is MissingTarget
    }
}

impl RunError {
    /// The message shown to the user for this error.
    pub fn message(&self) -> (text: String)
        ensures
            text@ == self@.message(),
    {
        match self {
            RunError::MissingStart => String::from_str("Workflow is missing a START node"),
            RunError::DuplicateStart(id) => {
                String::from_str("Workflow has more than one START node: ").concat(id.as_str())
            },
            RunError::MissingSource(id) => {
                String::from_str("Invalid edge: source node ").concat(id.as_str()).concat(
                    " does not exist",
                )
            },
            RunError::MissingTarget(id) => {
                String::from_str("Invalid edge: target node ").concat(id.as_str()).concat(
                    " does not exist",
                )
            },
            RunError::Cycle => String::from_str("Workflow contains a dependency cycle"),
            RunError::NodeFailed(message) => message.clone(),
            RunError::WorkerLost(reason) => {
                String::from_str("Worker join error: ").concat(reason.as_str())
            },
        }
    }

    /// Whether the error was found before any node could run.
    pub fn is_structural(&self) -> (b: bool)
        ensures
            b == self@.is_structural(),
    {
        match self {
            RunError::MissingStart => true,
            RunError::DuplicateStart(_) => true,
            RunError::MissingSource(_) => true,
            RunError::MissingTarget(_) => true,
            _ => false,
        }
    }
}

} // verus!
