//! What the reducer can be asked to do next.
use vstd::prelude::*;

use crate::id::NodeId;

verus! {

/// A change to the program that the check has yet to judge.
#[derive(Debug)]
pub enum Reduction {
    /// Delete one node.
    Delete(NodeId),
    /// Delete several nodes at once.
    DeleteAll(Vec<NodeId>),
    /// Put a text in the place of a node.
    Replace { node_id: NodeId, with: String },
}

/// One unit of work.
#[derive(Debug)]
pub enum Task {
    /// Find out which reductions a node offers.
    Explore(NodeId),
    /// Try a reduction.
    Reduce(Reduction),
}

/// The number that a task was given when it was queued.
#[derive(Clone, Copy, Debug, PartialEq, Eq, Structural)]
pub struct TaskId {
    pub id: usize,
}

impl TaskId {
    /// The number itself.
    pub fn get(&self) -> (r: usize)
        ensures
            r == self.id,
    {
        self.id
    }
}

/// A queued task.
#[derive(Debug)]
pub struct PrioritizedTask {
    pub task: Task,
    pub id: TaskId,
    pub priority: usize,
}

/// The mathematical value of a [`Reduction`].
pub enum ReductionView {
    Delete(NodeId),
    DeleteAll(Seq<NodeId>),
    Replace { node_id: NodeId, with: Seq<char> },
}

/// The mathematical value of a [`Task`].
pub enum TaskView {
    Explore(NodeId),
    Reduce(ReductionView),
}

/// The mathematical value of a [`PrioritizedTask`].
pub struct PrioritizedTaskView {
    pub task: TaskView,
    pub id: usize,
    pub priority: usize,
}

impl View for Reduction {
    type V = ReductionView;

    open spec fn view(&self) -> ReductionView {
        match self {
            Reduction::Delete(node_id) => ReductionView::Delete(*node_id),
            Reduction::DeleteAll(node_ids) => ReductionView::DeleteAll(node_ids@),
            Reduction::Replace { node_id, with } => ReductionView::Replace {
                node_id: *node_id,
                with: with@,
            },
        }
    }
}

impl View for Task {
    type V = TaskView;

    open spec fn view(&self) -> TaskView {
        match self {
            Task::Explore(node_id) => TaskView::Explore(*node_id),
            Task::Reduce(reduction) => TaskView::Reduce(reduction@),
        }
    }
}

impl View for PrioritizedTask {
    type V = PrioritizedTaskView;

    open spec fn view(&self) -> PrioritizedTaskView {
        PrioritizedTaskView { task: self.task@, id: self.id.id, priority: self.priority }
    }
}

impl TaskView {
    /// The nodes that a task names.
    pub open spec fn node_ids(self) -> Seq<NodeId> {
        match self {
            TaskView::Explore(node_id) => seq![node_id],
            TaskView::Reduce(ReductionView::Delete(node_id)) => seq![node_id],
            TaskView::Reduce(ReductionView::DeleteAll(node_ids)) => node_ids,
            TaskView::Reduce(ReductionView::Replace { node_id, .. }) => seq![node_id],
        }
    }
}

} // verus!
