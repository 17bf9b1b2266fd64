//! Working on one task.
use vstd::prelude::*;

use crate::ctx::ThreadCtx;
use crate::error::ReductionError;
use crate::explore::explore;
use crate::id::NodeId;
use crate::interesting::Interesting;
use crate::syntax::FamilyView;
use crate::task::{PrioritizedTask, Reduction, ReductionView, Task, TaskView};
use crate::tasks::{Tasks, TasksView};

verus! {

/// What has become of a task.
pub enum DispatchEvent {
    /// It was taken off the queue.
    Popped,
    /// Its reduction was tried.
    Tried(Result<Interesting, ReductionError>),
}

/// What is to be done next with a task.
#[derive(Clone, Copy, Debug, PartialEq, Eq, Structural)]
pub enum DispatchStep {
    /// Try its reduction.
    Try,
    /// Nothing more.
    Done,
}

impl DispatchEvent {
    /// Whether a node of a task is looked up: the node to be explored, or the node of
    /// a reduction that was tried in vain.
    pub open spec fn looks_up(self, task: TaskView) -> bool {
        match self {
            DispatchEvent::Popped => task is Explore,
            DispatchEvent::Tried(Ok(interesting)) => interesting == Interesting::No,
            DispatchEvent::Tried(Err(_)) => false,
        }
    }
}

impl TaskView {
    /// The node whose children are explored if the task comes to nothing.
    pub open spec fn fallback(self) -> Option<NodeId> {
        match self {
            TaskView::Reduce(ReductionView::Delete(node_id)) => Some(node_id),
            TaskView::Reduce(ReductionView::Replace { node_id, .. }) => Some(node_id),
            _ => None,
        }
    }

    /// Whether the node that the task explores, or falls back on, is at hand.
    pub open spec fn known(self, table: Map<usize, FamilyView>) -> bool {
        match self {
            TaskView::Explore(node_id) => table.contains_key(node_id.id),
            _ => self.fallback() matches Some(node_id) ==> table.contains_key(node_id.id),
        }
    }
}

impl<'a, T> ThreadCtx<'a, T> {
    /// The queue after a task that was tried without success.
    pub open spec fn fallen_back(self, tasks: TasksView, task: TaskView) -> TasksView {
        match task.fallback() {
            Some(node_id) => tasks.children_pushed(
                self.ctx.min_task_size,
                self.node_ids@[node_id.id].children,
            ),
            None => tasks,
        }
    }

    /// Whether the node that a task explores, or falls back on, is at hand.
    pub fn knows(&self, task: &Task) -> (r: bool)
        ensures
            r == task@.known(self.node_ids@),
    {
        match task {
            Task::Explore(node_id) => self.node_ids.contains(node_id),
            Task::Reduce(Reduction::Delete(node_id)) => self.node_ids.contains(node_id),
            Task::Reduce(Reduction::DeleteAll(_)) => true,
            Task::Reduce(Reduction::Replace { node_id, .. }) => self.node_ids.contains(node_id),
        }
    }
}

/// Queue the children of a node.
fn push_children<T>(tctx: &ThreadCtx<T>, tasks: &mut Tasks, node_id: &NodeId)
    requires
        tctx.well_formed(),
        tctx.node_ids@.contains_key(node_id.id),
    ensures
        final(tasks)@ == old(tasks)@.children_pushed(
            tctx.ctx.min_task_size,
            tctx.node_ids@[node_id.id].children,
        ),
{
    let family = tctx.find(node_id);
    proof {
        let view = family@;
        assert(view.well_sized());
        assert forall|k: int| 0 <= k < family.children.len() implies (
        #[trigger] family.children[k]).start_byte <= family.children[k].end_byte by {
            assert(view.children[k] == family.children[k]@);
        }
    }
    tctx.ctx.push_explore_children(tasks, family)
}

/// Work on a task: explore a node, or try a reduction.
///
/// Where the reduction of one node fails, the node's children are explored.  A
/// node that is gone needs no more work.  That several nodes cannot be deleted
/// together, or that this could not be found out, is of no consequence: they are
/// tried one by one as well.
pub fn dispatch<T>(
    tctx: &ThreadCtx<T>,
    tasks: &mut Tasks,
    ptask: &PrioritizedTask,
    event: DispatchEvent,
) -> (r: Result<DispatchStep, ReductionError>)
    requires
        tctx.well_formed(),
        event is Tried ==> ptask.task is Reduce,
        event.looks_up(ptask.task@) ==> ptask.task@.known(tctx.node_ids@),
    ensures
        match (ptask.task@, event) {
            (TaskView::Explore(node_id), _) => {
                &&& r == Ok::<DispatchStep, ReductionError>(DispatchStep::Done)
                &&& final(tasks)@ == tctx.ctx.explored(old(tasks)@, tctx.node_ids@[node_id.id])
            },
            (TaskView::Reduce(_), DispatchEvent::Popped) => {
                &&& r == Ok::<DispatchStep, ReductionError>(DispatchStep::Try)
                &&& final(tasks)@ == old(tasks)@
            },
            (TaskView::Reduce(ReductionView::DeleteAll(_)), DispatchEvent::Tried(_)) => {
                &&& r == Ok::<DispatchStep, ReductionError>(DispatchStep::Done)
                &&& final(tasks)@ == old(tasks)@
            },
            (TaskView::Reduce(_), DispatchEvent::Tried(Ok(interesting))) => {
                &&& r == Ok::<DispatchStep, ReductionError>(DispatchStep::Done)
                &&& final(tasks)@ == (if interesting == Interesting::No {
                    tctx.fallen_back(old(tasks)@, ptask.task@)
                } else {
                    old(tasks)@
                })
            },
            (TaskView::Reduce(_), DispatchEvent::Tried(Err(error))) => {
                &&& r == Err::<DispatchStep, ReductionError>(error)
                &&& final(tasks)@ == old(tasks)@
            },
        },
{
    match &ptask.task {
        Task::Explore(node_id) => {
            explore(tctx, tasks, *node_id);
            Ok(DispatchStep::Done)
        },
        Task::Reduce(reduction) => match event {
            DispatchEvent::Popped => Ok(DispatchStep::Try),
            DispatchEvent::Tried(outcome) => match reduction {
                Reduction::DeleteAll(_) => Ok(DispatchStep::Done),
                Reduction::Delete(node_id) => match outcome {
                    // This node was deleted, no need to recurse on its children.
                    Ok(Interesting::Yes) => Ok(DispatchStep::Done),
                    Ok(Interesting::No) => {
                        push_children(tctx, tasks, node_id);
                        Ok(DispatchStep::Done)
                    },
                    // This node and all of its children were deleted by another worker.
                    Ok(Interesting::Stale) => Ok(DispatchStep::Done),
                    Err(error) => Err(error),
                },
                Reduction::Replace { node_id, .. } => match outcome {
                    // This node was replaced, no need to recurse on its children.
                    Ok(Interesting::Yes) => Ok(DispatchStep::Done),
                    Ok(Interesting::No) => {
                        push_children(tctx, tasks, node_id);
                        Ok(DispatchStep::Done)
                    },
                    Ok(Interesting::Stale) => Ok(DispatchStep::Done),
                    Err(error) => Err(error),
                },
            },
        },
    }
}

} // verus!
