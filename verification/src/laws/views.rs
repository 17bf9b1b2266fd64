//! What the mathematical values of things say of them.
use vstd::prelude::*;

use crate::edits::{Edits, NodeEdit, NodeEditView};
use crate::error::ReductionError;
use crate::interesting::{Trial, TrialView};
use crate::node_types::texts;
use crate::syntax::{
    family_views, kind_view, node_views, total_size, Family, NodeView, SyntaxNode,
};
use crate::task::{PrioritizedTask, Reduction, ReductionView, Task, TaskView};
use crate::tasks::queue_items;
use crate::versioned::Versioned;
use crate::work::{WorkEvent, WorkEventView, WorkStep, WorkStepView};

verus! {

/// Nothing of a task is left out of its value.
pub proof fn law_tasks_keep_their_parts(ptask: PrioritizedTask)
    ensures
        ptask@.id == ptask.id.id,
        ptask@.priority == ptask.priority,
        match ptask.task {
            Task::Explore(node_id) => ptask@.task == TaskView::Explore(node_id),
            Task::Reduce(Reduction::Delete(node_id)) => ptask@.task == TaskView::Reduce(
                ReductionView::Delete(node_id),
            ),
            Task::Reduce(Reduction::DeleteAll(node_ids)) => ptask@.task == TaskView::Reduce(
                ReductionView::DeleteAll(node_ids@),
            ),
            Task::Reduce(Reduction::Replace { node_id, with }) => ptask@.task == TaskView::Reduce(
                ReductionView::Replace { node_id, with: with@ },
            ),
        },
{
}

/// Nothing of a list is left out of its value.
pub proof fn law_lists_keep_their_parts(
    list: Seq<String>,
    items: Seq<(Task, usize)>,
    nodes: Seq<SyntaxNode>,
    families: Seq<Family>,
)
    ensures
        texts(list).len() == list.len(),
        forall|i: int| 0 <= i < list.len() ==> #[trigger] texts(list)[i] == list[i]@,
        queue_items(items).len() == items.len(),
        forall|i: int|
            0 <= i < items.len() ==> #[trigger] queue_items(items)[i] == (items[i].0@, items[i].1),
        node_views(nodes).len() == nodes.len(),
        forall|i: int| 0 <= i < nodes.len() ==> #[trigger] node_views(nodes)[i] == nodes[i]@,
        family_views(families).len() == families.len(),
        forall|i: int|
            0 <= i < families.len() ==> #[trigger] family_views(families)[i] == families[i]@,
{
}

/// Nothing of a node is left out of its value.
pub proof fn law_nodes_keep_their_parts(family: Family, node: SyntaxNode)
    ensures
        node@.id == node.id,
        node@.kind == node.kind@,
        node@.start == node.start_byte,
        node@.end == node.end_byte,
        family@.node == family.node@,
        family@.parent_kind is Some <==> family.parent_kind is Some,
        family.parent_kind is Some ==> family@.parent_kind == Some((family.parent_kind->0)@),
        family@.parent_kind == kind_view(family.parent_kind),
        family@.children.len() == family.children@.len(),
        forall|i: int|
            0 <= i < family.children@.len() ==> #[trigger] family@.children[i]
                == family.children@[i]@,
{
}

/// The size of a node is how many bytes lie between its ends, and sizes add up.
pub proof fn law_sizes_are_bytes(node: NodeView, nodes: Seq<NodeView>)
    ensures
        node.size() == node.end - node.start,
        total_size(Seq::empty()) == 0,
        total_size(nodes.push(node)) == total_size(nodes) + (node.end - node.start),
{
    assert(nodes.push(node).drop_last() =~= nodes);
}

/// Nothing of a worker's step is left out of its value.
pub proof fn law_steps_keep_their_parts(ptask: PrioritizedTask, idle: bool)
    ensures
        (WorkStep::ReadIdle { idle })@ == (WorkStepView::ReadIdle { idle }),
        WorkStep::Wait@ == WorkStepView::Wait,
        WorkStep::WakeUp@ == WorkStepView::WakeUp,
        WorkStep::Pop@ == WorkStepView::Pop,
        WorkStep::Dispatch(ptask)@ == WorkStepView::Dispatch(ptask@),
        WorkStep::GoIdle@ == WorkStepView::GoIdle,
        WorkStep::Quit@ == WorkStepView::Quit,
{
}

/// Nothing of what befalls a worker is left out: it is the failure, or the value.
pub proof fn law_events_keep_their_parts(
    count: usize,
    ptask: PrioritizedTask,
    error: ReductionError,
)
    ensures
        WorkEvent::Idle(count)@ == WorkEventView::Idle(count),
        WorkEvent::Idle(count).failure() is None,
        WorkEvent::Counted@ == WorkEventView::Counted,
        WorkEvent::Counted.failure() is None,
        WorkEvent::Waited(Ok(()))@ == WorkEventView::Waited,
        WorkEvent::Waited(Ok(())).failure() is None,
        WorkEvent::Waited(Err(error)).failure() == Some(error),
        WorkEvent::Popped(Ok(Some(ptask)))@ == WorkEventView::Popped(Some(ptask@)),
        WorkEvent::Popped(Ok(Some(ptask))).failure() is None,
        WorkEvent::Popped(Ok(None))@ == WorkEventView::Popped(None),
        WorkEvent::Popped(Ok(None)).failure() is None,
        WorkEvent::Popped(Err(error)).failure() == Some(error),
        WorkEvent::Dispatched(Ok(()))@ == WorkEventView::Dispatched,
        WorkEvent::Dispatched(Ok(())).failure() is None,
        WorkEvent::Dispatched(Err(error)).failure() == Some(error),
{
}

/// Nothing of a trial is left out of its value.
pub proof fn law_trials_keep_their_parts(trial: Trial, edits: Versioned<Edits>, edit: NodeEdit)
    ensures
        match trial {
            Trial::Prepare => trial@ == TrialView::Prepare,
            Trial::Check { edits, rendered } => trial@ == (TrialView::Check {
                edits: edits@,
                rendered: rendered@,
            }),
            Trial::Save { edits, rendered } => trial@ == (TrialView::Save {
                edits: edits@,
                rendered: rendered@,
            }),
            Trial::Done(interesting) => trial@ == TrialView::Done(interesting),
        },
        edits@.version == edits.version,
        edits@.edits == edits.value@,
        match edit {
            NodeEdit::Omit => edit@ == NodeEditView::Omit,
            NodeEdit::Replace(with) => edit@ == NodeEditView::Replace(with@),
        },
{
}

} // verus!
