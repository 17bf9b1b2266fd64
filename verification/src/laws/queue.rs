//! What is on the queue, and in which order it comes off.
use vstd::prelude::*;

use crate::ctx::{child_tasks, Ctx, ThreadCtx};
use crate::explore::{batch_tasks, ids, of_kind, of_kinds, replace_tasks};
use crate::id::NodeId;
use crate::node_types::list_or_none;
use crate::nodes::tabulates;
use crate::pass::first_tasks;
use crate::syntax::{tree_view, FamilyView, NodeView};
use crate::task::{PrioritizedTaskView, ReductionView, TaskView};
use crate::tasks::TasksView;

verus! {

/// Tasks that are taken off the queue one after the other come in order of their
/// priorities, the largest first.
pub proof fn law_larger_tasks_come_first(
    tasks: TasksView,
    first: PrioritizedTaskView,
    second: PrioritizedTaskView,
)
    requires
        tasks.is_first(first),
        tasks.without(first).is_first(second),
    ensures
        second.priority <= first.priority,
{
    assert(tasks.queued.contains(second));
}

/// A queue that holds one task gives that task back.
pub proof fn law_a_lone_task_comes_back(task: TaskView, priority: usize, tasks: TasksView, got: PrioritizedTaskView)
    requires
        tasks.queued.len() == 0,
        tasks.pushed(task, priority).is_first(got),
    ensures
        got == (PrioritizedTaskView { task, id: tasks.next_id, priority }),
        tasks.pushed(task, priority).without(got).queued == tasks.queued,
{
    let pushed = PrioritizedTaskView { task, id: tasks.next_id, priority };
    vstd::multiset::lemma_multiset_empty_len(tasks.queued);
    assert(tasks.queued =~= vstd::multiset::Multiset::empty());
    assert(tasks.pushed(task, priority).queued.contains(got));
    assert(got == pushed);
    assert(tasks.queued.insert(pushed).remove(pushed) =~= tasks.queued);
}

/// Whether all that is queued has a property.
pub open spec fn all_queued(tasks: TasksView, p: spec_fn(TaskView, usize) -> bool) -> bool {
    forall|t: PrioritizedTaskView| #[trigger] tasks.queued.contains(t) ==> p(t.task, t.priority)
}

impl<'a, T> ThreadCtx<'a, T> {
    /// Whether a task is large enough or explores the root, and the nodes that it
    /// names are at hand.
    pub open spec fn is_sound(self, task: TaskView, priority: usize) -> bool {
        &&& priority >= self.ctx.min_task_size || task == TaskView::Explore(
            tree_view(self.ctx.orig.tree).node().id,
        )
        &&& forall|i: int|
            0 <= i < task.node_ids().len() ==> self.node_ids@.contains_key(
                (#[trigger] task.node_ids()[i]).id,
            )
    }

    /// Whether all queued tasks are large enough or explore the root, and are about
    /// nodes that are at hand.
    pub open spec fn sound_queue(self, tasks: TasksView) -> bool {
        all_queued(tasks, |task: TaskView, priority: usize| self.is_sound(task, priority))
    }
}

pub proof fn lemma_enqueue(tasks: TasksView, task: TaskView, priority: usize, p: spec_fn(TaskView, usize) -> bool)
    requires
        all_queued(tasks, p),
        p(task, priority),
    ensures
        all_queued(tasks.enqueue(task, priority), p),
        all_queued(tasks.pushed(task, priority), p),
{
    let new = PrioritizedTaskView { task, id: tasks.next_id, priority };
    assert forall|t: PrioritizedTaskView| #[trigger]
        tasks.queued.insert(new).contains(t) implies p(t.task, t.priority) by {
        assert(t == new || tasks.queued.contains(t));
    }
}

pub proof fn lemma_offered_all(
    tasks: TasksView,
    min: usize,
    items: Seq<(TaskView, usize)>,
    p: spec_fn(TaskView, usize) -> bool,
)
    requires
        all_queued(tasks, p),
        forall|i: int|
            0 <= i < items.len() && items[i].1 >= min ==> p(
                (#[trigger] items[i]).0,
                items[i].1,
            ),
    ensures
        all_queued(tasks.offered_all(min, items), p),
    decreases items.len(),
{
    if items.len() > 0 {
        let start = items.drop_last();
        assert forall|i: int| 0 <= i < start.len() && start[i].1 >= min implies p(
            (#[trigger] start[i]).0,
            start[i].1,
        ) by {
            assert(start[i] == items[i]);
        }
        lemma_offered_all(tasks, min, start, p);
        let last = items[items.len() - 1];
        if last.1 >= min {
            lemma_enqueue(tasks.offered_all(min, start), last.0, last.1, p);
        }
    }
}

pub proof fn lemma_enqueue_all(
    tasks: TasksView,
    items: Seq<(TaskView, usize)>,
    p: spec_fn(TaskView, usize) -> bool,
)
    requires
        all_queued(tasks, p),
        forall|i: int| 0 <= i < items.len() ==> p((#[trigger] items[i]).0, items[i].1),
    ensures
        all_queued(tasks.enqueue_all(items), p),
    decreases items.len(),
{
    if items.len() > 0 {
        let start = items.drop_last();
        assert forall|i: int| 0 <= i < start.len() implies p((#[trigger] start[i]).0, start[i].1) by {
            assert(start[i] == items[i]);
        }
        lemma_enqueue_all(tasks, start, p);
        let last = items[items.len() - 1];
        lemma_enqueue(tasks.enqueue_all(start), last.0, last.1, p);
    }
}

proof fn lemma_child_tasks<'a, T>(tctx: ThreadCtx<'a, T>, children: Seq<NodeView>, i: int)
    requires
        forall|k: int|
            0 <= k < children.len() ==> (#[trigger] children[k]).start <= children[k].end
                && tctx.node_ids@.contains_key(children[k].id.id),
        0 <= i < child_tasks(children, tctx.ctx.min_task_size).len(),
    ensures
        ({
            let item = child_tasks(children, tctx.ctx.min_task_size)[i];
            tctx.is_sound(item.0, item.1)
        }),
    decreases children.len(),
{
    let min = tctx.ctx.min_task_size;
    let start = children.drop_last();
    let child = children[children.len() - 1];
    assert forall|k: int| 0 <= k < start.len() implies (#[trigger] start[k]).start <= start[k].end
        && tctx.node_ids@.contains_key(start[k].id.id) by {
        assert(start[k] == children[k]);
    }
    if i < child_tasks(start, min).len() {
        lemma_child_tasks(tctx, start, i);
    } else {
        assert(child_tasks(children, min)[i].0 == TaskView::Explore(child.id));
    }
}

proof fn lemma_children_pushed<'a, T>(
    tctx: ThreadCtx<'a, T>,
    tasks: TasksView,
    family: FamilyView,
)
    requires
        tctx.sound_queue(tasks),
        family.well_sized(),
        forall|j: int|
            0 <= j < family.children.len() ==> tctx.node_ids@.contains_key(
                (#[trigger] family.children[j]).id.id,
            ),
    ensures
        tctx.sound_queue(tasks.children_pushed(tctx.ctx.min_task_size, family.children)),
{
    let p = |task: TaskView, priority: usize| tctx.is_sound(task, priority);
    let items = child_tasks(family.children, tctx.ctx.min_task_size);
    assert forall|i: int| 0 <= i < items.len() implies p((#[trigger] items[i]).0, items[i].1) by {
        lemma_child_tasks(tctx, family.children, i);
    }
    lemma_enqueue_all(tasks, items, p);
}

proof fn lemma_of_kind_picks(nodes: Seq<NodeView>, kind: Seq<char>, i: int)
    requires
        0 <= i < of_kind(nodes, kind).len(),
    ensures
        nodes.contains(of_kind(nodes, kind)[i]),
    decreases nodes.len(),
{
    reveal(Seq::filter);
    let start = nodes.drop_last();
    let picked = of_kind(start, kind);
    if i < picked.len() {
        lemma_of_kind_picks(start, kind, i);
        let k = choose|k: int| 0 <= k < start.len() && start[k] == picked[i];
        assert(nodes[k] == of_kind(nodes, kind)[i]);
    } else {
        assert(nodes[nodes.len() - 1] == of_kind(nodes, kind)[i]);
    }
}

pub proof fn lemma_of_kinds_picks(nodes: Seq<NodeView>, kinds: Seq<Seq<char>>, i: int)
    requires
        0 <= i < of_kinds(nodes, kinds).len(),
    ensures
        nodes.contains(of_kinds(nodes, kinds)[i]),
    decreases kinds.len(),
{
    let start = of_kinds(nodes, kinds.drop_last());
    if i < start.len() {
        lemma_of_kinds_picks(nodes, kinds.drop_last(), i);
    } else {
        lemma_of_kind_picks(nodes, kinds.last(), i - start.len());
    }
}

/// Exploring a node queues only tasks that are large enough and are about nodes
/// of the tree.
pub proof fn law_exploring_keeps_the_queue_sound<'a, T>(
    tctx: ThreadCtx<'a, T>,
    tasks: TasksView,
    node_id: NodeId,
)
    requires
        tctx.well_formed(),
        tctx.node_ids@.contains_key(node_id.id),
        tctx.sound_queue(tasks),
    ensures
        tctx.sound_queue(tctx.ctx.explored(tasks, tctx.node_ids@[node_id.id])),
{
    let table = tctx.node_ids@;
    let min = tctx.ctx.min_task_size;
    let family = table[node_id.id];
    let node = family.node;
    let types = tctx.ctx.node_types@;
    let p = |task: TaskView, priority: usize| tctx.is_sound(task, priority);
    assert(family.well_sized());
    assert(node.id.id == node_id.id);
    let replacing = replace_tasks(node, list_or_none(tctx.ctx.replacements@, node.kind));
    let replaced = tasks.offered_all(min, replacing);
    lemma_offered_all(tasks, min, replacing, p);
    let batches = batch_tasks(types, family.children, types.list_types(family));
    assert forall|i: int| 0 <= i < batches.len() && batches[i].1 >= min implies p(
        (#[trigger] batches[i]).0,
        batches[i].1,
    ) by {
        let kinds = types.subtypes_of(types.list_types(family)[i]);
        let picked = of_kinds(family.children, kinds);
        assert(batches[i].0.node_ids() == ids(picked));
        assert forall|k: int| 0 <= k < picked.len() implies table.contains_key(
            (#[trigger] ids(picked)[k]).id,
        ) by {
            lemma_of_kinds_picks(family.children, kinds, k);
            let j = choose|j: int|
                0 <= j < family.children.len() && family.children[j] == picked[k];
            assert(table.contains_key(family.children[j].id.id));
        }
    }
    lemma_offered_all(replaced, min, batches, p);
    lemma_children_pushed(tctx, replaced.offered_all(min, batches), family);
    let delete = TaskView::Reduce(ReductionView::Delete(node.id));
    if node.size() as usize >= min {
        lemma_enqueue(replaced, delete, node.size() as usize, p);
    }
}

/// A reduction that fails queues only tasks that are large enough and are about
/// nodes of the tree.
pub proof fn law_falling_back_keeps_the_queue_sound<'a, T>(
    tctx: ThreadCtx<'a, T>,
    tasks: TasksView,
    task: TaskView,
)
    requires
        tctx.well_formed(),
        task.known(tctx.node_ids@),
        tctx.sound_queue(tasks),
    ensures
        tctx.sound_queue(tctx.fallen_back(tasks, task)),
{
    if let Some(node_id) = task.fallback() {
        let family = tctx.node_ids@[node_id.id];
        assert(tctx.node_ids@.contains_key(node_id.id));
        lemma_children_pushed(tctx, tasks, family);
    }
}

/// A task from such a queue can be popped, its nodes are at hand, and the rest of
/// the queue is as it was.
pub proof fn law_popped_tasks_are_sound<'a, T>(
    tctx: ThreadCtx<'a, T>,
    tasks: TasksView,
    first: PrioritizedTaskView,
)
    requires
        tctx.sound_queue(tasks),
        tasks.is_first(first),
    ensures
        tctx.ctx.can_pop(tasks),
        first.task.known(tctx.node_ids@),
        tctx.sound_queue(tasks.without(first)),
{
    let p = |task: TaskView, priority: usize| tctx.is_sound(task, priority);
    assert forall|other: PrioritizedTaskView| #[trigger] tasks.is_first(other) implies p(
        other.task,
        other.priority,
    ) by {
        assert(tasks.queued.contains(other));
    }
    assert(p(first.task, first.priority));
    let named = first.task.node_ids();
    if named.len() > 0 {
        assert(tctx.node_ids@.contains_key(named[0].id));
    }
    assert forall|t: PrioritizedTaskView| #[trigger]
        tasks.without(first).queued.contains(t) implies p(t.task, t.priority) by {
        assert(tasks.queued.contains(t));
    }
}

/// A task can be popped if all tasks are large enough, and cannot if one comes first
/// that is too small and does not explore the root.
pub proof fn law_what_can_be_popped<'a, T>(
    ctx: Ctx<'a, T>,
    tasks: TasksView,
    first: PrioritizedTaskView,
)
    ensures
        (forall|t: PrioritizedTaskView| #[trigger]
            tasks.queued.contains(t) ==> t.priority >= ctx.min_task_size) ==> ctx.can_pop(tasks),
        tasks.is_first(first) && first.priority < ctx.min_task_size && first.task
            != TaskView::Explore(tree_view(ctx.orig.tree).id) ==> !ctx.can_pop(tasks),
        tasks.is_first(first) && first.task == TaskView::Explore(tree_view(ctx.orig.tree).id)
            && tasks.queued.len() == 1 ==> ctx.can_pop(tasks),
{
    if tasks.queued.len() == 1 && tasks.is_first(first) {
        assert forall|other: PrioritizedTaskView| #[trigger] tasks.is_first(other) implies other
            == first by {
            if other != first {
                assert(tasks.queued.remove(first).contains(other));
                assert(tasks.queued.remove(first).len() == 0);
                vstd::multiset::lemma_multiset_empty_len(tasks.queued.remove(first));
            }
        }
    }
}

/// The queue that a pass starts with is sound.
pub proof fn law_the_first_queue_is_sound<'a, T>(tctx: ThreadCtx<'a, T>)
    requires
        tabulates(tctx.node_ids@, tctx.ctx.orig.nodes()),
    ensures
        tctx.sound_queue(first_tasks(tctx.ctx.orig)),
{
    let root = tree_view(tctx.ctx.orig.tree).node();
    let first = tctx.ctx.orig.nodes()[0];
    assert(first.node == root);
    assert(tctx.node_ids@.contains_key(first.node.id.id));
    let p = |task: TaskView, priority: usize| tctx.is_sound(task, priority);
    let empty = TasksView {
        queued: vstd::multiset::Multiset::empty(),
        next_id: 0,
        signals: 0,
    };
    lemma_enqueue(empty, TaskView::Explore(root.id), root.size() as usize, p);
}

} // verus!
