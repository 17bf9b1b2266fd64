//! That a pass comes to its end.
use vstd::multiset::Multiset;
use vstd::prelude::*;

use crate::ctx::{child_tasks, Ctx, ThreadCtx};
use crate::explore::{batch_tasks, replace_tasks};
use crate::id::NodeId;
use crate::laws::lone::{has_its_nodes, is_lone_run, Lone};
use crate::laws::queue::{
    law_exploring_keeps_the_queue_sound, law_falling_back_keeps_the_queue_sound,
    law_popped_tasks_are_sound, law_the_first_queue_is_sound,
};
use crate::node_types::list_or_none;
use crate::syntax::{distinct_ids, lemma_children_are_nodes, tree_view, FamilyView};
use crate::task::{PrioritizedTaskView, ReductionView, TaskView};
use crate::tasks::TasksView;

verus! {

/// The place of the node with an identifier.
pub open spec fn place(nodes: Seq<FamilyView>, id: NodeId) -> int {
    choose|i: int| 0 <= i < nodes.len() && (#[trigger] nodes[i]).node.id == id
}

impl<'a, T> Ctx<'a, T> {
    /// How many tasks can come of exploring the first `j` children of the node at
    /// `i`, at most.
    pub open spec fn children_cost(self, i: int, j: int) -> nat
        decreases self.orig.nodes().len() - i, j,
    {
        let nodes = self.orig.nodes();
        if !(0 <= i < nodes.len()) || j <= 0 {
            0
        } else {
            let k = place(nodes, nodes[i].children[j - 1].id);
            self.children_cost(i, j - 1) + if i < k < nodes.len() {
                self.node_cost(k)
            } else {
                0
            }
        }
    }

    /// How many tasks can come of exploring the node at `i`, at most, that one
    /// among them.
    pub open spec fn node_cost(self, i: int) -> nat
        decreases self.orig.nodes().len() - i, self.orig.nodes()[i].children.len() + 1,
    {
        let nodes = self.orig.nodes();
        if !(0 <= i < nodes.len()) {
            0
        } else {
            let below = self.children_cost(i, nodes[i].children.len() as int);
            let texts = list_or_none(self.replacements@, nodes[i].node.kind).len();
            let kinds = self.node_types@.list_types(nodes[i]).len();
            2 + kinds + below + texts * (1 + below)
        }
    }

    /// How many tasks can come of trying a reduction of a node, at most, that one
    /// among them.
    pub open spec fn reduction_cost(self, id: NodeId) -> nat {
        let i = place(self.orig.nodes(), id);
        1 + self.children_cost(i, self.orig.nodes()[i].children.len() as int)
    }

    /// How many tasks can come of a task, at most, itself among them.
    pub open spec fn task_cost(self, task: TaskView) -> nat {
        match task {
            TaskView::Explore(id) => self.node_cost(place(self.orig.nodes(), id)),
            TaskView::Reduce(ReductionView::Delete(id)) => self.reduction_cost(id),
            TaskView::Reduce(ReductionView::DeleteAll(_)) => 1,
            TaskView::Reduce(ReductionView::Replace { node_id, .. }) => self.reduction_cost(
                node_id,
            ),
        }
    }

    /// How many tasks can come of all that is queued, at most.
    pub open spec fn queue_cost(self, queued: Multiset<PrioritizedTaskView>) -> nat
        decreases queued.len(),
    {
        if queued.len() == 0 {
            0
        } else {
            let t = queued.choose();
            if queued.contains(t) {
                self.task_cost(t.task) + self.queue_cost(queued.remove(t))
            } else {
                0
            }
        }
    }

    /// How many tasks can come of tasks, at most.
    spec fn list_cost(self, items: Seq<(TaskView, usize)>) -> nat
        decreases items.len(),
    {
        if items.len() == 0 {
            0
        } else {
            self.list_cost(items.drop_last()) + self.task_cost(items.last().0)
        }
    }
}

proof fn lemma_taken<'a, T>(
    ctx: Ctx<'a, T>,
    queued: Multiset<PrioritizedTaskView>,
    t: PrioritizedTaskView,
)
    requires
        queued.contains(t),
    ensures
        ctx.queue_cost(queued) == ctx.task_cost(t.task) + ctx.queue_cost(queued.remove(t)),
    decreases queued.len(),
{
    assert(queued.len() > 0);
    let u = queued.choose();
    assert(queued.contains(u));
    if u != t {
        let x = queued.remove(u);
        let y = queued.remove(t);
        lemma_taken(ctx, x, t);
        lemma_taken(ctx, y, u);
        assert(x.remove(t) =~= y.remove(u));
    }
}

proof fn lemma_enqueue_cost<'a, T>(ctx: Ctx<'a, T>, tasks: TasksView, task: TaskView, priority: usize)
    ensures
        ctx.queue_cost(tasks.enqueue(task, priority).queued) == ctx.queue_cost(tasks.queued)
            + ctx.task_cost(task),
{
    let t = PrioritizedTaskView { task, id: tasks.next_id, priority };
    let more = tasks.queued.insert(t);
    lemma_taken(ctx, more, t);
    assert(more.remove(t) =~= tasks.queued);
}

proof fn lemma_offered_all_cost<'a, T>(
    ctx: Ctx<'a, T>,
    tasks: TasksView,
    min: usize,
    items: Seq<(TaskView, usize)>,
)
    ensures
        ctx.queue_cost(tasks.offered_all(min, items).queued) <= ctx.queue_cost(tasks.queued)
            + ctx.list_cost(items),
    decreases items.len(),
{
    if items.len() > 0 {
        let start = tasks.offered_all(min, items.drop_last());
        lemma_offered_all_cost(ctx, tasks, min, items.drop_last());
        lemma_enqueue_cost(ctx, start, items.last().0, items.last().1);
    }
}

proof fn lemma_enqueue_all_cost<'a, T>(
    ctx: Ctx<'a, T>,
    tasks: TasksView,
    items: Seq<(TaskView, usize)>,
)
    ensures
        ctx.queue_cost(tasks.enqueue_all(items).queued) == ctx.queue_cost(tasks.queued)
            + ctx.list_cost(items),
    decreases items.len(),
{
    if items.len() > 0 {
        let start = tasks.enqueue_all(items.drop_last());
        lemma_enqueue_all_cost(ctx, tasks, items.drop_last());
        lemma_enqueue_cost(ctx, start, items.last().0, items.last().1);
    }
}

/// Tasks of one cost come to their number times that.
proof fn lemma_equal_costs<'a, T>(ctx: Ctx<'a, T>, items: Seq<(TaskView, usize)>, each: nat)
    requires
        forall|i: int| 0 <= i < items.len() ==> ctx.task_cost((#[trigger] items[i]).0) == each,
    ensures
        ctx.list_cost(items) == items.len() * each,
    decreases items.len(),
{
    if items.len() > 0 {
        let start = items.drop_last();
        assert forall|i: int| 0 <= i < start.len() implies ctx.task_cost((#[trigger] start[i]).0)
            == each by {
            assert(start[i] == items[i]);
        }
        lemma_equal_costs(ctx, start, each);
        assert(ctx.task_cost(items[items.len() - 1].0) == each);
        let n = start.len();
        assert((n + 1) * each == n * each + each) by (nonlinear_arith);
    } else {
        assert(0 * each == 0) by (nonlinear_arith);
    }
}

/// The node with the identifier of a node is that node.
proof fn lemma_place(nodes: Seq<FamilyView>, i: int)
    requires
        distinct_ids(nodes),
        0 <= i < nodes.len(),
    ensures
        place(nodes, nodes[i].node.id) == i,
{
    let k = place(nodes, nodes[i].node.id);
    assert(0 <= k < nodes.len() && nodes[k].node.id == nodes[i].node.id);
    if k < i {
        assert(nodes[k].node.id != nodes[i].node.id);
    } else if i < k {
        assert(nodes[i].node.id != nodes[k].node.id);
    }
}

/// Exploring the children of a node costs no more than is allowed for it.
proof fn lemma_child_tasks_cost<'a, T>(ctx: Ctx<'a, T>, i: int, j: int, min: usize)
    requires
        distinct_ids(ctx.orig.nodes()),
        0 <= i < ctx.orig.nodes().len(),
        0 <= j <= ctx.orig.nodes()[i].children.len(),
    ensures
        ctx.list_cost(child_tasks(ctx.orig.nodes()[i].children.take(j), min)) <= ctx.children_cost(
            i,
            j,
        ),
    decreases j,
{
    let nodes = ctx.orig.nodes();
    let children = nodes[i].children;
    if j > 0 {
        let first = children.take(j);
        lemma_child_tasks_cost(ctx, i, j - 1, min);
        assert(first.drop_last() =~= children.take(j - 1));
        assert(first.last() == children[j - 1]);
        lemma_children_are_nodes(tree_view(ctx.orig.tree), None, i, j - 1);
        let k = choose|k: int|
            i < k < nodes.len() && (#[trigger] nodes[k]).node == children[j - 1];
        lemma_place(nodes, k);
        let start = child_tasks(children.take(j - 1), min);
        let item = (TaskView::Explore(children[j - 1].id), children[j - 1].size() as usize);
        assert(start.push(item).drop_last() =~= start);
    }
}

/// With every task that is worked on, fewer tasks can still come.
proof fn lemma_worked_costs<'a, T>(
    state: Lone,
    tctx: ThreadCtx<'a, T>,
    check: spec_fn(Seq<u8>) -> bool,
    first: PrioritizedTaskView,
)
    requires
        has_its_nodes(tctx),
        tctx.sound_queue(state.tasks),
        state.tasks.is_first(first),
    ensures
        tctx.ctx.queue_cost(state.worked(tctx, check, first).tasks.queued) < tctx.ctx.queue_cost(
            state.tasks.queued,
        ),
{
    let ctx = *tctx.ctx;
    let nodes = ctx.orig.nodes();
    let min = ctx.min_task_size;
    let table = tctx.node_ids@;
    let rest = state.tasks.without(first);
    let p = |task: TaskView, priority: usize| tctx.is_sound(task, priority);
    assert(p(first.task, first.priority));
    lemma_taken(ctx, state.tasks.queued, first);
    let named = match first.task {
        TaskView::Explore(id) => Some(id),
        _ => first.task.fallback(),
    };
    if let Some(id) = named {
        assert(first.task.node_ids()[0] == id);
        assert(table.contains_key(id.id));
        let i = choose|i: int| 0 <= i < nodes.len() && (#[trigger] nodes[i]).node.id.id == id.id;
        assert(nodes[i].node.id == id);
        lemma_place(nodes, i);
        let family = nodes[i];
        assert(table[id.id] == family);
        let n = family.children.len() as int;
        let below = ctx.children_cost(i, n);
        let kids = child_tasks(family.children, min);
        lemma_child_tasks_cost(ctx, i, n, min);
        assert(family.children.take(n) =~= family.children);
        if first.task is Explore {
            let node = family.node;
            let types = ctx.node_types@;
            let with = list_or_none(ctx.replacements@, node.kind);
            let replacing = replace_tasks(node, with);
            let kinds = types.list_types(family);
            let batches = batch_tasks(types, family.children, kinds);
            let replaced = rest.offered_all(min, replacing);
            let batched = replaced.offered_all(min, batches);
            lemma_equal_costs(ctx, replacing, 1 + below);
            lemma_offered_all_cost(ctx, rest, min, replacing);
            lemma_equal_costs(ctx, batches, 1);
            lemma_offered_all_cost(ctx, replaced, min, batches);
            lemma_enqueue_all_cost(ctx, batched, kids);
            lemma_enqueue_cost(
                ctx,
                replaced,
                TaskView::Reduce(ReductionView::Delete(node.id)),
                node.size() as usize,
            );
            assert(batches.len() * 1 == batches.len());
        } else {
            lemma_enqueue_all_cost(ctx, rest, kids);
        }
    }
}

/// A queue that is not empty has a task of the largest priority.
proof fn lemma_some_first(tasks: TasksView) -> (first: PrioritizedTaskView)
    requires
        tasks.queued.len() > 0,
    ensures
        tasks.is_first(first),
    decreases tasks.queued.len(),
{
    let t = tasks.queued.choose();
    assert(tasks.queued.contains(t));
    let rest = tasks.without(t);
    if rest.queued.len() == 0 {
        vstd::multiset::lemma_multiset_empty_len(rest.queued);
        assert forall|other: PrioritizedTaskView| #[trigger]
            tasks.queued.contains(other) implies other.priority <= t.priority by {
            if other != t {
                assert(rest.queued.contains(other));
            }
        }
        t
    } else {
        let u = lemma_some_first(rest);
        assert(rest.queued.contains(u));
        let first = if u.priority <= t.priority {
            t
        } else {
            u
        };
        assert forall|other: PrioritizedTaskView| #[trigger]
            tasks.queued.contains(other) implies other.priority <= first.priority by {
            if other != t {
                assert(rest.queued.contains(other));
            }
        }
        first
    }
}

/// How many tasks have been worked on up to the state at `n`.
pub open spec fn work_done(run: Seq<Lone>, n: int) -> nat
    decreases n,
{
    if n <= 0 {
        0
    } else {
        work_done(run, n - 1) + if run[n] == run[n - 1].signalled() {
            0nat
        } else {
            1nat
        }
    }
}

/// At all times of a pass the queue holds only tasks that are large enough or
/// explore the root, and are about nodes of the tree.
pub proof fn law_the_queue_is_sound_at_all_times<'a, T>(
    run: Seq<Lone>,
    tctx: ThreadCtx<'a, T>,
    check: spec_fn(Seq<u8>) -> bool,
    n: int,
)
    requires
        tctx.well_formed(),
        has_its_nodes(tctx),
        is_lone_run(run, tctx, check),
        0 <= n < run.len(),
    ensures
        tctx.sound_queue(run[n].tasks),
    decreases n,
{
    let p = |task: TaskView, priority: usize| tctx.is_sound(task, priority);
    if n == 0 {
        law_the_first_queue_is_sound(tctx);
    } else {
        law_the_queue_is_sound_at_all_times(run, tctx, check, n - 1);
        let pre = run[n - 1];
        assert(pre.steps_to(run[n], tctx, check));
        if run[n] == pre.signalled() {
            assert forall|t: PrioritizedTaskView| #[trigger]
                run[n].tasks.queued.contains(t) implies p(t.task, t.priority) by {
                assert(pre.tasks.queued.contains(t));
            }
        } else {
            let first = choose|first: PrioritizedTaskView|
                {
                    &&& #[trigger] pre.tasks.is_first(first)
                    &&& pre.edits.version < usize::MAX
                    &&& run[n] == pre.worked(tctx, check, first)
                };
            law_popped_tasks_are_sound(tctx, pre.tasks, first);
            let rest = pre.tasks.without(first);
            if let TaskView::Explore(id) = first.task {
                law_exploring_keeps_the_queue_sound(tctx, rest, id);
            } else {
                law_falling_back_keeps_the_queue_sound(tctx, rest, first.task);
            }
        }
    }
}

/// A pass of one worker comes to its end.  While there is a task on the queue, the
/// worker can go on; and however it goes on, and whatever the check says, it works
/// on no more tasks than can come of the first.
pub proof fn law_a_pass_comes_to_its_end<'a, T>(
    run: Seq<Lone>,
    tctx: ThreadCtx<'a, T>,
    check: spec_fn(Seq<u8>) -> bool,
    n: int,
)
    requires
        tctx.well_formed(),
        has_its_nodes(tctx),
        is_lone_run(run, tctx, check),
        0 <= n < run.len(),
    ensures
        run[n].tasks.queued.len() > 0 ==> exists|first: PrioritizedTaskView| #[trigger]
            run[n].tasks.is_first(first),
        work_done(run, n) + tctx.ctx.queue_cost(run[n].tasks.queued) <= tctx.ctx.queue_cost(
            run[0].tasks.queued,
        ),
    decreases n,
{
    if run[n].tasks.queued.len() > 0 {
        let first = lemma_some_first(run[n].tasks);
        assert(run[n].tasks.is_first(first));
    }
    if n > 0 {
        law_a_pass_comes_to_its_end(run, tctx, check, n - 1);
        law_the_queue_is_sound_at_all_times(run, tctx, check, n - 1);
        let pre = run[n - 1];
        assert(pre.steps_to(run[n], tctx, check));
        if run[n] != pre.signalled() {
            let first = choose|first: PrioritizedTaskView|
                {
                    &&& #[trigger] pre.tasks.is_first(first)
                    &&& pre.edits.version < usize::MAX
                    &&& run[n] == pre.worked(tctx, check, first)
                };
            lemma_worked_costs(pre, tctx, check, first);
        }
    }
}

} // verus!
