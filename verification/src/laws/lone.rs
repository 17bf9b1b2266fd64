//! What holds of a pass that one worker runs alone.
use vstd::prelude::*;

use crate::ctx::{child_tasks, task_edit, ThreadCtx};
use crate::edits::EditsView;
use crate::explore::{batch_tasks, replace_tasks};
use crate::id::NodeId;
use crate::interesting::{judged, prepared, saved, EditsVersion, TrialView};
use crate::laws::queue::{all_queued, lemma_enqueue, lemma_enqueue_all, lemma_offered_all};
use crate::laws::twins::{
    are_twins, lemma_same_batch_tasks, lemma_same_child_tasks, lemma_same_replace_tasks,
    lemma_same_task_prints_the_same, paired, same_task, same_tasks,
};
use crate::node_types::list_or_none;
use crate::nodes::tabulates;
use crate::original::Original;
use crate::pass::first_tasks;
use crate::syntax::{distinct_ids, FamilyView};
use crate::task::{PrioritizedTaskView, ReductionView, TaskView};
use crate::tasks::TasksView;

verus! {

/// A pass of one worker, between two tasks.
pub struct Lone {
    /// The queue.
    pub tasks: TasksView,
    /// The edits.
    pub edits: EditsVersion,
}

impl Lone {
    /// The start of a pass.
    pub open spec fn start(orig: Original) -> Lone {
        Lone {
            tasks: first_tasks(orig),
            edits: EditsVersion { version: 0, edits: EditsView::none() },
        }
    }

    /// The pass after the worker has taken `first` off the queue and worked on it.
    /// The verdict of the check on a program is `check` of its text.
    pub open spec fn worked<'a, T>(
        self,
        tctx: ThreadCtx<'a, T>,
        check: spec_fn(Seq<u8>) -> bool,
        first: PrioritizedTaskView,
    ) -> Lone {
        let rest = self.tasks.without(first);
        match first.task {
            TaskView::Explore(id) => Lone {
                tasks: tctx.ctx.explored(rest, tctx.node_ids@[id.id]),
                ..self
            },
            TaskView::Reduce(_) => match prepared(tctx.ctx.orig, first.task, self.edits) {
                TrialView::Check { edits, rendered } => match judged(
                    edits,
                    rendered,
                    check(rendered),
                ) {
                    TrialView::Save { edits, .. } => Lone {
                        tasks: rest,
                        edits: saved(self.edits, edits).0,
                    },
                    _ => Lone { tasks: tctx.fallen_back(rest, first.task), ..self },
                },
                _ => Lone { tasks: rest, ..self },
            },
        }
    }

    /// The pass after the wake-ups that are owed have been given.
    pub open spec fn signalled(self) -> Lone {
        Lone { tasks: TasksView { signals: 0, ..self.tasks }, ..self }
    }

    /// Whether `next` comes of work on one task, or of giving wake-ups.
    pub open spec fn steps_to<'a, T>(
        self,
        next: Lone,
        tctx: ThreadCtx<'a, T>,
        check: spec_fn(Seq<u8>) -> bool,
    ) -> bool {
        ||| next == self.signalled()
        ||| exists|first: PrioritizedTaskView|
            {
                &&& #[trigger] self.tasks.is_first(first)
                &&& self.edits.version < usize::MAX
                &&& next == self.worked(tctx, check, first)
            }
    }
}

/// Whether the states follow one another from the start of a pass.
pub open spec fn is_lone_run<'a, T>(
    run: Seq<Lone>,
    tctx: ThreadCtx<'a, T>,
    check: spec_fn(Seq<u8>) -> bool,
) -> bool {
    &&& run.len() > 0
    &&& run[0] == Lone::start(tctx.ctx.orig)
    &&& forall|n: int|
        0 < n < run.len() ==> (#[trigger] run[n - 1]).steps_to(run[n], tctx, check)
}

/// Whether a pass has come to its end.
pub open spec fn is_over(run: Seq<Lone>) -> bool {
    run.len() > 0 && run.last().tasks.queued.len() == 0
}

/// Whether a worker has at hand the nodes of its program and no others.
pub open spec fn has_its_nodes<'a, T>(tctx: ThreadCtx<'a, T>) -> bool {
    &&& distinct_ids(tctx.ctx.orig.nodes())
    &&& tabulates(tctx.node_ids@, tctx.ctx.orig.nodes())
}

/// Whether two workers go by the same settings.
pub open spec fn same_settings<'a, 'b, T, U>(one: ThreadCtx<'a, T>, other: ThreadCtx<'b, U>) -> bool {
    &&& one.ctx.delete_non_optional == other.ctx.delete_non_optional
    &&& one.ctx.min_task_size == other.ctx.min_task_size
    &&& one.ctx.node_types@ == other.ctx.node_types@
    &&& one.ctx.replacements@ == other.ctx.replacements@
}

/// Whether a task is on the queue.
spec fn has_task(tasks: TasksView, task: TaskView) -> bool {
    exists|t: PrioritizedTaskView| #[trigger] tasks.queued.contains(t) && t.task == task
}

/// Whether a task has been on the queue at some time.
spec fn seen(run: Seq<Lone>, task: TaskView) -> bool {
    exists|n: int| 0 <= n < run.len() && has_task((#[trigger] run[n]).tasks, task)
}

/// Whether all of the tasks that are large enough have been on the queue.
spec fn all_seen(run: Seq<Lone>, items: Seq<(TaskView, usize)>, min: usize) -> bool {
    forall|i: int| 0 <= i < items.len() && items[i].1 >= min ==> seen(run, (#[trigger] items[i]).0)
}

proof fn lemma_enqueue_keeps(
    tasks: TasksView,
    task: TaskView,
    priority: usize,
    t: PrioritizedTaskView,
)
    ensures
        tasks.queued.contains(t) ==> tasks.enqueue(task, priority).queued.contains(t),
        has_task(tasks.enqueue(task, priority), task),
{
    let new = PrioritizedTaskView { task, id: tasks.next_id, priority };
    assert(tasks.enqueue(task, priority).queued.contains(new));
}

proof fn lemma_offered_all_keeps(
    tasks: TasksView,
    min: usize,
    items: Seq<(TaskView, usize)>,
    t: PrioritizedTaskView,
)
    requires
        tasks.queued.contains(t),
    ensures
        tasks.offered_all(min, items).queued.contains(t),
    decreases items.len(),
{
    if items.len() > 0 {
        lemma_offered_all_keeps(tasks, min, items.drop_last(), t);
        let start = tasks.offered_all(min, items.drop_last());
        lemma_enqueue_keeps(start, items.last().0, items.last().1, t);
    }
}

proof fn lemma_offered_all_has(
    tasks: TasksView,
    min: usize,
    items: Seq<(TaskView, usize)>,
    i: int,
)
    requires
        0 <= i < items.len(),
        items[i].1 >= min,
    ensures
        has_task(tasks.offered_all(min, items), items[i].0),
    decreases items.len(),
{
    let before = items.drop_last();
    let start = tasks.offered_all(min, before);
    let (task, priority) = items.last();
    if i < before.len() {
        lemma_offered_all_has(tasks, min, before, i);
        let t = choose|t: PrioritizedTaskView| #[trigger]
            start.queued.contains(t) && t.task == before[i].0;
        lemma_enqueue_keeps(start, task, priority, t);
        assert(tasks.offered_all(min, items).queued.contains(t));
    } else {
        lemma_enqueue_keeps(start, task, priority, arbitrary());
        let t = choose|t: PrioritizedTaskView| #[trigger]
            start.enqueue(task, priority).queued.contains(t) && t.task == task;
        assert(tasks.offered_all(min, items).queued.contains(t));
    }
}

proof fn lemma_enqueue_all_keeps(
    tasks: TasksView,
    items: Seq<(TaskView, usize)>,
    t: PrioritizedTaskView,
)
    requires
        tasks.queued.contains(t),
    ensures
        tasks.enqueue_all(items).queued.contains(t),
    decreases items.len(),
{
    if items.len() > 0 {
        lemma_enqueue_all_keeps(tasks, items.drop_last(), t);
        let start = tasks.enqueue_all(items.drop_last());
        lemma_enqueue_keeps(start, items.last().0, items.last().1, t);
    }
}

proof fn lemma_enqueue_all_has(tasks: TasksView, items: Seq<(TaskView, usize)>, i: int)
    requires
        0 <= i < items.len(),
    ensures
        has_task(tasks.enqueue_all(items), items[i].0),
    decreases items.len(),
{
    let before = items.drop_last();
    let start = tasks.enqueue_all(before);
    let (task, priority) = items.last();
    if i < before.len() {
        lemma_enqueue_all_has(tasks, before, i);
        let t = choose|t: PrioritizedTaskView| #[trigger]
            start.queued.contains(t) && t.task == before[i].0;
        lemma_enqueue_keeps(start, task, priority, t);
        assert(tasks.enqueue_all(items).queued.contains(t));
    } else {
        lemma_enqueue_keeps(start, task, priority, arbitrary());
    }
}

/// What is on the queue and is not taken off it stays there.
proof fn lemma_worked_keeps<'a, T>(
    state: Lone,
    tctx: ThreadCtx<'a, T>,
    check: spec_fn(Seq<u8>) -> bool,
    first: PrioritizedTaskView,
    t: PrioritizedTaskView,
)
    requires
        state.tasks.queued.contains(t),
        t != first,
    ensures
        state.worked(tctx, check, first).tasks.queued.contains(t),
{
    let rest = state.tasks.without(first);
    let min = tctx.ctx.min_task_size;
    assert(rest.queued.contains(t));
    if let TaskView::Explore(id) = first.task {
        let family = tctx.node_ids@[id.id];
        let replacing = replace_tasks(
            family.node,
            list_or_none(tctx.ctx.replacements@, family.node.kind),
        );
        let types = tctx.ctx.node_types@;
        let batches = batch_tasks(types, family.children, types.list_types(family));
        lemma_offered_all_keeps(rest, min, replacing, t);
        let replaced = rest.offered_all(min, replacing);
        lemma_enqueue_keeps(
            replaced,
            TaskView::Reduce(ReductionView::Delete(family.node.id)),
            family.node.size() as usize,
            t,
        );
        lemma_offered_all_keeps(replaced, min, batches, t);
        lemma_enqueue_all_keeps(
            replaced.offered_all(min, batches),
            child_tasks(family.children, min),
            t,
        );
    } else if let Some(id) = first.task.fallback() {
        lemma_enqueue_all_keeps(
            rest,
            child_tasks(tctx.node_ids@[id.id].children, min),
            t,
        );
    }
}

/// What has been on the queue of a pass that is over has been worked on.
proof fn lemma_leaves<'a, T>(
    run: Seq<Lone>,
    tctx: ThreadCtx<'a, T>,
    check: spec_fn(Seq<u8>) -> bool,
    n: int,
    t: PrioritizedTaskView,
) -> (m: int)
    requires
        is_lone_run(run, tctx, check),
        is_over(run),
        0 <= n < run.len(),
        run[n].tasks.queued.contains(t),
    ensures
        0 < m < run.len(),
        run[m - 1].tasks.is_first(t),
        run[m - 1].edits.version < usize::MAX,
        run[m] == run[m - 1].worked(tctx, check, t),
    decreases run.len() - n,
{
    if n == run.len() - 1 {
        assert(run.last().tasks.queued.count(t) > 0);
        assert(false) by {
            vstd::multiset::lemma_multiset_empty_len(run.last().tasks.queued);
        }
        0
    } else {
        assert(run[n + 1 - 1].steps_to(run[n + 1], tctx, check));
        if run[n + 1] == run[n].signalled() {
            lemma_leaves(run, tctx, check, n + 1, t)
        } else {
            let first = choose|first: PrioritizedTaskView|
                {
                    &&& #[trigger] run[n].tasks.is_first(first)
                    &&& run[n].edits.version < usize::MAX
                    &&& run[n + 1] == run[n].worked(tctx, check, first)
                };
            if first == t {
                n + 1
            } else {
                lemma_worked_keeps(run[n], tctx, check, first, t);
                lemma_leaves(run, tctx, check, n + 1, t)
            }
        }
    }
}

/// Where a task changes the edits, there are edits.
proof fn lemma_saved_is_some(edits: EditsView, task: TaskView)
    requires
        task is Reduce,
    ensures
        task_edit(edits, task) matches Some(next) ==> next != EditsView::none(),
{
    match task {
        TaskView::Reduce(ReductionView::Delete(id)) => {
            assert(edits.omit(id).by_id.contains_key(id.id));
        },
        TaskView::Reduce(ReductionView::DeleteAll(ids)) => {
            if ids.len() > 0 {
                assert(edits.omit_all(ids).by_id.contains_key(ids.last().id));
            }
        },
        TaskView::Reduce(ReductionView::Replace { node_id, with }) => {
            assert(edits.replace(node_id, with).by_id.contains_key(node_id.id));
        },
        _ => {},
    }
}

/// In a pass that finds no edits there are none at any time.
proof fn lemma_no_edits_before<'a, T>(
    run: Seq<Lone>,
    tctx: ThreadCtx<'a, T>,
    check: spec_fn(Seq<u8>) -> bool,
    n: int,
)
    requires
        is_lone_run(run, tctx, check),
        run.last().edits.edits == EditsView::none(),
        0 <= n < run.len(),
    ensures
        run[n].edits.edits == EditsView::none(),
    decreases run.len() - n,
{
    if n < run.len() - 1 {
        lemma_no_edits_before(run, tctx, check, n + 1);
        assert(run[n + 1 - 1].steps_to(run[n + 1], tctx, check));
        if run[n + 1] != run[n].signalled() {
            let first = choose|first: PrioritizedTaskView|
                {
                    &&& #[trigger] run[n].tasks.is_first(first)
                    &&& run[n].edits.version < usize::MAX
                    &&& run[n + 1] == run[n].worked(tctx, check, first)
                };
            if first.task is Reduce {
                lemma_saved_is_some(run[n].edits.edits, first.task);
            }
        }
    }
}

/// In a pass that is over and has found no edits, exploring a node has put all its
/// tasks on the queue.
proof fn lemma_explored_seen<'a, T>(
    run: Seq<Lone>,
    tctx: ThreadCtx<'a, T>,
    check: spec_fn(Seq<u8>) -> bool,
    id: NodeId,
)
    requires
        is_lone_run(run, tctx, check),
        is_over(run),
        seen(run, TaskView::Explore(id)),
    ensures
        ({
            let family = tctx.node_ids@[id.id];
            let node = family.node;
            let types = tctx.ctx.node_types@;
            let min = tctx.ctx.min_task_size;
            &&& all_seen(
                run,
                replace_tasks(node, list_or_none(tctx.ctx.replacements@, node.kind)),
                min,
            )
            &&& if types.optional_node(family) || tctx.ctx.delete_non_optional {
                node.size() as usize >= min ==> seen(
                    run,
                    TaskView::Reduce(ReductionView::Delete(node.id)),
                )
            } else {
                &&& all_seen(
                    run,
                    batch_tasks(types, family.children, types.list_types(family)),
                    min,
                )
                &&& all_seen(run, child_tasks(family.children, min), 0)
            }
        }),
{
    let k = choose|k: int|
        0 <= k < run.len() && has_task((#[trigger] run[k]).tasks, TaskView::Explore(id));
    let t = choose|t: PrioritizedTaskView| #[trigger]
        run[k].tasks.queued.contains(t) && t.task == TaskView::Explore(id);
    let m = lemma_leaves(run, tctx, check, k, t);
    let family = tctx.node_ids@[id.id];
    let node = family.node;
    let types = tctx.ctx.node_types@;
    let min = tctx.ctx.min_task_size;
    let rest = run[m - 1].tasks.without(t);
    let replacing = replace_tasks(node, list_or_none(tctx.ctx.replacements@, node.kind));
    let replaced = rest.offered_all(min, replacing);
    let batches = batch_tasks(types, family.children, types.list_types(family));
    let batched = replaced.offered_all(min, batches);
    let kids = child_tasks(family.children, min);
    let size = node.size() as usize;
    let delete = TaskView::Reduce(ReductionView::Delete(node.id));
    assert(run[m].tasks == tctx.ctx.explored(rest, family));
    let deletes = types.optional_node(family) || tctx.ctx.delete_non_optional;
    assert forall|i: int| 0 <= i < replacing.len() && replacing[i].1 >= min implies seen(
        run,
        (#[trigger] replacing[i]).0,
    ) by {
        lemma_offered_all_has(rest, min, replacing, i);
        let s = choose|s: PrioritizedTaskView| #[trigger]
            replaced.queued.contains(s) && s.task == replacing[i].0;
        if deletes {
            lemma_enqueue_keeps(replaced, delete, size, s);
        } else {
            lemma_offered_all_keeps(replaced, min, batches, s);
            lemma_enqueue_all_keeps(batched, kids, s);
        }
        assert(run[m].tasks.queued.contains(s));
        assert(has_task(run[m].tasks, replacing[i].0));
    }
    if deletes {
        if size >= min {
            lemma_enqueue_keeps(replaced, delete, size, arbitrary());
            let s = choose|s: PrioritizedTaskView| #[trigger]
                replaced.enqueue(delete, size).queued.contains(s) && s.task == delete;
            assert(run[m].tasks.queued.contains(s));
            assert(has_task(run[m].tasks, delete));
        }
    } else {
        assert forall|i: int| 0 <= i < batches.len() && batches[i].1 >= min implies seen(
            run,
            (#[trigger] batches[i]).0,
        ) by {
            lemma_offered_all_has(replaced, min, batches, i);
            let s = choose|s: PrioritizedTaskView| #[trigger]
                batched.queued.contains(s) && s.task == batches[i].0;
            lemma_enqueue_all_keeps(batched, kids, s);
            assert(run[m].tasks.queued.contains(s));
            assert(has_task(run[m].tasks, batches[i].0));
        }
        assert forall|i: int| 0 <= i < kids.len() && kids[i].1 >= 0 implies seen(
            run,
            (#[trigger] kids[i]).0,
        ) by {
            lemma_enqueue_all_has(batched, kids, i);
            let s = choose|s: PrioritizedTaskView| #[trigger]
                batched.enqueue_all(kids).queued.contains(s) && s.task == kids[i].0;
            assert(run[m].tasks.queued.contains(s));
            assert(has_task(run[m].tasks, kids[i].0));
        }
    }
}

/// In a pass that is over and has found no edits, the check has refused every
/// reduction, and the children of its node have been put on the queue.
proof fn lemma_refused<'a, T>(
    run: Seq<Lone>,
    tctx: ThreadCtx<'a, T>,
    check: spec_fn(Seq<u8>) -> bool,
    task: TaskView,
)
    requires
        is_lone_run(run, tctx, check),
        is_over(run),
        run.last().edits.edits == EditsView::none(),
        task is Reduce,
        seen(run, task),
    ensures
        task_edit(EditsView::none(), task) matches Some(next) ==> {
            &&& !check(tctx.ctx.orig.rendered(next))
            &&& task.fallback() matches Some(id) ==> all_seen(
                run,
                child_tasks(tctx.node_ids@[id.id].children, tctx.ctx.min_task_size),
                0,
            )
        },
{
    let k = choose|k: int| 0 <= k < run.len() && has_task((#[trigger] run[k]).tasks, task);
    let t = choose|t: PrioritizedTaskView| #[trigger]
        run[k].tasks.queued.contains(t) && t.task == task;
    let m = lemma_leaves(run, tctx, check, k, t);
    lemma_no_edits_before(run, tctx, check, m - 1);
    lemma_no_edits_before(run, tctx, check, m);
    lemma_saved_is_some(EditsView::none(), task);
    if task_edit(EditsView::none(), task) is Some {
        if let Some(id) = task.fallback() {
            let min = tctx.ctx.min_task_size;
            let rest = run[m - 1].tasks.without(t);
            let kids = child_tasks(tctx.node_ids@[id.id].children, min);
            assert forall|i: int| 0 <= i < kids.len() && kids[i].1 >= 0 implies seen(
                run,
                (#[trigger] kids[i]).0,
            ) by {
                lemma_enqueue_all_has(rest, kids, i);
                let s = choose|s: PrioritizedTaskView| #[trigger]
                    rest.enqueue_all(kids).queued.contains(s) && s.task == kids[i].0;
                assert(run[m].tasks.queued.contains(s));
                assert(has_task(run[m].tasks, kids[i].0));
            }
        }
    }
}

/// Whether a task does the same as one that has been on the queue of a pass over a
/// twin of the tree.
spec fn has_precedent(
    run: Seq<Lone>,
    ones: Seq<FamilyView>,
    others: Seq<FamilyView>,
    task: TaskView,
) -> bool {
    exists|before: TaskView| #[trigger] same_task(ones, others, before, task) && seen(run, before)
}

proof fn lemma_all_have_precedents(
    run: Seq<Lone>,
    ones: Seq<FamilyView>,
    others: Seq<FamilyView>,
    a: Seq<(TaskView, usize)>,
    b: Seq<(TaskView, usize)>,
    min: usize,
)
    requires
        same_tasks(ones, others, a, b),
        all_seen(run, a, min),
    ensures
        forall|i: int|
            0 <= i < b.len() && b[i].1 >= min ==> has_precedent(
                run,
                ones,
                others,
                (#[trigger] b[i]).0,
            ),
{
    assert forall|i: int| 0 <= i < b.len() && b[i].1 >= min implies has_precedent(
        run,
        ones,
        others,
        (#[trigger] b[i]).0,
    ) by {
        assert(same_task(ones, others, a[i].0, b[i].0));
    }
}

/// One step of a pass over a program for whose tasks there are precedents in a pass
/// that found nothing: nothing is found, and there are precedents for all tasks.
proof fn lemma_goes_on_like<'a, 'b, T, U>(
    run: Seq<Lone>,
    one: ThreadCtx<'a, T>,
    other: ThreadCtx<'b, U>,
    check: spec_fn(Seq<u8>) -> bool,
    state: Lone,
    first: PrioritizedTaskView,
)
    requires
        has_its_nodes(one),
        has_its_nodes(other),
        same_settings(one, other),
        one.ctx.orig.text@ == other.ctx.orig.text@,
        are_twins(one.ctx.orig.nodes(), other.ctx.orig.nodes()),
        is_lone_run(run, one, check),
        is_over(run),
        run.last().edits.edits == EditsView::none(),
        state.edits.edits == EditsView::none(),
        state.tasks.is_first(first),
        all_queued(
            state.tasks,
            |task: TaskView, priority: usize|
                has_precedent(run, one.ctx.orig.nodes(), other.ctx.orig.nodes(), task),
        ),
    ensures
        state.worked(other, check, first).edits.edits == EditsView::none(),
        all_queued(
            state.worked(other, check, first).tasks,
            |task: TaskView, priority: usize|
                has_precedent(run, one.ctx.orig.nodes(), other.ctx.orig.nodes(), task),
        ),
{
    let ones = one.ctx.orig.nodes();
    let others = other.ctx.orig.nodes();
    let p = |task: TaskView, priority: usize| has_precedent(run, ones, others, task);
    let min = other.ctx.min_task_size;
    let rest = state.tasks.without(first);
    assert(all_queued(rest, p)) by {
        assert forall|t: PrioritizedTaskView| #[trigger] rest.queued.contains(t) implies p(
            t.task,
            t.priority,
        ) by {
            assert(state.tasks.queued.contains(t));
        }
    }
    assert(p(first.task, first.priority));
    let before = choose|before: TaskView| #[trigger]
        same_task(ones, others, before, first.task) && seen(run, before);
    match first.task {
        TaskView::Explore(b) => {
            let a = before->Explore_0;
            let i = choose|i: int|
                0 <= i < ones.len() && (#[trigger] ones[i]).node.id == a && others[i].node.id == b;
            let x = ones[i];
            let y = others[i];
            assert(one.node_ids@[a.id] == x);
            assert(other.node_ids@[b.id] == y);
            assert(paired(ones, others, x.node.id, y.node.id));
            lemma_explored_seen(run, one, check, a);
            let types = other.ctx.node_types@;
            let with = list_or_none(other.ctx.replacements@, y.node.kind);
            let kinds = types.list_types(y);
            let replacing = replace_tasks(y.node, with);
            let batches = batch_tasks(types, y.children, kinds);
            let kids = child_tasks(y.children, min);
            let replaced = rest.offered_all(min, replacing);
            lemma_same_replace_tasks(ones, others, x.node, y.node, with);
            lemma_all_have_precedents(
                run,
                ones,
                others,
                replace_tasks(x.node, with),
                replacing,
                min,
            );
            lemma_offered_all(rest, min, replacing, p);
            if types.optional_node(y) || other.ctx.delete_non_optional {
                let delete = TaskView::Reduce(ReductionView::Delete(y.node.id));
                let size = y.node.size() as usize;
                if size >= min {
                    let same = TaskView::Reduce(ReductionView::Delete(x.node.id));
                    assert(same_task(ones, others, same, delete));
                    lemma_enqueue(replaced, delete, size, p);
                }
            } else {
                lemma_same_batch_tasks(ones, others, types, x.children, y.children, kinds);
                lemma_all_have_precedents(
                    run,
                    ones,
                    others,
                    batch_tasks(types, x.children, kinds),
                    batches,
                    min,
                );
                lemma_offered_all(replaced, min, batches, p);
                lemma_same_child_tasks(ones, others, x.children, y.children, min);
                lemma_all_have_precedents(run, ones, others, child_tasks(x.children, min), kids, 0);
                lemma_enqueue_all(replaced.offered_all(min, batches), kids, p);
            }
        },
        TaskView::Reduce(_) => {
            lemma_same_task_prints_the_same(
                ones,
                others,
                other.ctx.orig.text@,
                before,
                first.task,
            );
            lemma_refused(run, one, check, before);
            if task_edit(EditsView::none(), first.task) is Some {
                if let Some(b) = first.task.fallback() {
                    let a = before.fallback()->0;
                    assert(paired(ones, others, a, b));
                    let i = choose|i: int|
                        0 <= i < ones.len() && (#[trigger] ones[i]).node.id == a
                            && others[i].node.id == b;
                    let x = ones[i];
                    let y = others[i];
                    assert(one.node_ids@[a.id] == x);
                    assert(other.node_ids@[b.id] == y);
                    let kids = child_tasks(y.children, min);
                    lemma_same_child_tasks(ones, others, x.children, y.children, min);
                    lemma_all_have_precedents(
                        run,
                        ones,
                        others,
                        child_tasks(x.children, min),
                        kids,
                        0,
                    );
                    lemma_enqueue_all(rest, kids, p);
                }
            }
        },
    }
}

proof fn lemma_finds_nothing_again<'a, 'b, T, U>(
    run: Seq<Lone>,
    one: ThreadCtx<'a, T>,
    again: Seq<Lone>,
    other: ThreadCtx<'b, U>,
    check: spec_fn(Seq<u8>) -> bool,
    n: int,
)
    requires
        has_its_nodes(one),
        has_its_nodes(other),
        same_settings(one, other),
        one.ctx.orig.text@ == other.ctx.orig.text@,
        are_twins(one.ctx.orig.nodes(), other.ctx.orig.nodes()),
        is_lone_run(run, one, check),
        is_over(run),
        run.last().edits.edits == EditsView::none(),
        is_lone_run(again, other, check),
        0 <= n < again.len(),
    ensures
        again[n].edits.edits == EditsView::none(),
        all_queued(
            again[n].tasks,
            |task: TaskView, priority: usize|
                has_precedent(run, one.ctx.orig.nodes(), other.ctx.orig.nodes(), task),
        ),
    decreases n,
{
    let ones = one.ctx.orig.nodes();
    let others = other.ctx.orig.nodes();
    let p = |task: TaskView, priority: usize| has_precedent(run, ones, others, task);
    if n == 0 {
        let a = ones[0].node;
        let b = others[0].node;
        let empty = TasksView {
            queued: vstd::multiset::Multiset::empty(),
            next_id: 0,
            signals: 0,
        };
        assert(paired(ones, others, a.id, b.id));
        lemma_enqueue_keeps(empty, TaskView::Explore(a.id), a.size() as usize, arbitrary());
        let t = choose|t: PrioritizedTaskView| #[trigger]
            empty.enqueue(TaskView::Explore(a.id), a.size() as usize).queued.contains(t) && t.task
                == TaskView::Explore(a.id);
        assert(run[0].tasks.queued.contains(t));
        assert(has_task(run[0].tasks, TaskView::Explore(a.id)));
        assert(same_task(ones, others, TaskView::Explore(a.id), TaskView::Explore(b.id)));
        lemma_enqueue(empty, TaskView::Explore(b.id), b.size() as usize, p);
    } else {
        lemma_finds_nothing_again(run, one, again, other, check, n - 1);
        let pre = again[n - 1];
        assert(pre.steps_to(again[n], other, check));
        if again[n] != pre.signalled() {
            let first = choose|first: PrioritizedTaskView|
                {
                    &&& #[trigger] pre.tasks.is_first(first)
                    &&& pre.edits.version < usize::MAX
                    &&& again[n] == pre.worked(other, check, first)
                };
            lemma_goes_on_like(run, one, other, check, pre, first);
        } else {
            assert forall|t: PrioritizedTaskView| #[trigger]
                again[n].tasks.queued.contains(t) implies p(t.task, t.priority) by {
                assert(pre.tasks.queued.contains(t));
            }
        }
    }
}

/// If a pass over a program is over and has found no edits, a pass over a twin of
/// the program, with the same settings and a check that answers the same, finds
/// none at any time, whichever of several equally large tasks comes first.
pub proof fn law_what_is_not_found_is_not_found_again<'a, 'b, T, U>(
    run: Seq<Lone>,
    one: ThreadCtx<'a, T>,
    again: Seq<Lone>,
    other: ThreadCtx<'b, U>,
    check: spec_fn(Seq<u8>) -> bool,
    n: int,
)
    requires
        has_its_nodes(one),
        has_its_nodes(other),
        same_settings(one, other),
        one.ctx.orig.text@ == other.ctx.orig.text@,
        are_twins(one.ctx.orig.nodes(), other.ctx.orig.nodes()),
        is_lone_run(run, one, check),
        is_over(run),
        run.last().edits.edits == EditsView::none(),
        is_lone_run(again, other, check),
        0 <= n < again.len(),
    ensures
        again[n].edits.edits == EditsView::none(),
{
    lemma_finds_nothing_again(run, one, again, other, check, n);
}

} // verus!
