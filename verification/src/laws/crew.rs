//! What holds of a pass in which nothing is replaced, however many workers run it.
use vstd::prelude::*;

use crate::ctx::{child_tasks, task_edit, Ctx, ThreadCtx};
use crate::edits::EditsView;
use crate::explore::{batch_task, batch_tasks, ids, of_kinds, replace_tasks};
use crate::id::NodeId;
use crate::interesting::{Interesting, TrialView};
use crate::laws::editing::law_omitting_all_omits_each;
use crate::laws::lone::has_its_nodes;
use crate::laws::queue::{
    all_queued, law_exploring_keeps_the_queue_sound, law_falling_back_keeps_the_queue_sound,
    law_popped_tasks_are_sound, law_the_first_queue_is_sound, lemma_enqueue, lemma_enqueue_all,
    lemma_of_kinds_picks, lemma_offered_all,
};
use crate::laws::rendering::only_omits;
use crate::laws::trials::{law_no_edits_are_lost, law_trials_go_on_well, law_trials_start_well, Trials};
use crate::node_types::list_or_none;
use crate::original::Original;
use crate::pass::first_tasks;
use crate::syntax::{lemma_children_are_nodes, total_size, tree_view, FamilyView, NodeView};
use crate::task::{PrioritizedTaskView, ReductionView, TaskView};
use crate::tasks::TasksView;

verus! {

/// A pass: the queue, the nodes that workers are about to explore, and the edits
/// with the trials of the reductions that workers have taken off the queue.
pub struct Crew {
    pub tasks: TasksView,
    pub exploring: Set<NodeId>,
    pub trials: Trials,
}

impl Crew {
    /// The start of a pass.
    pub open spec fn start(orig: Original) -> Crew {
        Crew {
            tasks: first_tasks(orig),
            exploring: Set::empty(),
            trials: Trials::initial(),
        }
    }

    /// A worker takes a task off the queue.
    pub open spec fn takes(self, first: PrioritizedTaskView) -> Crew {
        let rest = self.tasks.without(first);
        match first.task {
            TaskView::Explore(id) => Crew {
                tasks: rest,
                exploring: self.exploring.insert(id),
                ..self
            },
            TaskView::Reduce(_) => Crew {
                tasks: rest,
                trials: self.trials.begins(first.task),
                ..self
            },
        }
    }

    /// A worker explores a node.
    pub open spec fn explores<'a, T>(self, tctx: ThreadCtx<'a, T>, id: NodeId) -> Crew {
        Crew { tasks: tctx.ctx.explored(self.tasks, tctx.node_ids@[id.id]), ..self }
    }

    /// A worker whose trial, the one at `i`, was in vain falls back.
    pub open spec fn falls_back<'a, T>(self, tctx: ThreadCtx<'a, T>, i: int) -> Crew {
        Crew { tasks: tctx.fallen_back(self.tasks, self.trials.trials[i].0), ..self }
    }

    /// The wake-ups that are owed are given.
    pub open spec fn signalled(self) -> Crew {
        Crew { tasks: TasksView { signals: 0, ..self.tasks }, ..self }
    }

    /// Whether `next` comes of what some worker does.
    pub open spec fn steps_to<'a, T>(self, next: Crew, tctx: ThreadCtx<'a, T>) -> bool {
        ||| next == self.signalled()
        ||| exists|first: PrioritizedTaskView| #[trigger]
            self.tasks.is_first(first) && next == self.takes(first)
        ||| exists|id: NodeId| #[trigger]
            self.exploring.contains(id) && next == self.explores(tctx, id)
        ||| next == (Crew { trials: next.trials, ..self }) && self.trials.goes_on(
            next.trials,
            tctx.ctx.orig,
        )
        ||| exists|i: int|
            0 <= i < self.trials.trials.len() && (#[trigger] self.trials.trials[i]).1
                == TrialView::Done(Interesting::No) && next == self.falls_back(tctx, i)
    }
}

/// Whether the states follow one another from the start of a pass.
pub open spec fn is_crew_run<'a, T>(run: Seq<Crew>, tctx: ThreadCtx<'a, T>) -> bool {
    &&& run.len() > 0
    &&& run[0] == Crew::start(tctx.ctx.orig)
    &&& forall|n: int| 0 < n < run.len() ==> (#[trigger] run[n - 1]).steps_to(run[n], tctx)
}

/// Whether nothing is to be tried in the place of any node.
pub open spec fn no_replacements<'a, T>(ctx: Ctx<'a, T>) -> bool {
    forall|kind: Seq<char>| (#[trigger] list_or_none(ctx.replacements@, kind)).len() == 0
}

/// Whether an identifier is that of a node that is not empty.
pub open spec fn has_bytes(nodes: Seq<FamilyView>, id: NodeId) -> bool {
    exists|k: int|
        0 <= k < nodes.len() && (#[trigger] nodes[k]).node.id == id && nodes[k].node.start
            < nodes[k].node.end
}

/// Whether one of the identifiers is that of a node that is not empty.
pub open spec fn any_has_bytes(nodes: Seq<FamilyView>, ids: Seq<NodeId>) -> bool {
    exists|j: int| 0 <= j < ids.len() && has_bytes(nodes, #[trigger] ids[j])
}

/// Whether a task replaces nothing, and if it is a reduction, deletes a node that is
/// not empty.
pub open spec fn gains(nodes: Seq<FamilyView>, task: TaskView) -> bool {
    match task {
        TaskView::Explore(_) => true,
        TaskView::Reduce(ReductionView::Delete(id)) => has_bytes(nodes, id),
        TaskView::Reduce(ReductionView::DeleteAll(ids)) => any_has_bytes(nodes, ids),
        TaskView::Reduce(ReductionView::Replace { .. }) => false,
    }
}

/// Whether edits leave out a node that is not empty.
pub open spec fn omits_bytes(nodes: Seq<FamilyView>, edits: EditsView) -> bool {
    exists|k: int|
        0 <= k < nodes.len() && edits.should_omit((#[trigger] nodes[k]).node.id)
            && nodes[k].node.start < nodes[k].node.end
}

impl Crew {
    /// What holds at all times of a pass in which nothing is to be replaced.
    spec fn holds<'a, T>(self, tctx: ThreadCtx<'a, T>) -> bool {
        let nodes = tctx.ctx.orig.nodes();
        &&& self.trials.holds(tctx.ctx.orig)
        &&& tctx.sound_queue(self.tasks)
        &&& all_queued(self.tasks, |task: TaskView, priority: usize| gains(nodes, task))
        &&& forall|id: NodeId| #[trigger]
            self.exploring.contains(id) ==> tctx.node_ids@.contains_key(id.id)
        &&& forall|i: int|
            0 <= i < self.trials.trials.len() ==> gains(
                nodes,
                (#[trigger] self.trials.trials[i]).0,
            ) && self.trials.trials[i].0.known(tctx.node_ids@)
        &&& only_omits(self.trials.current.edits)
        &&& self.trials.current.edits == EditsView::none() || omits_bytes(
            nodes,
            self.trials.current.edits,
        )
    }
}

/// A task that replaces nothing adds nothing to edits but nodes to be left out, one
/// that is not empty among them.
proof fn lemma_task_gains(nodes: Seq<FamilyView>, edits: EditsView, task: TaskView)
    requires
        task is Reduce,
        gains(nodes, task),
        only_omits(edits),
    ensures
        task_edit(edits, task) matches Some(next) ==> only_omits(next) && omits_bytes(nodes, next),
{
    if let Some(next) = task_edit(edits, task) {
        match task {
            TaskView::Reduce(ReductionView::Delete(id)) => {
                let k = choose|k: int|
                    0 <= k < nodes.len() && (#[trigger] nodes[k]).node.id == id
                        && nodes[k].node.start < nodes[k].node.end;
                assert(next.should_omit(nodes[k].node.id));
            },
            TaskView::Reduce(ReductionView::DeleteAll(ids)) => {
                lemma_omit_all_only_omits(edits, ids);
                let j = choose|j: int| 0 <= j < ids.len() && has_bytes(nodes, #[trigger] ids[j]);
                law_omitting_all_omits_each(edits, ids, ids[j]);
                assert(ids.contains(ids[j]));
                let k = choose|k: int|
                    0 <= k < nodes.len() && (#[trigger] nodes[k]).node.id == ids[j]
                        && nodes[k].node.start < nodes[k].node.end;
                assert(next.should_omit(nodes[k].node.id));
            },
            _ => {},
        }
    }
}

proof fn lemma_omit_all_only_omits(edits: EditsView, ids: Seq<NodeId>)
    requires
        only_omits(edits),
    ensures
        only_omits(edits.omit_all(ids)),
    decreases ids.len(),
{
    if ids.len() > 0 {
        lemma_omit_all_only_omits(edits, ids.drop_last());
    }
}

/// Nodes without bytes cover none together.
proof fn lemma_empty_nodes(nodes: Seq<NodeView>)
    requires
        forall|j: int| 0 <= j < nodes.len() ==> (#[trigger] nodes[j]).start == nodes[j].end,
    ensures
        total_size(nodes) == 0,
    decreases nodes.len(),
{
    if nodes.len() > 0 {
        let start = nodes.drop_last();
        assert forall|j: int| 0 <= j < start.len() implies (#[trigger] start[j]).start
            == start[j].end by {
            assert(start[j] == nodes[j]);
        }
        lemma_empty_nodes(start);
        assert(nodes[nodes.len() - 1].start == nodes[nodes.len() - 1].end);
    }
}

/// Children to explore are explored only.
proof fn lemma_child_tasks_explore(children: Seq<NodeView>, min: usize, i: int)
    requires
        0 <= i < child_tasks(children, min).len(),
    ensures
        child_tasks(children, min)[i].0 is Explore,
    decreases children.len(),
{
    let start = child_tasks(children.drop_last(), min);
    if i < start.len() {
        lemma_child_tasks_explore(children.drop_last(), min, i);
    }
}

proof fn lemma_children_gain(
    nodes: Seq<FamilyView>,
    tasks: TasksView,
    children: Seq<NodeView>,
    min: usize,
)
    requires
        all_queued(tasks, |task: TaskView, priority: usize| gains(nodes, task)),
    ensures
        all_queued(
            tasks.children_pushed(min, children),
            |task: TaskView, priority: usize| gains(nodes, task),
        ),
{
    let p = |task: TaskView, priority: usize| gains(nodes, task);
    let items = child_tasks(children, min);
    assert forall|i: int| 0 <= i < items.len() implies p((#[trigger] items[i]).0, items[i].1) by {
        lemma_child_tasks_explore(children, min, i);
    }
    lemma_enqueue_all(tasks, items, p);
}

/// Exploring a node queues only tasks that gain something.
proof fn lemma_explored_gains<'a, T>(tctx: ThreadCtx<'a, T>, tasks: TasksView, id: NodeId)
    requires
        tctx.well_formed(),
        has_its_nodes(tctx),
        no_replacements(*tctx.ctx),
        tctx.ctx.min_task_size >= 1,
        tctx.node_ids@.contains_key(id.id),
        all_queued(
            tasks,
            |task: TaskView, priority: usize| gains(tctx.ctx.orig.nodes(), task),
        ),
    ensures
        all_queued(
            tctx.ctx.explored(tasks, tctx.node_ids@[id.id]),
            |task: TaskView, priority: usize| gains(tctx.ctx.orig.nodes(), task),
        ),
{
    let nodes = tctx.ctx.orig.nodes();
    let min = tctx.ctx.min_task_size;
    let p = |task: TaskView, priority: usize| gains(nodes, task);
    let i = choose|i: int| 0 <= i < nodes.len() && (#[trigger] nodes[i]).node.id.id == id.id;
    let family = nodes[i];
    assert(tctx.node_ids@[id.id] == family);
    assert(family.well_sized());
    let node = family.node;
    let types = tctx.ctx.node_types@;
    let replacing = replace_tasks(node, list_or_none(tctx.ctx.replacements@, node.kind));
    let replaced = tasks.offered_all(min, replacing);
    assert(replacing.len() == 0);
    assert(replaced == tasks);
    if types.optional_node(family) || tctx.ctx.delete_non_optional {
        if node.size() as usize >= min {
            assert(nodes[i].node.id == node.id && node.start < node.end);
            assert(has_bytes(nodes, node.id));
            lemma_enqueue(
                tasks,
                TaskView::Reduce(ReductionView::Delete(node.id)),
                node.size() as usize,
                p,
            );
        }
    } else {
        let kinds = types.list_types(family);
        let batches = batch_tasks(types, family.children, kinds);
        assert forall|b: int| 0 <= b < batches.len() && batches[b].1 >= min implies p(
            (#[trigger] batches[b]).0,
            batches[b].1,
        ) by {
            let picked = of_kinds(family.children, types.subtypes_of(kinds[b]));
            assert(batches[b] == batch_task(picked));
            if forall|j: int| 0 <= j < picked.len() ==> (#[trigger] picked[j]).start == picked[j].end {
                lemma_empty_nodes(picked);
            }
            let j = choose|j: int|
                0 <= j < picked.len() && (#[trigger] picked[j]).start != picked[j].end;
            lemma_of_kinds_picks(family.children, types.subtypes_of(kinds[b]), j);
            let c = choose|c: int| 0 <= c < family.children.len() && family.children[c] == picked[j];
            assert(family.children[c].start <= family.children[c].end);
            lemma_children_are_nodes(tree_view(tctx.ctx.orig.tree), None, i, c);
            let k = choose|k: int|
                i < k < nodes.len() && (#[trigger] nodes[k]).node == family.children[c];
            assert(nodes[k].node.id == picked[j].id);
            let named = ids(picked);
            assert(named.len() == picked.len() && named[j] == picked[j].id);
            assert(has_bytes(nodes, named[j]));
            assert(any_has_bytes(nodes, named));
        }
        lemma_offered_all(tasks, min, batches, p);
        lemma_children_gain(nodes, tasks.offered_all(min, batches), family.children, min);
    }
}

proof fn lemma_trials_step<'a, T>(pre: Crew, post: Crew, tctx: ThreadCtx<'a, T>)
    requires
        pre.holds(tctx),
        post == (Crew { trials: post.trials, ..pre }),
        pre.trials.goes_on(post.trials, tctx.ctx.orig),
    ensures
        post.holds(tctx),
{
    let orig = tctx.ctx.orig;
    let nodes = orig.nodes();
    let a = pre.trials;
    let b = post.trials;
    law_trials_go_on_well(a, b, orig);
    assert(b.trials.len() == a.trials.len());
    assert forall|i: int| 0 <= i < b.trials.len() implies gains(nodes, (#[trigger] b.trials[i]).0)
        && b.trials[i].0.known(tctx.node_ids@) by {
        assert(a.trials[i].0 == b.trials[i].0);
        assert(gains(nodes, a.trials[i].0));
    }
    if b.current != a.current {
        let i = choose|i: int|
            {
                &&& 0 <= i < a.trials.len()
                &&& a.trials[i].1 is Save
                &&& b == #[trigger] a.saves(i)
            };
        law_no_edits_are_lost(a, orig, i);
        let (task, trial) = a.trials[i];
        assert(gains(nodes, task));
        assert(task_edit(a.current.edits, task) == Some(b.current.edits));
        if task is Reduce {
            lemma_task_gains(nodes, a.current.edits, task);
        }
    }
}

proof fn lemma_crew_holds<'a, T>(run: Seq<Crew>, tctx: ThreadCtx<'a, T>, n: int)
    requires
        tctx.well_formed(),
        has_its_nodes(tctx),
        no_replacements(*tctx.ctx),
        tctx.ctx.min_task_size >= 1,
        is_crew_run(run, tctx),
        0 <= n < run.len(),
    ensures
        run[n].holds(tctx),
    decreases n,
{
    let orig = tctx.ctx.orig;
    let nodes = orig.nodes();
    let p = |task: TaskView, priority: usize| gains(nodes, task);
    if n == 0 {
        law_trials_start_well(orig);
        law_the_first_queue_is_sound(tctx);
        let root = tree_view(orig.tree).node();
        let empty = TasksView {
            queued: vstd::multiset::Multiset::empty(),
            next_id: 0,
            signals: 0,
        };
        lemma_enqueue(empty, TaskView::Explore(root.id), root.size() as usize, p);
    } else {
        lemma_crew_holds(run, tctx, n - 1);
        let pre = run[n - 1];
        let post = run[n];
        assert(pre.steps_to(post, tctx));
        if post == pre.signalled() {
            assert forall|t: PrioritizedTaskView| #[trigger]
                post.tasks.queued.contains(t) implies p(t.task, t.priority) && tctx.is_sound(
                t.task,
                t.priority,
            ) by {
                assert(pre.tasks.queued.contains(t));
            }
        } else if exists|first: PrioritizedTaskView| #[trigger]
            pre.tasks.is_first(first) && post == pre.takes(first) {
            let first = choose|first: PrioritizedTaskView| #[trigger]
                pre.tasks.is_first(first) && post == pre.takes(first);
            law_popped_tasks_are_sound(tctx, pre.tasks, first);
            assert(p(first.task, first.priority));
            assert forall|t: PrioritizedTaskView| #[trigger]
                post.tasks.queued.contains(t) implies p(t.task, t.priority) by {
                assert(pre.tasks.queued.contains(t));
            }
            if first.task is Reduce {
                assert(pre.trials.steps_to(post.trials, orig));
                law_trials_go_on_well(pre.trials, post.trials, orig);
                assert forall|i: int| 0 <= i < post.trials.trials.len() implies gains(
                    nodes,
                    (#[trigger] post.trials.trials[i]).0,
                ) && post.trials.trials[i].0.known(tctx.node_ids@) by {
                    if i < pre.trials.trials.len() {
                        assert(gains(nodes, pre.trials.trials[i].0));
                    }
                }
            }
        } else if exists|id: NodeId| #[trigger]
            pre.exploring.contains(id) && post == pre.explores(tctx, id) {
            let id = choose|id: NodeId| #[trigger]
                pre.exploring.contains(id) && post == pre.explores(tctx, id);
            law_exploring_keeps_the_queue_sound(tctx, pre.tasks, id);
            lemma_explored_gains(tctx, pre.tasks, id);
        } else if post == (Crew { trials: post.trials, ..pre }) && pre.trials.goes_on(
            post.trials,
            orig,
        ) {
            lemma_trials_step(pre, post, tctx);
        } else {
            let i = choose|i: int|
                0 <= i < pre.trials.trials.len() && (#[trigger] pre.trials.trials[i]).1
                    == TrialView::Done(Interesting::No) && post == pre.falls_back(tctx, i);
            let task = pre.trials.trials[i].0;
            law_falling_back_keeps_the_queue_sound(tctx, pre.tasks, task);
            if let Some(id) = task.fallback() {
                lemma_children_gain(
                    nodes,
                    pre.tasks,
                    tctx.node_ids@[id.id].children,
                    tctx.ctx.min_task_size,
                );
            }
        }
    }
}

/// Where there are no replacements, none is tried, and the edits are at every time
/// none, or do nothing but leave nodes out, one that is not empty among them:
/// however many workers there are, and however they take turns.
pub proof fn law_without_replacements_something_is_left_out<'a, T>(
    run: Seq<Crew>,
    tctx: ThreadCtx<'a, T>,
    n: int,
)
    requires
        tctx.well_formed(),
        has_its_nodes(tctx),
        no_replacements(*tctx.ctx),
        tctx.ctx.min_task_size >= 1,
        is_crew_run(run, tctx),
        0 <= n < run.len(),
    ensures
        forall|i: int|
            0 <= i < run[n].trials.trials.len() ==> gains(
                tctx.ctx.orig.nodes(),
                (#[trigger] run[n].trials.trials[i]).0,
            ),
        only_omits(run[n].trials.current.edits),
        run[n].trials.current.edits == EditsView::none() || omits_bytes(
            tctx.ctx.orig.nodes(),
            run[n].trials.current.edits,
        ),
{
    lemma_crew_holds(run, tctx, n);
}

} // verus!
