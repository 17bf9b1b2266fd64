//! What pushing and exploring put on the queue.
use vstd::prelude::*;

use crate::ctx::{child_tasks, Ctx, ThreadCtx};
use crate::explore::{batch_task, batch_tasks, ids, of_kind, of_kinds, replace_tasks};
use crate::id::NodeId;
use crate::node_types::list_or_none;
use crate::syntax::{total_size, FamilyView, NodeView};
use crate::task::{PrioritizedTaskView, ReductionView, TaskView};
use crate::tasks::TasksView;

verus! {

/// Whether a task is on the queue with a priority, under whatever number.
pub open spec fn is_queued(tasks: TasksView, task: TaskView, priority: usize) -> bool {
    exists|id: usize| #[trigger]
        tasks.queued.contains(PrioritizedTaskView { task, id, priority })
}

/// A pushed task is on the queue once more than before, under the next number and
/// with its priority; all else stays.  One more worker is woken.
pub proof fn law_a_pushed_task_is_queued(tasks: TasksView, task: TaskView, priority: usize)
    ensures
        ({
            let after = tasks.pushed(task, priority);
            let new = PrioritizedTaskView { task, id: tasks.next_id, priority };
            &&& after.queued.len() == tasks.queued.len() + 1
            &&& after.queued.count(new) == tasks.queued.count(new) + 1
            &&& forall|t: PrioritizedTaskView|
                t != new ==> #[trigger] after.queued.count(t) == tasks.queued.count(t)
            &&& tasks.next_id < usize::MAX ==> after.next_id == tasks.next_id + 1
            &&& tasks.next_id == usize::MAX ==> after.next_id == 0
            &&& tasks.signals < usize::MAX ==> after.signals == tasks.signals + 1
            &&& tasks.signals == usize::MAX ==> after.signals == usize::MAX
        }),
{
}

/// A popped task is on the queue once less than before, and nothing else is gone.
pub proof fn law_a_popped_task_is_gone(tasks: TasksView, first: PrioritizedTaskView)
    requires
        tasks.is_first(first),
    ensures
        ({
            let after = tasks.without(first);
            &&& tasks.queued.len() == after.queued.len() + 1
            &&& tasks.queued.count(first) == after.queued.count(first) + 1
            &&& forall|t: PrioritizedTaskView|
                t != first ==> #[trigger] after.queued.count(t) == tasks.queued.count(t)
            &&& forall|t: PrioritizedTaskView| #[trigger]
                tasks.queued.contains(t) ==> t.priority <= first.priority
            &&& after.next_id == tasks.next_id
            &&& after.signals == tasks.signals
        }),
{
}

/// Wake-ups that are owed add up, as far as they can be counted.
pub proof fn law_signals_add_up(tasks: TasksView, count: nat)
    ensures
        tasks.signal(count).queued == tasks.queued,
        tasks.signal(count).next_id == tasks.next_id,
        tasks.signals + count <= usize::MAX ==> tasks.signal(count).signals == tasks.signals + count,
        tasks.signals + count > usize::MAX ==> tasks.signal(count).signals == usize::MAX,
{
}

/// Tasks that are queued together are all on the queue, each with its priority and,
/// as long as there are numbers left, under its own number; what was there stays, and
/// nothing else comes.  No worker is woken.
pub proof fn law_tasks_queued_together_are_all_queued(
    tasks: TasksView,
    items: Seq<(TaskView, usize)>,
)
    ensures
        ({
            let after = tasks.enqueue_all(items);
            &&& after.queued.len() == tasks.queued.len() + items.len()
            &&& after.signals == tasks.signals
            &&& forall|t: PrioritizedTaskView| #[trigger]
                after.queued.count(t) >= tasks.queued.count(t)
            &&& forall|j: int|
                0 <= j < items.len() ==> is_queued(after, (#[trigger] items[j]).0, items[j].1)
            &&& forall|t: PrioritizedTaskView| #[trigger]
                after.queued.contains(t) ==> tasks.queued.contains(t) || exists|j: int|
                    0 <= j < items.len() && (#[trigger] items[j]).0 == t.task && items[j].1
                        == t.priority
            &&& tasks.next_id + items.len() <= usize::MAX ==> {
                &&& after.next_id == tasks.next_id + items.len()
                &&& forall|j: int|
                    0 <= j < items.len() ==> after.queued.contains(
                        PrioritizedTaskView {
                            task: (#[trigger] items[j]).0,
                            id: (tasks.next_id + j) as usize,
                            priority: items[j].1,
                        },
                    )
            }
        }),
    decreases items.len(),
{
    if items.len() > 0 {
        let start = items.drop_last();
        law_tasks_queued_together_are_all_queued(tasks, start);
        let before = tasks.enqueue_all(start);
        let after = tasks.enqueue_all(items);
        let (task, priority) = items.last();
        let new = PrioritizedTaskView { task, id: before.next_id, priority };
        assert(after.queued.contains(new));
        assert forall|j: int| 0 <= j < items.len() implies is_queued(
            after,
            (#[trigger] items[j]).0,
            items[j].1,
        ) by {
            if j < start.len() {
                assert(start[j] == items[j]);
                let id = choose|id: usize| #[trigger]
                    before.queued.contains(
                        PrioritizedTaskView { task: start[j].0, id, priority: start[j].1 },
                    );
                let t = PrioritizedTaskView { task: items[j].0, id, priority: items[j].1 };
                assert(after.queued.contains(t));
            } else {
                let t = PrioritizedTaskView {
                    task: items[j].0,
                    id: before.next_id,
                    priority: items[j].1,
                };
                assert(after.queued.contains(t));
            }
        }
        assert forall|t: PrioritizedTaskView| #[trigger] after.queued.contains(t) implies {
            ||| tasks.queued.contains(t)
            ||| exists|j: int|
                0 <= j < items.len() && (#[trigger] items[j]).0 == t.task && items[j].1
                    == t.priority
        } by {
            if t == new {
                assert(items[items.len() - 1].0 == t.task);
            } else {
                assert(before.queued.contains(t));
                if !tasks.queued.contains(t) {
                    let j = choose|j: int|
                        0 <= j < start.len() && (#[trigger] start[j]).0 == t.task && start[j].1
                            == t.priority;
                    assert(items[j].0 == t.task);
                }
            }
        }
        if tasks.next_id + items.len() <= usize::MAX {
            assert forall|j: int| 0 <= j < items.len() implies after.queued.contains(
                PrioritizedTaskView {
                    task: (#[trigger] items[j]).0,
                    id: (tasks.next_id + j) as usize,
                    priority: items[j].1,
                },
            ) by {
                if j < start.len() {
                    assert(start[j] == items[j]);
                }
            }
        }
    }
}

/// A task is offered in vain exactly if it is smaller than the smallest task.
pub proof fn law_small_tasks_are_not_queued(
    tasks: TasksView,
    min: usize,
    task: TaskView,
    priority: usize,
)
    ensures
        priority < min ==> tasks.offered(min, task, priority) == tasks,
        priority >= min ==> tasks.offered(min, task, priority).queued.count(
            PrioritizedTaskView { task, id: tasks.next_id, priority },
        ) == tasks.queued.count(PrioritizedTaskView { task, id: tasks.next_id, priority }) + 1,
        priority >= min ==> tasks.offered(min, task, priority).queued.len() == tasks.queued.len()
            + 1,
{
}

proof fn lemma_signal_twice(tasks: TasksView, a: nat, b: nat)
    ensures
        tasks.signal(a).signal(b) == tasks.signal(a + b),
{
}

proof fn lemma_enqueue_all_signal(tasks: TasksView, n: nat, items: Seq<(TaskView, usize)>)
    ensures
        tasks.signal(n).enqueue_all(items) == tasks.enqueue_all(items).signal(n),
    decreases items.len(),
{
    if items.len() > 0 {
        lemma_enqueue_all_signal(tasks, n, items.drop_last());
        law_tasks_queued_together_are_all_queued(tasks, items.drop_last());
        assert(tasks.signal(n).enqueue_all(items) =~= tasks.enqueue_all(items).signal(n));
    }
}

proof fn lemma_enqueue_all_add(
    tasks: TasksView,
    a: Seq<(TaskView, usize)>,
    b: Seq<(TaskView, usize)>,
)
    ensures
        tasks.enqueue_all(a).enqueue_all(b) == tasks.enqueue_all(a + b),
    decreases b.len(),
{
    if b.len() > 0 {
        lemma_enqueue_all_add(tasks, a, b.drop_last());
        assert((a + b).drop_last() =~= a + b.drop_last());
    } else {
        assert(a + b =~= a);
    }
}

/// The tasks that are large enough.
spec fn kept(min: usize, items: Seq<(TaskView, usize)>) -> Seq<(TaskView, usize)> {
    items.filter(|item: (TaskView, usize)| item.1 >= min)
}

proof fn lemma_offered_all(tasks: TasksView, min: usize, items: Seq<(TaskView, usize)>)
    ensures
        tasks.offered_all(min, items) == tasks.enqueue_all(kept(min, items)).signal(
            kept(min, items).len(),
        ),
    decreases items.len(),
{
    reveal(Seq::filter);
    let new = kept(min, items);
    if items.len() > 0 {
        let start = items.drop_last();
        lemma_offered_all(tasks, min, start);
        let old = kept(min, start);
        if items.last().1 >= min {
            assert(new == old.push(items.last()));
            assert(new.drop_last() =~= old);
            lemma_signal_twice(tasks.enqueue_all(new), old.len(), 1);
            assert(tasks.offered_all(min, items) =~= tasks.enqueue_all(new).signal(old.len()).signal(
                1,
            ));
        } else {
            assert(new == old);
        }
    } else {
        assert(tasks.signal(0) =~= tasks);
    }
}

/// Every child of a node that is larger than the smallest task is queued to be
/// explored, with its size as priority, whatever its siblings are: so many tasks
/// come, and no others.  A worker is woken for every child.
pub proof fn law_large_children_are_all_queued(
    tasks: TasksView,
    min: usize,
    children: Seq<NodeView>,
)
    requires
        forall|j: int| 0 <= j < children.len() ==> (#[trigger] children[j]).start <= children[j].end,
    ensures
        ({
            let after = tasks.children_pushed(min, children);
            let large = children.filter(|c: NodeView| c.end - c.start > min);
            &&& after.queued.len() == tasks.queued.len() + large.len()
            &&& forall|t: PrioritizedTaskView| #[trigger]
                after.queued.count(t) >= tasks.queued.count(t)
            &&& forall|j: int|
                0 <= j < children.len() && children[j].end - children[j].start > min ==> is_queued(
                    after,
                    TaskView::Explore((#[trigger] children[j]).id),
                    (children[j].end - children[j].start) as usize,
                )
            &&& forall|t: PrioritizedTaskView| #[trigger]
                after.queued.contains(t) ==> tasks.queued.contains(t) || exists|j: int|
                    0 <= j < children.len() && (#[trigger] children[j]).end - children[j].start
                        > min && t.task == TaskView::Explore(children[j].id) && t.priority
                        == children[j].end - children[j].start
            &&& tasks.next_id + large.len() <= usize::MAX ==> forall|j: int|
                0 <= j < large.len() ==> after.queued.contains(
                    PrioritizedTaskView {
                        task: TaskView::Explore((#[trigger] large[j]).id),
                        id: (tasks.next_id + j) as usize,
                        priority: (large[j].end - large[j].start) as usize,
                    },
                )
            &&& tasks.signals + children.len() <= usize::MAX ==> after.signals == tasks.signals
                + children.len()
        }),
{
    let items = child_tasks(children, min);
    let after = tasks.children_pushed(min, children);
    let big = |c: NodeView| c.end - c.start > min;
    let large = children.filter(big);
    lemma_child_tasks(children, min);
    law_tasks_queued_together_are_all_queued(tasks, items);
    assert forall|j: int|
        0 <= j < children.len() && children[j].end - children[j].start > min implies is_queued(
        after,
        TaskView::Explore((#[trigger] children[j]).id),
        (children[j].end - children[j].start) as usize,
    ) by {
        assert(big(children[j]));
        assert(large.contains(children[j]));
        let k = choose|k: int| 0 <= k < large.len() && large[k] == children[j];
        assert(items[k].0 == TaskView::Explore(children[j].id));
        let plain = tasks.enqueue_all(items);
        assert(is_queued(plain, items[k].0, items[k].1));
        let id = choose|id: usize| #[trigger]
            plain.queued.contains(
                PrioritizedTaskView { task: items[k].0, id, priority: items[k].1 },
            );
        let t = PrioritizedTaskView { task: items[k].0, id, priority: items[k].1 };
        assert(after.queued.contains(t));
    }
    assert forall|t: PrioritizedTaskView| #[trigger] after.queued.contains(t) implies {
        ||| tasks.queued.contains(t)
        ||| exists|j: int|
            0 <= j < children.len() && (#[trigger] children[j]).end - children[j].start > min
                && t.task == TaskView::Explore(children[j].id) && t.priority == children[j].end
                - children[j].start
    } by {
        if !tasks.queued.contains(t) {
            let k = choose|k: int|
                0 <= k < items.len() && (#[trigger] items[k]).0 == t.task && items[k].1
                    == t.priority;
            assert(big(large[k]));
            assert(large.contains(large[k]));
            lemma_filtered_is_there(children, big, k);
            let j = choose|j: int| 0 <= j < children.len() && children[j] == large[k];
            assert(children[j].end - children[j].start > min);
        }
    }
    if tasks.next_id + large.len() <= usize::MAX {
        assert forall|j: int| 0 <= j < large.len() implies after.queued.contains(
            PrioritizedTaskView {
                task: TaskView::Explore((#[trigger] large[j]).id),
                id: (tasks.next_id + j) as usize,
                priority: (large[j].end - large[j].start) as usize,
            },
        ) by {
            assert(items[j].0 == TaskView::Explore(large[j].id));
        }
    }
}

proof fn lemma_filtered_is_there<A>(s: Seq<A>, test: spec_fn(A) -> bool, k: int)
    requires
        0 <= k < s.filter(test).len(),
    ensures
        s.contains(s.filter(test)[k]),
        test(s.filter(test)[k]),
    decreases s.len(),
{
    reveal(Seq::filter);
    let start = s.drop_last();
    let picked = start.filter(test);
    if k < picked.len() {
        lemma_filtered_is_there(start, test, k);
        let j = choose|j: int| 0 <= j < start.len() && start[j] == picked[k];
        assert(s[j] == s.filter(test)[k]);
    } else {
        assert(s[s.len() - 1] == s.filter(test)[k]);
    }
}

proof fn lemma_child_tasks(children: Seq<NodeView>, min: usize)
    ensures
        ({
            let large = children.filter(|c: NodeView| c.end - c.start > min);
            let items = child_tasks(children, min);
            &&& items.len() == large.len()
            &&& forall|k: int|
                0 <= k < large.len() ==> #[trigger] items[k] == (
                    TaskView::Explore(large[k].id),
                    (large[k].end - large[k].start) as usize,
                )
        }),
    decreases children.len(),
{
    reveal(Seq::filter);
    if children.len() > 0 {
        lemma_child_tasks(children.drop_last(), min);
    }
}

/// The children whose kind is in a list, and how many bytes they cover, kind by kind
/// or in one go.
proof fn lemma_of_kinds(nodes: Seq<NodeView>, kinds: Seq<Seq<char>>)
    requires
        kinds.no_duplicates(),
    ensures
        ({
            let picked = of_kinds(nodes, kinds);
            &&& picked.len() == members(nodes, kinds).len()
            &&& total_size(picked) == bytes_of(members(nodes, kinds))
        }),
        forall|n: NodeView| #[trigger]
            of_kinds(nodes, kinds).contains(n) <==> nodes.contains(n) && kinds.contains(n.kind),
    decreases kinds.len(),
{
    let test = |n: NodeView| kinds.contains(n.kind);
    if kinds.len() == 0 {
        lemma_none_pass(nodes, test);
    } else {
        let start = kinds.drop_last();
        let kind = kinds.last();
        let before = |n: NodeView| start.contains(n.kind);
        let now = |n: NodeView| n.kind == kind;
        lemma_of_kinds(nodes, start);
        assert(kinds[kinds.len() - 1] == kind);
        assert forall|n: NodeView| #[trigger] test(n) == (before(n) || now(n)) by {
            if kinds.contains(n.kind) {
                let k = choose|k: int| 0 <= k < kinds.len() && kinds[k] == n.kind;
                if k < start.len() {
                    assert(start[k] == n.kind);
                }
            }
            if start.contains(n.kind) {
                let k = choose|k: int| 0 <= k < start.len() && start[k] == n.kind;
                assert(kinds[k] == n.kind);
            }
        }
        assert forall|n: NodeView| !(#[trigger] before(n) && now(n)) by {
            if start.contains(n.kind) && n.kind == kind {
                let k = choose|k: int| 0 <= k < start.len() && start[k] == n.kind;
                assert(kinds[k] == kinds[kinds.len() - 1]);
            }
        }
        lemma_filter_split(nodes, test, before, now);
        let a = of_kinds(nodes, start);
        let b = of_kind(nodes, kind);
        lemma_total_size_add(a, b);
        lemma_total_size_fold(nodes.filter(test));
        lemma_total_size_fold(nodes.filter(before));
        assert forall|n: NodeView| #[trigger] of_kinds(nodes, kinds).contains(n) <==> nodes.contains(
            n,
        ) && kinds.contains(n.kind) by {
            assert(test(n) == (before(n) || now(n)));
            lemma_filter_contains(nodes, now, n);
            lemma_add_contains(a, b, n);
        }
    }
}

proof fn lemma_none_pass(nodes: Seq<NodeView>, test: spec_fn(NodeView) -> bool)
    requires
        forall|n: NodeView| !#[trigger] test(n),
    ensures
        nodes.filter(test).len() == 0,
    decreases nodes.len(),
{
    reveal(Seq::filter);
    if nodes.len() > 0 {
        lemma_none_pass(nodes.drop_last(), test);
        assert(!test(nodes.last()));
    }
}

proof fn lemma_add_contains<A>(a: Seq<A>, b: Seq<A>, x: A)
    ensures
        (a + b).contains(x) <==> a.contains(x) || b.contains(x),
{
    if a.contains(x) {
        let k = choose|k: int| 0 <= k < a.len() && a[k] == x;
        assert((a + b)[k] == x);
    }
    if b.contains(x) {
        let k = choose|k: int| 0 <= k < b.len() && b[k] == x;
        assert((a + b)[a.len() + k] == x);
    }
    if (a + b).contains(x) {
        let k = choose|k: int| 0 <= k < (a + b).len() && (a + b)[k] == x;
        if k < a.len() {
            assert(a[k] == x);
        } else {
            assert(b[k - a.len()] == x);
        }
    }
}

proof fn lemma_filter_contains<A>(s: Seq<A>, test: spec_fn(A) -> bool, x: A)
    ensures
        s.filter(test).contains(x) <==> s.contains(x) && test(x),
{
    broadcast use vstd::seq_lib::group_filter_ensures;

    if s.filter(test).contains(x) {
        let k = choose|k: int| 0 <= k < s.filter(test).len() && s.filter(test)[k] == x;
        lemma_filtered_is_there(s, test, k);
    }
    if s.contains(x) && test(x) {
        let k = choose|k: int| 0 <= k < s.len() && s[k] == x;
        assert(test(s[k]));
        assert(s.filter(test).contains(s[k]));
    }
}

proof fn lemma_total_size_fold(nodes: Seq<NodeView>)
    ensures
        total_size(nodes) == bytes_of(nodes),
    decreases nodes.len(),
{
    if nodes.len() > 0 {
        lemma_total_size_fold(nodes.drop_last());
    }
}

proof fn lemma_total_size_add(a: Seq<NodeView>, b: Seq<NodeView>)
    ensures
        total_size(a + b) == total_size(a) + total_size(b),
    decreases b.len(),
{
    if b.len() == 0 {
        assert(a + b =~= a);
    } else {
        lemma_total_size_add(a, b.drop_last());
        assert((a + b).drop_last() =~= a + b.drop_last());
    }
}

proof fn lemma_total_size_push(nodes: Seq<NodeView>, node: NodeView)
    ensures
        total_size(nodes.push(node)) == total_size(nodes) + node.size(),
{
    assert(nodes.push(node).drop_last() =~= nodes);
}

proof fn lemma_filter_split(
    nodes: Seq<NodeView>,
    both: spec_fn(NodeView) -> bool,
    one: spec_fn(NodeView) -> bool,
    other: spec_fn(NodeView) -> bool,
)
    requires
        forall|n: NodeView| #[trigger] both(n) == (one(n) || other(n)),
        forall|n: NodeView| !(#[trigger] one(n) && other(n)),
    ensures
        nodes.filter(both).len() == nodes.filter(one).len() + nodes.filter(other).len(),
        total_size(nodes.filter(both)) == total_size(nodes.filter(one)) + total_size(
            nodes.filter(other),
        ),
    decreases nodes.len(),
{
    reveal(Seq::filter);
    if nodes.len() > 0 {
        let start = nodes.drop_last();
        let last = nodes.last();
        lemma_filter_split(start, both, one, other);
        lemma_total_size_push(start.filter(both), last);
        lemma_total_size_push(start.filter(one), last);
        lemma_total_size_push(start.filter(other), last);
        assert(both(last) == (one(last) || other(last)));
        assert(!(one(last) && other(last)));
    }
}

/// The tasks that a node offers.
spec fn new_tasks<'a, T>(ctx: Ctx<'a, T>, family: FamilyView) -> Seq<(TaskView, usize)> {
    let min = ctx.min_task_size;
    let node = family.node;
    let types = ctx.node_types@;
    let replacing = kept(min, replace_tasks(node, list_or_none(ctx.replacements@, node.kind)));
    if types.optional_node(family) || ctx.delete_non_optional {
        replacing + kept(
            min,
            seq![
                (
                    TaskView::Reduce(ReductionView::Delete(node.id)),
                    node.size() as usize,
                ),
            ],
        )
    } else {
        replacing + kept(min, batch_tasks(types, family.children, types.list_types(family)))
            + child_tasks(family.children, min)
    }
}

proof fn lemma_one_kept(min: usize, item: (TaskView, usize))
    ensures
        kept(min, seq![item]) == (if item.1 >= min {
            seq![item]
        } else {
            Seq::empty()
        }),
{
    reveal(Seq::filter);
    let s = seq![item];
    assert(s.drop_last() =~= Seq::empty());
    assert(s.drop_last().filter(|item: (TaskView, usize)| item.1 >= min) =~= Seq::empty());
    if item.1 >= min {
        assert(Seq::empty().push(item) =~= seq![item]);
    }
}

proof fn lemma_explored<'a, T>(ctx: Ctx<'a, T>, tasks: TasksView, family: FamilyView)
    ensures
        ctx.explored(tasks, family).queued == tasks.enqueue_all(new_tasks(ctx, family)).queued,
        ctx.explored(tasks, family).next_id == tasks.enqueue_all(new_tasks(ctx, family)).next_id,
        ctx.explored(tasks, family).signals == tasks.signal(wakes(ctx, family)).signals,
        wakes(ctx, family) >= new_tasks(ctx, family).len(),
{
    let min = ctx.min_task_size;
    let node = family.node;
    let types = ctx.node_types@;
    let all = replace_tasks(node, list_or_none(ctx.replacements@, node.kind));
    let a = kept(min, all);
    let delete = (TaskView::Reduce(ReductionView::Delete(node.id)), node.size() as usize);
    lemma_offered_all(tasks, min, all);
    let first = tasks.enqueue_all(a);
    law_tasks_queued_together_are_all_queued(tasks, a);
    if types.optional_node(family) || ctx.delete_non_optional {
        lemma_one_kept(min, delete);
        if delete.1 >= min {
            let one = seq![delete];
            assert(one.drop_last() =~= Seq::empty());
            assert(first.enqueue_all(one) == first.enqueue(delete.0, delete.1)) by {
                assert(first.enqueue_all(one.drop_last()) == first);
            }
            lemma_enqueue_all_add(tasks, a, one);
            lemma_signal_twice(tasks, a.len(), 1);
        } else {
            assert(a + Seq::empty() =~= a);
        }
    } else {
        let batches = batch_tasks(types, family.children, types.list_types(family));
        let b = kept(min, batches);
        let c = child_tasks(family.children, min);
        lemma_offered_all(first.signal(a.len()), min, batches);
        lemma_enqueue_all_signal(first, a.len(), b);
        lemma_enqueue_all_add(tasks, a, b);
        let second = tasks.enqueue_all(a + b);
        lemma_enqueue_all_signal(second.signal(a.len()), b.len(), c);
        lemma_enqueue_all_signal(second, a.len(), c);
        lemma_enqueue_all_add(tasks, a + b, c);
        lemma_child_tasks(family.children, min);
        lemma_filter_shortens(
            family.children,
            |c: NodeView| c.end - c.start > min,
        );
        law_tasks_queued_together_are_all_queued(tasks, a + b + c);
        lemma_signal_twice(tasks, a.len(), b.len());
        lemma_signal_twice(tasks, a.len() + b.len(), family.children.len());
    }
}

proof fn lemma_filter_shortens<A>(s: Seq<A>, test: spec_fn(A) -> bool)
    ensures
        s.filter(test).len() <= s.len(),
    decreases s.len(),
{
    reveal(Seq::filter);
    if s.len() > 0 {
        lemma_filter_shortens(s.drop_last(), test);
    }
}

/// How many workers are woken for what a node offers.
spec fn wakes<'a, T>(ctx: Ctx<'a, T>, family: FamilyView) -> nat {
    let min = ctx.min_task_size;
    let types = ctx.node_types@;
    if types.optional_node(family) || ctx.delete_non_optional {
        new_tasks(ctx, family).len()
    } else {
        let offered = new_tasks(ctx, family).len() - child_tasks(family.children, min).len();
        (offered + family.children.len()) as nat
    }
}

/// Exploring a node wakes at least as many workers as tasks come of it.
pub proof fn law_workers_are_woken_for_what_is_queued<'a, T>(
    ctx: Ctx<'a, T>,
    tasks: TasksView,
    family: FamilyView,
)
    ensures
        ({
            let after = ctx.explored(tasks, family);
            let come = after.queued.len() - tasks.queued.len();
            after.signals == usize::MAX || after.signals - tasks.signals >= come
        }),
{
    lemma_explored(ctx, tasks, family);
    law_tasks_queued_together_are_all_queued(tasks, new_tasks(ctx, family));
}

proof fn lemma_offered_is_there<'a, T>(
    ctx: Ctx<'a, T>,
    tasks: TasksView,
    family: FamilyView,
    item: (TaskView, usize),
)
    requires
        new_tasks(ctx, family).contains(item),
    ensures
        is_queued(ctx.explored(tasks, family), item.0, item.1),
{
    let items = new_tasks(ctx, family);
    lemma_explored(ctx, tasks, family);
    law_tasks_queued_together_are_all_queued(tasks, items);
    let j = choose|j: int| 0 <= j < items.len() && items[j] == item;
    assert(items[j].0 == item.0);
    let id = choose|id: usize| #[trigger]
        tasks.enqueue_all(items).queued.contains(
            PrioritizedTaskView { task: items[j].0, id, priority: items[j].1 },
        );
    let t = PrioritizedTaskView { task: item.0, id, priority: item.1 };
    assert(ctx.explored(tasks, family).queued.contains(t));
}

/// Whether the grammar lets the parent of a node do without it.
pub open spec fn may_be_missing<'a, T>(ctx: Ctx<'a, T>, family: FamilyView) -> bool {
    &&& family.parent_kind is Some
    &&& ctx.node_types@.optional.contains_key(family.parent_kind->0)
    &&& ctx.node_types@.optional[family.parent_kind->0].contains(family.node.kind)
}

/// Exploring a node that is not smaller than the smallest task puts a task on the
/// queue for every text that is to be tried in the place of nodes of its kind.
pub proof fn law_every_replacement_is_queued<'a, T>(
    ctx: Ctx<'a, T>,
    tasks: TasksView,
    family: FamilyView,
    i: int,
)
    requires
        family.node.start <= family.node.end,
        family.node.end - family.node.start >= ctx.min_task_size,
        ctx.replacements@.contains_key(family.node.kind),
        0 <= i < ctx.replacements@[family.node.kind].len(),
    ensures
        is_queued(
            ctx.explored(tasks, family),
            TaskView::Reduce(
                ReductionView::Replace {
                    node_id: family.node.id,
                    with: ctx.replacements@[family.node.kind][i],
                },
            ),
            (family.node.end - family.node.start) as usize,
        ),
{
    let min = ctx.min_task_size;
    let all = replace_tasks(family.node, list_or_none(ctx.replacements@, family.node.kind));
    let item = all[i];
    assert(all.contains(item));
    lemma_filter_contains(all, |item: (TaskView, usize)| item.1 >= min, item);
    let a = kept(min, all);
    assert(a.contains(item));
    let k = choose|k: int| 0 <= k < a.len() && a[k] == item;
    assert(new_tasks(ctx, family)[k] == item);
    assert(new_tasks(ctx, family).contains(item));
    lemma_offered_is_there(ctx, tasks, family, item);
}

/// Exploring a node that is not smaller than the smallest task puts its deletion on
/// the queue, if its parent can do without it, or nodes are deleted regardless.
pub proof fn law_a_node_that_may_go_is_to_be_deleted<'a, T>(
    ctx: Ctx<'a, T>,
    tasks: TasksView,
    family: FamilyView,
)
    requires
        family.node.start <= family.node.end,
        family.node.end - family.node.start >= ctx.min_task_size,
        may_be_missing(ctx, family) || ctx.delete_non_optional,
    ensures
        is_queued(
            ctx.explored(tasks, family),
            TaskView::Reduce(ReductionView::Delete(family.node.id)),
            (family.node.end - family.node.start) as usize,
        ),
{
    let min = ctx.min_task_size;
    let node = family.node;
    let item = (TaskView::Reduce(ReductionView::Delete(node.id)), node.size() as usize);
    lemma_one_kept(min, item);
    let items = new_tasks(ctx, family);
    assert(items[items.len() - 1] == item);
    assert(items.contains(item));
    lemma_offered_is_there(ctx, tasks, family, item);
}

/// The nodes whose kind is one of `kinds`.
pub open spec fn members(nodes: Seq<NodeView>, kinds: Seq<Seq<char>>) -> Seq<NodeView> {
    nodes.filter(|n: NodeView| kinds.contains(n.kind))
}

/// How many bytes nodes cover in all.
pub open spec fn bytes_of(nodes: Seq<NodeView>) -> int {
    nodes.fold_left(0int, |sum: int, n: NodeView| sum + (n.end - n.start))
}

/// Whether identifiers are those of the nodes whose kind is one of `kinds`, each once.
pub open spec fn names_exactly(
    named: Seq<NodeId>,
    nodes: Seq<NodeView>,
    kinds: Seq<Seq<char>>,
) -> bool {
    &&& named.len() == members(nodes, kinds).len()
    &&& forall|c: int|
        0 <= c < nodes.len() && kinds.contains(nodes[c].kind) ==> named.contains(
            (#[trigger] nodes[c]).id,
        )
    &&& forall|k: int| 0 <= k < named.len() ==> is_member(#[trigger] named[k], nodes, kinds)
}

/// Whether an identifier is that of a node whose kind is one of `kinds`.
pub open spec fn is_member(id: NodeId, nodes: Seq<NodeView>, kinds: Seq<Seq<char>>) -> bool {
    exists|c: int|
        0 <= c < nodes.len() && (#[trigger] nodes[c]).id == id && kinds.contains(nodes[c].kind)
}

/// Whether a task deletes exactly the nodes whose kind is one of `kinds`, with how
/// many bytes they cover as its priority.
pub open spec fn deletes_a_list(
    named: Seq<NodeId>,
    priority: usize,
    nodes: Seq<NodeView>,
    kinds: Seq<Seq<char>>,
) -> bool {
    kinds.no_duplicates() ==> {
        &&& names_exactly(named, nodes, kinds)
        &&& 0 <= bytes_of(members(nodes, kinds)) <= usize::MAX ==> priority == bytes_of(
            members(nodes, kinds),
        )
    }
}

proof fn lemma_batch(children: Seq<NodeView>, kinds: Seq<Seq<char>>)
    ensures
        deletes_a_list(
            ids(of_kinds(children, kinds)),
            total_size(of_kinds(children, kinds)) as usize,
            children,
            kinds,
        ),
{
    if kinds.no_duplicates() {
        let picked = of_kinds(children, kinds);
        let named = ids(picked);
        lemma_of_kinds(children, kinds);
        assert forall|c: int|
            0 <= c < children.len() && kinds.contains(children[c].kind) implies named.contains(
            (#[trigger] children[c]).id,
        ) by {
            assert(children.contains(children[c]));
            assert(picked.contains(children[c]));
            let k = choose|k: int| 0 <= k < picked.len() && picked[k] == children[c];
            assert(named[k] == children[c].id);
        }
        assert forall|k: int| 0 <= k < named.len() implies is_member(
            #[trigger] named[k],
            children,
            kinds,
        ) by {
            assert(picked.contains(picked[k]));
            assert(children.contains(picked[k]));
            let c = choose|c: int| 0 <= c < children.len() && children[c] == picked[k];
            assert(children[c].id == named[k]);
        }
    }
}

/// Exploring any other node puts a task on the queue for every kind of which it can
/// have many children, if the children that are of a kind that this one stands for
/// cover no fewer bytes than the smallest task: the task deletes exactly those
/// children, and its priority is how many bytes they cover.
pub proof fn law_children_of_a_list_are_to_be_deleted_together<'a, T>(
    ctx: Ctx<'a, T>,
    tasks: TasksView,
    family: FamilyView,
    i: int,
)
    requires
        !may_be_missing(ctx, family),
        !ctx.delete_non_optional,
        ctx.node_types@.lists.contains_key(family.node.kind),
        0 <= i < ctx.node_types@.lists[family.node.kind].len(),
        ctx.node_types@.subtypes_of(
            ctx.node_types@.lists[family.node.kind][i],
        ).no_duplicates(),
    ensures
        ({
            let kinds = ctx.node_types@.subtypes_of(ctx.node_types@.lists[family.node.kind][i]);
            let bytes = bytes_of(members(family.children, kinds));
            ctx.min_task_size <= bytes <= usize::MAX ==> exists|named: Seq<NodeId>|
                {
                    &&& #[trigger] is_queued(
                        ctx.explored(tasks, family),
                        TaskView::Reduce(ReductionView::DeleteAll(named)),
                        bytes as usize,
                    )
                    &&& names_exactly(named, family.children, kinds)
                }
        }),
{
    let min = ctx.min_task_size;
    let types = ctx.node_types@;
    let lists = types.list_types(family);
    let kinds = types.subtypes_of(lists[i]);
    let children = family.children;
    let bytes = bytes_of(members(children, kinds));
    let picked = of_kinds(children, kinds);
    lemma_of_kinds(children, kinds);
    if min <= bytes <= usize::MAX {
        let all = batch_tasks(types, children, lists);
        let item = batch_task(picked);
        assert(all[i] == item);
        assert(all.contains(item));
        lemma_filter_contains(all, |item: (TaskView, usize)| item.1 >= min, item);
        let b = kept(min, all);
        let k = choose|k: int| 0 <= k < b.len() && b[k] == item;
        let a = kept(
            min,
            replace_tasks(family.node, list_or_none(ctx.replacements@, family.node.kind)),
        );
        let items = new_tasks(ctx, family);
        assert(items[a.len() + k] == item);
        assert(items.contains(item));
        lemma_offered_is_there(ctx, tasks, family, item);
        let named = ids(picked);
        lemma_batch(children, kinds);
        assert(is_queued(
            ctx.explored(tasks, family),
            TaskView::Reduce(ReductionView::DeleteAll(named)),
            bytes as usize,
        ));
    }
}

/// Exploring such a node queues every child that is larger than the smallest task to
/// be explored, with its size as priority.
pub proof fn law_the_children_are_to_be_explored<'a, T>(
    ctx: Ctx<'a, T>,
    tasks: TasksView,
    family: FamilyView,
    j: int,
)
    requires
        !may_be_missing(ctx, family),
        !ctx.delete_non_optional,
        0 <= j < family.children.len(),
        family.children[j].start <= family.children[j].end,
        family.children[j].end - family.children[j].start > ctx.min_task_size,
    ensures
        is_queued(
            ctx.explored(tasks, family),
            TaskView::Explore(family.children[j].id),
            (family.children[j].end - family.children[j].start) as usize,
        ),
{
    let min = ctx.min_task_size;
    let children = family.children;
    let types = ctx.node_types@;
    let big = |c: NodeView| c.end - c.start > min;
    let c = child_tasks(children, min);
    lemma_child_tasks(children, min);
    assert(children.contains(children[j]));
    lemma_filter_contains(children, big, children[j]);
    let large = children.filter(big);
    let k = choose|k: int| 0 <= k < large.len() && large[k] == children[j];
    let item = c[k];
    assert(item == (
        TaskView::Explore(children[j].id),
        (children[j].end - children[j].start) as usize,
    ));
    let items = new_tasks(ctx, family);
    assert(items[items.len() - c.len() + k] == item);
    assert(items.contains(item));
    lemma_offered_is_there(ctx, tasks, family, item);
}

/// Exploring a node leaves on the queue what is there, and puts nothing there but
/// replacements of the node, its deletion if it may go, and if it may not, deletions
/// of its children together and explorations of its children.  All of these are no
/// smaller than the smallest task.
pub proof fn law_nothing_else_is_queued<'a, T>(
    ctx: Ctx<'a, T>,
    tasks: TasksView,
    family: FamilyView,
    t: PrioritizedTaskView,
)
    requires
        family.node.start <= family.node.end,
        forall|j: int|
            0 <= j < family.children.len() ==> (#[trigger] family.children[j]).start
                <= family.children[j].end,
    ensures
        ctx.explored(tasks, family).queued.count(t) >= tasks.queued.count(t),
        ctx.explored(tasks, family).queued.contains(t) && !tasks.queued.contains(t) ==> {
            &&& t.priority >= ctx.min_task_size
            &&& match t.task {
                TaskView::Reduce(ReductionView::Replace { node_id, with }) => {
                    &&& node_id == family.node.id
                    &&& ctx.replacements@.contains_key(family.node.kind)
                    &&& ctx.replacements@[family.node.kind].contains(with)
                    &&& t.priority == family.node.end - family.node.start
                },
                TaskView::Reduce(ReductionView::Delete(node_id)) => {
                    &&& node_id == family.node.id
                    &&& may_be_missing(ctx, family) || ctx.delete_non_optional
                    &&& t.priority == family.node.end - family.node.start
                },
                TaskView::Reduce(ReductionView::DeleteAll(named)) => {
                    &&& !may_be_missing(ctx, family) && !ctx.delete_non_optional
                    &&& ctx.node_types@.lists.contains_key(family.node.kind)
                    &&& exists|i: int|
                        0 <= i < ctx.node_types@.lists[family.node.kind].len() && deletes_a_list(
                            named,
                            t.priority,
                            family.children,
                            ctx.node_types@.subtypes_of(
                                #[trigger] ctx.node_types@.lists[family.node.kind][i],
                            ),
                        )
                },
                TaskView::Explore(node_id) => {
                    &&& !may_be_missing(ctx, family) && !ctx.delete_non_optional
                    &&& exists|j: int|
                        0 <= j < family.children.len() && (#[trigger] family.children[j]).id
                            == node_id && t.priority == family.children[j].end
                            - family.children[j].start
                },
            }
        },
{
    let min = ctx.min_task_size;
    let types = ctx.node_types@;
    let node = family.node;
    let items = new_tasks(ctx, family);
    lemma_explored(ctx, tasks, family);
    law_tasks_queued_together_are_all_queued(tasks, items);
    if ctx.explored(tasks, family).queued.contains(t) && !tasks.queued.contains(t) {
        let j = choose|j: int|
            0 <= j < items.len() && (#[trigger] items[j]).0 == t.task && items[j].1 == t.priority;
        let big = |item: (TaskView, usize)| item.1 >= min;
        let all = replace_tasks(node, list_or_none(ctx.replacements@, node.kind));
        let a = kept(min, all);
        if j < a.len() {
            lemma_filtered_is_there(all, big, j);
            let k = choose|k: int| 0 <= k < all.len() && all[k] == a[j];
            let list = list_or_none(ctx.replacements@, node.kind);
            assert(list.contains(list[k]));
        } else if types.optional_node(family) || ctx.delete_non_optional {
            lemma_one_kept(
                min,
                (TaskView::Reduce(ReductionView::Delete(node.id)), node.size() as usize),
            );
        } else {
            let batches = batch_tasks(types, family.children, types.list_types(family));
            let b = kept(min, batches);
            let k = j - a.len();
            if k < b.len() {
                lemma_filtered_is_there(batches, big, k);
                let m = choose|m: int| 0 <= m < batches.len() && batches[m] == b[k];
                assert(items[j] == b[k]);
                let kinds = types.subtypes_of(types.list_types(family)[m]);
                let picked = of_kinds(family.children, kinds);
                assert(batches[m] == batch_task(picked));
                lemma_batch(family.children, kinds);
                assert(deletes_a_list(
                    ids(picked),
                    t.priority,
                    family.children,
                    types.subtypes_of(ctx.node_types@.lists[family.node.kind][m]),
                ));
            } else {
                let c = child_tasks(family.children, min);
                let larger = |c: NodeView| c.end - c.start > min;
                let large = family.children.filter(larger);
                lemma_child_tasks(family.children, min);
                assert(items[j] == c[k - b.len()]);
                lemma_filtered_is_there(family.children, larger, k - b.len());
                let m = choose|m: int|
                    0 <= m < family.children.len() && family.children[m] == large[k - b.len()];
                assert(family.children[m].id == large[k - b.len()].id);
            }
        }
    }
}

/// How many texts are to be tried in the place of a node that is large enough.
pub open spec fn replacement_count<'a, T>(ctx: Ctx<'a, T>, node: NodeView) -> nat {
    if ctx.replacements@.contains_key(node.kind) && node.end - node.start >= ctx.min_task_size {
        ctx.replacements@[node.kind].len()
    } else {
        0
    }
}

proof fn lemma_replacement_count<'a, T>(ctx: Ctx<'a, T>, node: NodeView)
    requires
        node.start <= node.end,
    ensures
        kept(
            ctx.min_task_size,
            replace_tasks(node, list_or_none(ctx.replacements@, node.kind)),
        ).len() == replacement_count(ctx, node),
{
    let min = ctx.min_task_size;
    let all = replace_tasks(node, list_or_none(ctx.replacements@, node.kind));
    let big = |item: (TaskView, usize)| item.1 >= min;
    if node.end - node.start >= min {
        assert forall|k: int| 0 <= k < all.len() implies big(#[trigger] all[k]) by {}
        lemma_all_pass(all, big);
    } else {
        if all.filter(big).len() > 0 {
            lemma_filtered_is_there(all, big, 0);
            let k = choose|k: int| 0 <= k < all.len() && all[k] == all.filter(big)[0];
            assert(all[k].1 == node.end - node.start);
        }
    }
}

/// Exploring a node that may go puts so many tasks on the queue: one for each
/// replacement, and its deletion.
pub proof fn law_so_many_tasks_come_of_a_node_that_may_go<'a, T>(
    ctx: Ctx<'a, T>,
    tasks: TasksView,
    family: FamilyView,
)
    requires
        family.node.start <= family.node.end,
        may_be_missing(ctx, family) || ctx.delete_non_optional,
    ensures
        ctx.explored(tasks, family).queued.len() == tasks.queued.len() + replacement_count(
            ctx,
            family.node,
        ) + (if family.node.end - family.node.start >= ctx.min_task_size {
            1int
        } else {
            0int
        }),
{
    let node = family.node;
    lemma_explored(ctx, tasks, family);
    law_tasks_queued_together_are_all_queued(tasks, new_tasks(ctx, family));
    lemma_replacement_count(ctx, node);
    lemma_one_kept(
        ctx.min_task_size,
        (TaskView::Reduce(ReductionView::Delete(node.id)), node.size() as usize),
    );
}

/// How many of the kinds have children that cover enough bytes.
proof fn lemma_batch_count<'a, T>(
    ctx: Ctx<'a, T>,
    children: Seq<NodeView>,
    lists: Seq<Seq<char>>,
)
    requires
        forall|i: int| #![trigger lists[i]]
            0 <= i < lists.len() ==> {
                &&& ctx.node_types@.subtypes_of(lists[i]).no_duplicates()
                &&& 0 <= bytes_of(members(children, ctx.node_types@.subtypes_of(lists[i])))
                    <= usize::MAX
            },
    ensures
        kept(ctx.min_task_size, batch_tasks(ctx.node_types@, children, lists)).len()
            == lists.filter(
            |kind: Seq<char>|
                bytes_of(members(children, ctx.node_types@.subtypes_of(kind)))
                    >= ctx.min_task_size,
        ).len(),
    decreases lists.len(),
{
    reveal(Seq::filter);
    let types = ctx.node_types@;
    let all = batch_tasks(types, children, lists);
    if lists.len() > 0 {
        let start = lists.drop_last();
        assert forall|i: int| #![trigger start[i]] 0 <= i < start.len() implies {
            &&& types.subtypes_of(start[i]).no_duplicates()
            &&& 0 <= bytes_of(members(children, types.subtypes_of(start[i]))) <= usize::MAX
        } by {
            assert(start[i] == lists[i]);
        }
        lemma_batch_count(ctx, children, start);
        assert(all.drop_last() =~= batch_tasks(types, children, start));
        let last = lists[lists.len() - 1];
        lemma_of_kinds(children, types.subtypes_of(last));
        assert(all.last() == batch_task(of_kinds(children, types.subtypes_of(last))));
    }
}

/// Exploring any other node puts so many tasks on the queue: one for each
/// replacement, one for each kind of which it can have many children and has children
/// of enough bytes, and one for each child that is larger than the smallest task.
pub proof fn law_so_many_tasks_come_of_any_other_node<'a, T>(
    ctx: Ctx<'a, T>,
    tasks: TasksView,
    family: FamilyView,
    lists: Seq<Seq<char>>,
)
    requires
        family.node.start <= family.node.end,
        !may_be_missing(ctx, family),
        !ctx.delete_non_optional,
        ctx.node_types@.lists.contains_key(family.node.kind) ==> lists
            == ctx.node_types@.lists[family.node.kind],
        !ctx.node_types@.lists.contains_key(family.node.kind) ==> lists.len() == 0,
        forall|i: int| #![trigger lists[i]]
            0 <= i < lists.len() ==> {
                &&& ctx.node_types@.subtypes_of(lists[i]).no_duplicates()
                &&& 0 <= bytes_of(members(family.children, ctx.node_types@.subtypes_of(lists[i])))
                    <= usize::MAX
            },
    ensures
        ctx.explored(tasks, family).queued.len() == tasks.queued.len() + replacement_count(
            ctx,
            family.node,
        ) + lists.filter(
            |kind: Seq<char>|
                bytes_of(members(family.children, ctx.node_types@.subtypes_of(kind)))
                    >= ctx.min_task_size,
        ).len() + family.children.filter(|c: NodeView| c.end - c.start > ctx.min_task_size).len(),
{
    let min = ctx.min_task_size;
    lemma_explored(ctx, tasks, family);
    law_tasks_queued_together_are_all_queued(tasks, new_tasks(ctx, family));
    lemma_replacement_count(ctx, family.node);
    assert(lists =~= ctx.node_types@.list_types(family));
    lemma_batch_count(ctx, family.children, lists);
    lemma_child_tasks(family.children, min);
}

proof fn lemma_all_pass<A>(s: Seq<A>, test: spec_fn(A) -> bool)
    requires
        forall|k: int| 0 <= k < s.len() ==> test(#[trigger] s[k]),
    ensures
        s.filter(test) == s,
    decreases s.len(),
{
    reveal(Seq::filter);
    if s.len() > 0 {
        let start = s.drop_last();
        assert forall|k: int| 0 <= k < start.len() implies test(#[trigger] start[k]) by {
            assert(start[k] == s[k]);
        }
        lemma_all_pass(start, test);
        assert(test(s[s.len() - 1]));
        assert(start.push(s.last()) =~= s);
    }
}

/// A deletion or a replacement of one node that was tried in vain queues every child
/// of the node that is larger than the smallest task to be explored.  A deletion of
/// several nodes that was tried in vain queues nothing.
pub proof fn law_after_a_trial_in_vain_the_children_are_explored<'a, T>(
    tctx: ThreadCtx<'a, T>,
    tasks: TasksView,
    task: TaskView,
    id: NodeId,
    j: int,
)
    requires
        task is Reduce,
        task->Reduce_0 is DeleteAll || task->Reduce_0 == ReductionView::Delete(id) || (
        task->Reduce_0 is Replace && task->Reduce_0->Replace_node_id == id),
        forall|k: int|
            0 <= k < tctx.node_ids@[id.id].children.len() ==> (
            #[trigger] tctx.node_ids@[id.id].children[k]).start
                <= tctx.node_ids@[id.id].children[k].end,
        0 <= j < tctx.node_ids@[id.id].children.len(),
    ensures
        task->Reduce_0 is DeleteAll ==> tctx.fallen_back(tasks, task) == tasks,
        ({
            let child = tctx.node_ids@[id.id].children[j];
            !(task->Reduce_0 is DeleteAll) && child.end - child.start > tctx.ctx.min_task_size
                ==> is_queued(
                tctx.fallen_back(tasks, task),
                TaskView::Explore(child.id),
                (child.end - child.start) as usize,
            )
        }),
        !(task->Reduce_0 is DeleteAll) ==> task.known(tctx.node_ids@)
            == tctx.node_ids@.contains_key(id.id),
        TaskView::Explore(id).known(tctx.node_ids@) == tctx.node_ids@.contains_key(id.id),
{
    let children = tctx.node_ids@[id.id].children;
    law_large_children_are_all_queued(tasks, tctx.ctx.min_task_size, children);
}

} // verus!
