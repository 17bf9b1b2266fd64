//! Finding out which reductions a node offers.
use vstd::prelude::*;

use crate::ctx::{Ctx, ThreadCtx};
use crate::id::NodeId;
use crate::node_types::{list_or_none, texts, NodeTypesView};
use crate::syntax::{total_size, Family, FamilyView, NodeView};
use crate::task::{Reduction, ReductionView, Task, TaskView};
use crate::tasks::{Tasks, TasksView};
use crate::text::same_text;

verus! {

/// Those of the nodes that are of a kind.
pub open spec fn of_kind(nodes: Seq<NodeView>, kind: Seq<char>) -> Seq<NodeView> {
    nodes.filter(|n: NodeView| n.kind == kind)
}

/// Those of the nodes that are of one of the kinds, kind by kind.
pub open spec fn of_kinds(nodes: Seq<NodeView>, kinds: Seq<Seq<char>>) -> Seq<NodeView>
    decreases kinds.len(),
{
    if kinds.len() == 0 {
        Seq::empty()
    } else {
        of_kinds(nodes, kinds.drop_last()) + of_kind(nodes, kinds.last())
    }
}

/// The identifiers of nodes.
pub open spec fn ids(nodes: Seq<NodeView>) -> Seq<NodeId> {
    nodes.map_values(|n: NodeView| n.id)
}

/// The task that deletes nodes together, and its priority, how many bytes they
/// cover in all.
pub open spec fn batch_task(nodes: Seq<NodeView>) -> (TaskView, usize) {
    (TaskView::Reduce(ReductionView::DeleteAll(ids(nodes))), total_size(nodes) as usize)
}

/// The tasks that delete all children of a kind at once, for each of the kinds.
pub open spec fn batch_tasks(
    node_types: NodeTypesView,
    children: Seq<NodeView>,
    kinds: Seq<Seq<char>>,
) -> Seq<(TaskView, usize)> {
    kinds.map_values(
        |kind: Seq<char>| batch_task(of_kinds(children, node_types.subtypes_of(kind))),
    )
}

/// The tasks that put each of the texts in the place of a node.
pub open spec fn replace_tasks(node: NodeView, with: Seq<Seq<char>>) -> Seq<(TaskView, usize)> {
    with.map_values(
        |text: Seq<char>|
            (
                TaskView::Reduce(ReductionView::Replace { node_id: node.id, with: text }),
                node.size() as usize,
            ),
    )
}

impl<'a, T> Ctx<'a, T> {
    /// The queue after a node has been explored.
    pub open spec fn explored(self, tasks: TasksView, family: FamilyView) -> TasksView {
        let min = self.min_task_size;
        let node = family.node;
        let types = self.node_types@;
        let replaced = tasks.offered_all(
            min,
            replace_tasks(node, list_or_none(self.replacements@, node.kind)),
        );
        if types.optional_node(family) || self.delete_non_optional {
            replaced.offered(
                min,
                TaskView::Reduce(ReductionView::Delete(node.id)),
                node.size() as usize,
            )
        } else {
            replaced.offered_all(
                min,
                batch_tasks(types, family.children, types.list_types(family)),
            ).children_pushed(min, family.children)
        }
    }
}

/// One more node at the end adds its size.
proof fn lemma_total_size_push(nodes: Seq<NodeView>, node: NodeView)
    ensures
        total_size(nodes.push(node)) == total_size(nodes) + node.size(),
{
    assert(nodes.push(node).drop_last() =~= nodes);
}

/// The sizes of two runs of nodes add up.
proof fn lemma_total_size_add(a: Seq<NodeView>, b: Seq<NodeView>)
    ensures
        total_size(a + b) == total_size(a) + total_size(b),
    decreases b.len(),
{
    if b.len() == 0 {
        assert(a + b =~= a);
    } else {
        lemma_total_size_add(a, b.drop_last());
        assert((a + b).drop_last() =~= a + b.drop_last());
    }
}

/// The nodes that pass one of two tests, of which none passes both, are as large
/// as those that pass the first and those that pass the second.
proof fn lemma_total_size_split(
    nodes: Seq<NodeView>,
    both: spec_fn(NodeView) -> bool,
    one: spec_fn(NodeView) -> bool,
    other: spec_fn(NodeView) -> bool,
)
    requires
        forall|n: NodeView| #[trigger] both(n) == (one(n) || other(n)),
        forall|n: NodeView| !(#[trigger] one(n) && other(n)),
    ensures
        total_size(nodes.filter(both)) == total_size(nodes.filter(one)) + total_size(
            nodes.filter(other),
        ),
    decreases nodes.len(),
{
    reveal(Seq::filter);
    if nodes.len() > 0 {
        let start = nodes.drop_last();
        let last = nodes.last();
        lemma_total_size_split(start, both, one, other);
        lemma_total_size_push(start.filter(both), last);
        lemma_total_size_push(start.filter(one), last);
        lemma_total_size_push(start.filter(other), last);
        assert(both(last) == (one(last) || other(last)));
        assert(!(one(last) && other(last)));
    }
}

/// Nodes picked out of nodes that end no earlier than they start cover no
/// negative number of bytes.
proof fn lemma_filter_not_negative(nodes: Seq<NodeView>, test: spec_fn(NodeView) -> bool)
    requires
        forall|k: int| 0 <= k < nodes.len() ==> (#[trigger] nodes[k]).start <= nodes[k].end,
    ensures
        0 <= total_size(nodes.filter(test)),
    decreases nodes.len(),
{
    reveal(Seq::filter);
    if nodes.len() > 0 {
        let start = nodes.drop_last();
        assert forall|k: int| 0 <= k < start.len() implies (#[trigger] start[k]).start
            <= start[k].end by {
            assert(start[k] == nodes[k]);
        }
        lemma_filter_not_negative(start, test);
        lemma_total_size_push(start.filter(test), nodes.last());
        assert(nodes[nodes.len() - 1].start <= nodes[nodes.len() - 1].end);
    }
}

/// A test that all nodes pass picks out all of them.
proof fn lemma_filter_all(nodes: Seq<NodeView>, test: spec_fn(NodeView) -> bool)
    requires
        forall|n: NodeView| #[trigger] test(n),
    ensures
        nodes.filter(test) == nodes,
    decreases nodes.len(),
{
    reveal(Seq::filter);
    if nodes.len() > 0 {
        lemma_filter_all(nodes.drop_last(), test);
        assert(nodes.drop_last().push(nodes.last()) =~= nodes);
        assert(test(nodes.last()));
    }
}

/// Nodes picked kind by kind, no kind twice, and those of no such kind are as
/// large as all nodes.
proof fn lemma_of_kinds_size(nodes: Seq<NodeView>, kinds: Seq<Seq<char>>)
    requires
        kinds.no_duplicates(),
    ensures
        total_size(of_kinds(nodes, kinds)) + total_size(
            nodes.filter(|n: NodeView| !kinds.contains(n.kind)),
        ) == total_size(nodes),
    decreases kinds.len(),
{
    let left = |n: NodeView| !kinds.contains(n.kind);
    if kinds.len() == 0 {
        lemma_filter_all(nodes, left);
    } else {
        let start = kinds.drop_last();
        let kind = kinds.last();
        let left_before = |n: NodeView| !start.contains(n.kind);
        let now = |n: NodeView| n.kind == kind;
        lemma_of_kinds_size(nodes, start);
        assert forall|n: NodeView| #[trigger] left_before(n) == (left(n) || now(n)) by {
            if kinds.contains(n.kind) {
                let k = choose|k: int| 0 <= k < kinds.len() && kinds[k] == n.kind;
                if k < start.len() {
                    assert(start[k] == n.kind);
                }
            }
            if start.contains(n.kind) {
                let k = choose|k: int| 0 <= k < start.len() && start[k] == n.kind;
                assert(kinds[k] == n.kind);
                assert(kinds[k] != kinds[kinds.len() - 1]);
            }
        }
        assert forall|n: NodeView| !(#[trigger] left(n) && now(n)) by {
            assert(kinds.contains(kinds[kinds.len() - 1]));
        }
        lemma_total_size_split(nodes, left_before, left, now);
        lemma_total_size_add(of_kinds(nodes, start), of_kind(nodes, kind));
    }
}

/// Nodes picked kind by kind, no kind twice, are no larger than all nodes.
proof fn lemma_batch_fits(nodes: Seq<NodeView>, kinds: Seq<Seq<char>>)
    requires
        kinds.no_duplicates(),
        forall|k: int| 0 <= k < nodes.len() ==> (#[trigger] nodes[k]).start <= nodes[k].end,
    ensures
        total_size(of_kinds(nodes, kinds)) <= total_size(nodes),
{
    lemma_of_kinds_size(nodes, kinds);
    lemma_filter_not_negative(nodes, |n: NodeView| !kinds.contains(n.kind));
}

/// The nodes that have been gathered so far: those of the kinds done, and those
/// of the kind at hand among the first nodes.
spec fn gathered(
    nodes: Seq<NodeView>,
    kinds: Seq<Seq<char>>,
    done: int,
    kind: Seq<char>,
    seen: int,
) -> Seq<NodeView> {
    of_kinds(nodes, kinds.take(done)) + of_kind(nodes.take(seen), kind)
}

/// What has been gathered is a part of what will be.
proof fn lemma_gathered_fits(
    nodes: Seq<NodeView>,
    kinds: Seq<Seq<char>>,
    done: int,
    seen: int,
)
    requires
        kinds.no_duplicates(),
        0 <= done < kinds.len(),
        0 <= seen <= nodes.len(),
        forall|k: int| 0 <= k < nodes.len() ==> (#[trigger] nodes[k]).start <= nodes[k].end,
    ensures
        total_size(gathered(nodes, kinds, done, kinds[done], seen)) <= total_size(nodes),
{
    let kind = kinds[done];
    let test = |n: NodeView| n.kind == kind;
    let start = kinds.take(done);
    let more = kinds.take(done + 1);
    assert(more.drop_last() =~= start);
    assert(more.no_duplicates());
    lemma_batch_fits(nodes, more);
    lemma_total_size_add(of_kinds(nodes, start), of_kind(nodes, kind));
    lemma_total_size_add(of_kinds(nodes, start), of_kind(nodes.take(seen), kind));
    assert(nodes =~= nodes.take(seen) + nodes.skip(seen));
    Seq::filter_distributes_over_add(nodes.take(seen), nodes.skip(seen), test);
    lemma_total_size_add(nodes.take(seen).filter(test), nodes.skip(seen).filter(test));
    let rest = nodes.skip(seen);
    assert forall|k: int| 0 <= k < rest.len() implies (#[trigger] rest[k]).start <= rest[k].end by {
        assert(rest[k] == nodes[k + seen]);
    }
    lemma_filter_not_negative(rest, test);
}

/// The children of a node that are of one of the kinds, kind by kind, and how
/// many bytes they cover.
fn gather(family: &Family, kinds: &Vec<String>) -> (r: (Vec<NodeId>, usize))
    requires
        texts(kinds@).no_duplicates(),
        forall|i: int|
            0 <= i < family.children.len() ==> (#[trigger] family@.children[i]).start
                <= family@.children[i].end,
        total_size(family@.children) <= usize::MAX,
    ensures
        r.0@ == ids(of_kinds(family@.children, texts(kinds@))),
        r.1 == total_size(of_kinds(family@.children, texts(kinds@))),
{
    let mut batch: Vec<NodeId> = Vec::new();
    let mut batch_size: usize = 0;
    let ghost nodes = family@.children;
    let ghost names = texts(kinds@);
    assert(names.take(0) =~= Seq::empty());
    assert(batch@ =~= ids(of_kinds(nodes, names.take(0))));
    let mut i: usize = 0;
    while i < kinds.len()
        invariant
            i <= kinds.len(),
            nodes == family@.children,
            names == texts(kinds@),
            names.no_duplicates(),
            nodes.len() == family.children.len(),
            forall|k: int| 0 <= k < nodes.len() ==> (#[trigger] nodes[k]).start <= nodes[k].end,
            total_size(nodes) <= usize::MAX,
            batch@ == ids(of_kinds(nodes, names.take(i as int))),
            batch_size == total_size(of_kinds(nodes, names.take(i as int))),
        decreases kinds.len() - i,
    {
        let ghost kind = names[i as int];
        let mut j: usize = 0;
        proof {
            assert(nodes.take(0) =~= Seq::empty());
            assert(of_kind(nodes.take(0), kind) =~= Seq::empty()) by {
                reveal(Seq::filter);
            }
            assert(gathered(nodes, names, i as int, kind, 0) =~= of_kinds(
                nodes,
                names.take(i as int),
            ));
        }
        while j < family.children.len()
            invariant
                i < kinds.len(),
                j <= family.children.len(),
                nodes == family@.children,
                names == texts(kinds@),
                kind == names[i as int],
                names.no_duplicates(),
                nodes.len() == family.children.len(),
                forall|k: int| 0 <= k < nodes.len() ==> (#[trigger] nodes[k]).start <= nodes[k].end,
                total_size(nodes) <= usize::MAX,
                batch@ == ids(gathered(nodes, names, i as int, kind, j as int)),
                batch_size == total_size(gathered(nodes, names, i as int, kind, j as int)),
            decreases family.children.len() - j,
        {
            let child = &family.children[j];
            let ghost before = gathered(nodes, names, i as int, kind, j as int);
            let ghost after = gathered(nodes, names, i as int, kind, j + 1);
            proof {
                assert(nodes[j as int] == child@);
                assert(nodes.take(j + 1).drop_last() =~= nodes.take(j as int));
                reveal(Seq::filter);
                if child@.kind == kind {
                    assert(after =~= before.push(child@));
                    lemma_total_size_push(before, child@);
                    lemma_gathered_fits(nodes, names, i as int, j + 1);
                    assert(ids(after) =~= ids(before).push(child.id));
                } else {
                    assert(after =~= before);
                }
            }
            if same_text(child.kind, kinds[i].as_str()) {
                batch.push(child.id);
                batch_size = batch_size + (child.end_byte - child.start_byte);
            }
            j = j + 1;
        }
        proof {
            assert(nodes.take(j as int) =~= nodes);
            assert(names.take(i + 1).drop_last() =~= names.take(i as int));
        }
        i = i + 1;
    }
    assert(names.take(i as int) =~= names);
    (batch, batch_size)
}

/// Queue the reductions that a node offers.
///
/// For each text that may stand in the node's place there is a task that puts it
/// there.  A node that may be deleted is then to be deleted.  In place of any
/// other, the children that the grammar allows many of are to be deleted
/// together, and the children are to be explored.
pub fn explore<T>(tctx: &ThreadCtx<T>, tasks: &mut Tasks, node_id: NodeId)
    requires
        tctx.well_formed(),
        tctx.node_ids@.contains_key(node_id.id),
    ensures
        final(tasks)@ == tctx.ctx.explored(old(tasks)@, tctx.node_ids@[node_id.id]),
{
    let family = tctx.find(&node_id);
    let ctx = tctx.ctx;
    let ghost min = ctx.min_task_size;
    let ghost view = family@;
    let ghost start = tasks@;
    proof {
        assert(view.well_sized());
        assert forall|k: int| 0 <= k < family.children.len() implies (
        #[trigger] family.children[k]).start_byte <= family.children[k].end_byte by {
            assert(view.children[k] == family.children[k]@);
        }
    }
    let ghost wanted = replace_tasks(view.node, list_or_none(ctx.replacements@, view.node.kind));
    match ctx.replacements.get(family.node.kind) {
        Some(replaces) => {
            let mut i: usize = 0;
            assert(wanted.take(0) =~= Seq::empty());
            while i < replaces.len()
                invariant
                    i <= replaces.len(),
                    view == family@,
                    view.node.id == node_id,
                    view.node.start <= view.node.end,
                    min == ctx.min_task_size,
                    wanted == replace_tasks(view.node, texts(replaces@)),
                    tasks@ == start.offered_all(min, wanted.take(i as int)),
                decreases replaces.len() - i,
            {
                let task = Task::Reduce(
                    Reduction::Replace { node_id, with: replaces[i].clone() },
                );
                proof {
                    assert(wanted.take(i + 1).drop_last() =~= wanted.take(i as int));
                    assert(texts(replaces@)[i as int] == replaces[i as int]@);
                }
                ctx.push_task(tasks, &family.node, task);
                i = i + 1;
            }
            assert(wanted.take(i as int) =~= wanted);
        },
        None => {
            assert(wanted =~= Seq::empty());
        },
    }
    let ghost replaced = tasks@;
    assert(replaced == start.offered_all(min, wanted));
    if ctx.node_types.optional_node(family) || ctx.delete_non_optional {
        ctx.push_task(tasks, &family.node, Task::Reduce(Reduction::Delete(node_id)));
    } else {
        let kinds = ctx.node_types.list_types(family);
        let ghost types = ctx.node_types@;
        let ghost names = texts(kinds@);
        let ghost batches = batch_tasks(types, view.children, names);
        let mut i: usize = 0;
        assert(batches.take(0) =~= Seq::empty());
        while i < kinds.len()
            invariant
                i <= kinds.len(),
                view == family@,
                types == ctx.node_types@,
                names == texts(kinds@),
                batches == batch_tasks(types, view.children, names),
                min == ctx.min_task_size,
                view.well_sized(),
                tasks@ == replaced.offered_all(min, batches.take(i as int)),
            decreases kinds.len() - i,
        {
            let subkinds = ctx.node_types.subtypes(kinds[i].as_str());
            let (batch, batch_size): (Vec<NodeId>, usize) = gather(family, &subkinds);
            proof {
                assert(batches.take(i + 1).drop_last() =~= batches.take(i as int));
                assert(names[i as int] == kinds[i as int]@);
            }
            ctx.push_prioritized_task(
                tasks,
                batch_size,
                Task::Reduce(Reduction::DeleteAll(batch)),
            );
            i = i + 1;
        }
        assert(batches.take(i as int) =~= batches);
        ctx.push_explore_children(tasks, family);
    }
}

} // verus!
