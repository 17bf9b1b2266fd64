//! What the workers of a pass share, and what they do with it.
//!
//! The queue and the edits change while a pass runs.  They are handed in by
//! whoever guards them.
use vstd::prelude::*;

use crate::edits::{Edits, EditsView};
use crate::id::NodeId;
use crate::node_types::{KindTable, NodeTypes};
use crate::nodes::{is_tree_table, lemma_tabulated_tree, tabulates, NodeTable};
use crate::original::{touches, Original};
use crate::parse::{language_of, language_supported, parse, parse_shape, tree_language};
use crate::syntax::{distinct_ids, node_size, root, tree_view, Family, NodeView, SyntaxNode};
use crate::task::{PrioritizedTask, PrioritizedTaskView, Reduction, ReductionView, Task, TaskView};
use crate::tasks::{queue_items, Tasks, TasksView};
use crate::versioned::Versioned;

verus! {

/// What does not change while a pass runs.
#[derive(Debug)]
pub struct Ctx<'a, T> {
    /// Whether nodes are deleted even where the grammar asks for them.
    pub delete_non_optional: bool,
    /// What the grammar allows.
    pub node_types: &'a NodeTypes,
    /// The program that the pass started from.
    pub orig: Original,
    /// Decides whether a program is interesting.
    pub check: &'a T,
    /// Tasks of fewer bytes than this are not worth their while.
    pub min_task_size: usize,
    /// For a kind of node, the texts to try in its place.
    pub replacements: &'a KindTable,
}

impl TasksView {
    /// The queue after a task has been pushed, or as it was if the task is too
    /// small.
    pub open spec fn offered(self, min_task_size: usize, task: TaskView, priority: usize) -> TasksView {
        if priority < min_task_size {
            self
        } else {
            self.pushed(task, priority)
        }
    }

    /// The queue after several tasks have been offered to it, first to last.
    pub open spec fn offered_all(
        self,
        min_task_size: usize,
        tasks: Seq<(TaskView, usize)>,
    ) -> TasksView
        decreases tasks.len(),
    {
        if tasks.len() == 0 {
            self
        } else {
            self.offered_all(min_task_size, tasks.drop_last()).offered(
                min_task_size,
                tasks.last().0,
                tasks.last().1,
            )
        }
    }

    /// The queue after the children of a node have been queued, and a worker has
    /// been woken for each.
    pub open spec fn children_pushed(
        self,
        min_task_size: usize,
        children: Seq<NodeView>,
    ) -> TasksView {
        self.enqueue_all(child_tasks(children, min_task_size)).signal(children.len())
    }
}

/// The tasks that explore those of the nodes that are large enough.
pub open spec fn child_tasks(children: Seq<NodeView>, min_task_size: usize) -> Seq<(TaskView, usize)>
    decreases children.len(),
{
    if children.len() == 0 {
        Seq::empty()
    } else {
        let start = child_tasks(children.drop_last(), min_task_size);
        let child = children.last();
        if child.size() > min_task_size {
            start.push((TaskView::Explore(child.id), child.size() as usize))
        } else {
            start
        }
    }
}

/// The edits with those of a task added, or nothing if they are all there.
pub open spec fn task_edit(edits: EditsView, task: TaskView) -> Option<EditsView> {
    match task {
        TaskView::Explore(_) => Some(edits),
        TaskView::Reduce(ReductionView::Delete(node_id)) => if edits.should_omit(node_id) {
            None
        } else {
            Some(edits.omit(node_id))
        },
        TaskView::Reduce(ReductionView::DeleteAll(node_ids)) => if edits.should_omit_all(
            node_ids,
        ) {
            None
        } else {
            Some(edits.omit_all(node_ids))
        },
        TaskView::Reduce(ReductionView::Replace { node_id, with }) => Some(
            edits.replace(node_id, with),
        ),
    }
}

impl<'a, T> Ctx<'a, T> {
    /// Whether all nodes of the program have sizes that can be worked with.
    pub open spec fn well_formed(self) -> bool {
        self.orig.well_sized()
    }

    /// The text as `edits` print it, and whether anything was changed.
    pub fn render(&self, edits: &Edits) -> (r: Result<(bool, Vec<u8>), std::io::Error>)
        requires
            self.orig.prints(edits@),
        ensures
            r matches Ok((changed, text)) && changed == touches(self.orig.nodes(), edits@) && text@
                == self.orig.rendered(edits@),
    {
        self.orig.render(edits)
    }

    /// The grammar of the program.
    pub fn _language(&self) -> (r: tree_sitter::Language)
        ensures
            r == tree_language(self.orig.tree),
    {
        language_of(&self.orig.tree)
    }

    /// Parse a text with the grammar of the program.
    pub fn _parse(&self, src: &[u8]) -> (r: Option<tree_sitter::Tree>)
        requires
            src@.len() <= u32::MAX,
        ensures
            r is Some <==> language_supported(tree_language(self.orig.tree)),
            r is Some ==> tree_language(r->0) == tree_language(self.orig.tree),
            r is Some ==> tree_view(r->0).shape() == parse_shape(
                tree_language(self.orig.tree),
                src@,
            ),
    {
        parse(self._language(), src)
    }

    /// Whether the task that comes next off a queue is not too small, or explores the
    /// root, as the first task of a pass does.
    pub open spec fn can_pop(self, tasks: TasksView) -> bool {
        forall|first: PrioritizedTaskView| #[trigger]
            tasks.is_first(first) ==> first.priority >= self.min_task_size || first.task
                == TaskView::Explore(tree_view(self.orig.tree).node().id)
    }

    /// Test whether a task can be popped.
    pub fn check_pop(&self, tasks: &Tasks) -> (r: bool)
        ensures
            r == self.can_pop(tasks@),
    {
        match tasks.first_priority() {
            Some(priority) if priority < self.min_task_size => {
                let r = tasks.first_explore(root(&self.orig.tree).id);
                proof {
                    let id = tree_view(self.orig.tree).node().id;
                    let top = choose|first: PrioritizedTaskView| #[trigger]
                        tasks@.is_first(first) && first.priority == priority;
                    if !r {
                        let first = choose|first: PrioritizedTaskView| #[trigger]
                            tasks@.is_first(first) && first.task != TaskView::Explore(id);
                        assert(tasks@.queued.contains(first) && tasks@.queued.contains(top));
                    }
                }
                r
            },
            Some(priority) => {
                proof {
                    let top = choose|first: PrioritizedTaskView| #[trigger]
                        tasks@.is_first(first) && first.priority == priority;
                    assert(tasks@.queued.contains(top));
                }
                true
            },
            None => true,
        }
    }

    /// Pop the highest-priority task from the task heap.
    pub fn pop_task(&self, tasks: &mut Tasks) -> (r: Option<PrioritizedTask>)
        requires
            self.can_pop(old(tasks)@),
        ensures
            match r {
                Some(ptask) => {
                    &&& old(tasks)@.is_first(ptask@)
                    &&& final(tasks)@ == old(tasks)@.without(ptask@)
                },
                None => {
                    &&& old(tasks)@.queued.len() == 0
                    &&& final(tasks)@ == old(tasks)@
                },
            },
    {
        tasks.pop()
    }

    /// Push a task whose priority is the size of a node.
    pub fn push_task(&self, tasks: &mut Tasks, node: &SyntaxNode, task: Task)
        requires
            node.start_byte <= node.end_byte,
        ensures
            final(tasks)@ == old(tasks)@.offered(
                self.min_task_size,
                task@,
                node@.size() as usize,
            ),
    {
        self.push_prioritized_task(tasks, node_size(node), task)
    }

    /// Push a task, unless it is too small.
    pub fn push_prioritized_task(&self, tasks: &mut Tasks, priority: usize, task: Task)
        ensures
            final(tasks)@ == old(tasks)@.offered(self.min_task_size, task@, priority),
    {
        if priority < self.min_task_size {
            return ;
        }
        tasks.push(task, priority)
    }

    /// Queue the children of a node that are larger than the smallest task.
    pub fn push_explore_children(&self, tasks: &mut Tasks, family: &Family)
        requires
            forall|i: int|
                0 <= i < family.children.len() ==> (#[trigger] family.children[i]).start_byte
                    <= family.children[i].end_byte,
        ensures
            final(tasks)@ == old(tasks)@.children_pushed(self.min_task_size, family@.children),
    {
        let mut wanted: Vec<(Task, usize)> = Vec::new();
        let ghost kids = family@.children;
        assert(kids.take(0) =~= Seq::empty());
        assert(queue_items(wanted@) =~= child_tasks(kids.take(0), self.min_task_size));
        for i in 0..family.children.len()
            invariant
                kids == family@.children,
                kids.len() == family.children.len(),
                forall|k: int|
                    0 <= k < family.children.len() ==> (#[trigger] family.children[k]).start_byte
                        <= family.children[k].end_byte,
                queue_items(wanted@) == child_tasks(kids.take(i as int), self.min_task_size),
        {
            let child = &family.children[i];
            let size: usize = node_size(child);
            assert(kids.take(i + 1).drop_last() =~= kids.take(i as int));
            assert(kids[i as int] == child@);
            if size > self.min_task_size {
                let ghost before = queue_items(wanted@);
                wanted.push((Task::Explore(child.id), size));
                assert(queue_items(wanted@) =~= before.push((TaskView::Explore(child.id), size)));
            }
        }
        assert(kids.take(kids.len() as int) =~= kids);
        tasks.push_all(wanted);
        tasks.signal(family.children.len());
    }

    /// The edits with those of a reduction added, as a new version, or nothing if all
    /// that it deletes is deleted already.  An exploration has no edits.
    pub fn add_task_edit(&self, edits: &Versioned<Edits>, task: &Task) -> (r: Option<
        Versioned<Edits>,
    >)
        requires
            edits.version < usize::MAX,
            task is Reduce,
        ensures
            match r {
                Some(next) => {
                    &&& task_edit(edits.value@, task@) == Some(next.value@)
                    &&& next.version == edits.version + 1
                },
                None => task_edit(edits.value@, task@) is None,
            },
    {
        match task {
            Task::Explore(_) => Some(edits.clone()),
            Task::Reduce(Reduction::Delete(node_id)) => {
                if edits.get().should_omit_id(node_id) {
                    return None;
                }
                let id = *node_id;
                let change = |e: Edits| -> (r: Edits)
                    ensures
                        r@ == e@.omit(id),
                    { e.omit_id(id) };
                Some(edits.mutate_clone(change))
            },
            Task::Reduce(Reduction::DeleteAll(node_ids)) => {
                if all_omitted(edits.get(), node_ids) {
                    return None;
                }
                let change = |e: Edits| -> (r: Edits)
                    ensures
                        r@ == e@.omit_all(node_ids@),
                    { e.omit_ids(node_ids) };
                Some(edits.mutate_clone(change))
            },
            Task::Reduce(Reduction::Replace { node_id, with }) => {
                let id = *node_id;
                let text = with.clone();
                let change = |e: Edits| -> (r: Edits)
                    ensures
                        r@ == e@.replace(id, text@),
                    { e.replace_id(id, text) };
                Some(edits.mutate_clone(change))
            },
        }
    }
}

/// Whether all of the nodes are left out already.
fn all_omitted(edits: &Edits, node_ids: &Vec<NodeId>) -> (r: bool)
    ensures
        r == edits@.should_omit_all(node_ids@),
{
    let mut i: usize = 0;
    while i < node_ids.len()
        invariant
            i <= node_ids.len(),
            forall|k: int| 0 <= k < i ==> edits@.should_omit(#[trigger] node_ids[k]),
        decreases node_ids.len() - i,
    {
        if !edits.should_omit_id(&node_ids[i]) {
            assert(!edits@.should_omit(node_ids@[i as int]));
            return false;
        }
        i = i + 1;
    }
    true
}

/// What one worker has at hand: what all share, and the nodes by identifier.
#[derive(Debug)]
pub struct ThreadCtx<'a, T> {
    pub ctx: &'a Ctx<'a, T>,
    pub node_ids: NodeTable,
}

impl<'a, T> ThreadCtx<'a, T> {
    /// Whether the nodes have sizes that can be worked with, and with a node its
    /// children are at hand.
    pub open spec fn well_formed(self) -> bool {
        is_tree_table(self.node_ids@)
    }

    /// Gather the nodes of the program.
    pub fn new(ctx: &'a Ctx<'a, T>) -> (r: Self)
        requires
            ctx.well_formed(),
        ensures
            r.ctx == ctx,
            tabulates(r.node_ids@, ctx.orig.nodes()),
            distinct_ids(ctx.orig.nodes()),
            r.well_formed(),
    {
        let node_ids = NodeTable::of_tree(&ctx.orig.tree);
        proof {
            lemma_tabulated_tree(node_ids@, tree_view(ctx.orig.tree));
        }
        ThreadCtx { ctx, node_ids }
    }

    /// The node with an identifier.
    pub fn find(&self, id: &NodeId) -> (r: &Family)
        requires
            self.node_ids@.contains_key(id.id),
        ensures
            r@ == self.node_ids@[id.id],
    {
        self.node_ids.find(id)
    }
}

} // verus!
