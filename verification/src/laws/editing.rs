//! What tasks do to edits.
use vstd::prelude::*;
use vstd::utf8::encode_utf8;

use crate::ctx::task_edit;
use crate::edits::{EditsView, NodeEditView};
use crate::id::NodeId;
use crate::task::{ReductionView, TaskView};

verus! {

/// Whether all that is left out under some edits is left out under others.
pub open spec fn keeps_omissions(before: EditsView, after: EditsView) -> bool {
    forall|id: NodeId| #[trigger] before.should_omit(id) ==> after.should_omit(id)
}

/// What stands in the place of a node: its own bytes if it is not edited, nothing if it
/// is left out, the new text if it is replaced.
pub proof fn law_edits_say_what_stands_in_the_place_of_a_node(edits: EditsView, id: NodeId)
    ensures
        !edits.by_id.contains_key(id.id) ==> edits.insertion(id) is None && !edits.should_omit(id),
        edits.by_id.contains_key(id.id) && edits.by_id[id.id] == NodeEditView::Omit
            ==> edits.insertion(id) == Some(Seq::<u8>::empty()) && edits.should_omit(id),
        edits.by_id.contains_key(id.id) && edits.by_id[id.id] is Replace ==> edits.insertion(id)
            == Some(encode_utf8(edits.by_id[id.id]->Replace_0)) && !edits.should_omit(id),
        EditsView::none().insertion(id) is None,
        EditsView::none() == edits <==> forall|number: usize| !edits.by_id.contains_key(number),
{
    if forall|number: usize| !edits.by_id.contains_key(number) {
        assert(edits =~= EditsView::none());
    }
}

/// Leaving a node out changes what stands in its place, and nothing else.  So does
/// replacing it, unless it is left out: then nothing changes.
pub proof fn law_an_edit_changes_one_node(
    edits: EditsView,
    id: NodeId,
    with: Seq<char>,
    other: NodeId,
)
    ensures
        edits.omit(id).insertion(id) == Some(Seq::<u8>::empty()),
        edits.omit(id).should_omit(id),
        edits.should_omit(id) ==> edits.replace(id, with) == edits,
        !edits.should_omit(id) ==> edits.replace(id, with).insertion(id) == Some(encode_utf8(with)),
        other.id != id.id ==> {
            &&& edits.omit(id).insertion(other) == edits.insertion(other)
            &&& edits.omit(id).should_omit(other) == edits.should_omit(other)
            &&& edits.replace(id, with).insertion(other) == edits.insertion(other)
            &&& edits.replace(id, with).should_omit(other) == edits.should_omit(other)
        },
{
}

/// Leaving several nodes out changes what stands in their places, and nothing else.
pub proof fn law_omitting_all_changes_no_other_node(
    edits: EditsView,
    ids: Seq<NodeId>,
    other: NodeId,
)
    ensures
        ids.contains(other) ==> edits.omit_all(ids).insertion(other) == Some(Seq::<u8>::empty()),
        !ids.contains(other) ==> edits.omit_all(ids).insertion(other) == edits.insertion(other),
        edits.should_omit_all(ids) <==> forall|k: int|
            0 <= k < ids.len() ==> edits.should_omit(#[trigger] ids[k]),
    decreases ids.len(),
{
    if ids.len() > 0 {
        let start = ids.drop_last();
        law_omitting_all_changes_no_other_node(edits, start, other);
        if ids.contains(other) {
            let k = choose|k: int| 0 <= k < ids.len() && ids[k] == other;
            if k < start.len() {
                assert(start[k] == other);
            }
        }
        if start.contains(other) {
            let k = choose|k: int| 0 <= k < start.len() && start[k] == other;
            assert(ids[k] == other);
        }
        assert(ids[ids.len() - 1] == ids.last());
    }
}

/// A reduction is in vain only if it is a deletion, and all nodes that it deletes are
/// left out already.  Any other adds its edits to what is there: nothing stands in the
/// place of a node that it deletes, its text in the place of a node that it replaces
/// unless that is left out, and in the place of any other node what stood there before.
pub proof fn law_a_reduction_adds_its_edits(edits: EditsView, task: TaskView, other: NodeId)
    requires
        task is Reduce,
    ensures
        match task->Reduce_0 {
            ReductionView::Delete(id) => {
                &&& task_edit(edits, task) is None <==> edits.should_omit(id)
                &&& task_edit(edits, task) is Some ==> {
                    let next = task_edit(edits, task)->0;
                    &&& next.insertion(id) == Some(Seq::<u8>::empty())
                    &&& other.id != id.id ==> next.insertion(other) == edits.insertion(other)
                }
            },
            ReductionView::DeleteAll(ids) => {
                &&& task_edit(edits, task) is None <==> forall|k: int|
                    0 <= k < ids.len() ==> edits.should_omit(#[trigger] ids[k])
                &&& task_edit(edits, task) is Some ==> {
                    let next = task_edit(edits, task)->0;
                    &&& ids.contains(other) ==> next.insertion(other) == Some(Seq::<u8>::empty())
                    &&& !ids.contains(other) ==> next.insertion(other) == edits.insertion(other)
                }
            },
            ReductionView::Replace { node_id, with } => {
                &&& task_edit(edits, task) is Some
                &&& {
                    let next = task_edit(edits, task)->0;
                    &&& edits.should_omit(node_id) ==> next == edits
                    &&& !edits.should_omit(node_id) ==> next.insertion(node_id) == Some(
                        encode_utf8(with),
                    )
                    &&& other.id != node_id.id ==> next.insertion(other) == edits.insertion(other)
                }
            },
        },
{
    if let TaskView::Reduce(ReductionView::DeleteAll(ids)) = task {
        law_omitting_all_changes_no_other_node(edits, ids, other);
    }
}

/// Leaving several nodes out leaves out those, and what was left out before.
pub proof fn law_omitting_all_omits_each(edits: EditsView, ids: Seq<NodeId>, id: NodeId)
    ensures
        edits.omit_all(ids).should_omit(id) <==> edits.should_omit(id) || ids.contains(id),
    decreases ids.len(),
{
    if ids.len() > 0 {
        let start = ids.drop_last();
        law_omitting_all_omits_each(edits, start, id);
        if ids.contains(id) {
            let k = choose|k: int| 0 <= k < ids.len() && ids[k] == id;
            if k < start.len() {
                assert(start[k] == id);
            }
        }
        if start.contains(id) {
            let k = choose|k: int| 0 <= k < start.len() && start[k] == id;
            assert(ids[k] == id);
        }
        assert(ids[ids.len() - 1] == ids.last());
    }
}

/// What a task does, it does in addition: what is left out stays left out.
pub proof fn law_omissions_are_kept(edits: EditsView, task: TaskView)
    ensures
        task_edit(edits, task) matches Some(next) ==> keeps_omissions(edits, next),
{
    if let TaskView::Reduce(ReductionView::DeleteAll(ids)) = task {
        assert forall|id: NodeId| #[trigger] edits.should_omit(id) implies edits.omit_all(
            ids,
        ).should_omit(id) by {
            law_omitting_all_omits_each(edits, ids, id);
        }
    }
}

/// A deletion that has been made is stale: there is nothing left of it to do.
pub proof fn law_done_deletions_are_stale(edits: EditsView, task: TaskView)
    requires
        task is Reduce,
        !(task->Reduce_0 is Replace),
    ensures
        task_edit(edits, task) matches Some(next) ==> task_edit(next, task) is None,
{
    if let TaskView::Reduce(ReductionView::DeleteAll(ids)) = task {
        let next = edits.omit_all(ids);
        assert forall|i: int| 0 <= i < ids.len() implies next.should_omit(#[trigger] ids[i]) by {
            law_omitting_all_omits_each(edits, ids, ids[i]);
            assert(ids.contains(ids[i]));
        }
    }
}

/// A deletion is stale only if it would leave the edits as they are.
pub proof fn law_stale_deletions_change_nothing(edits: EditsView, id: NodeId, ids: Seq<NodeId>)
    ensures
        task_edit(edits, TaskView::Reduce(ReductionView::Delete(id))) is None ==> edits.omit(id)
            == edits,
        task_edit(edits, TaskView::Reduce(ReductionView::DeleteAll(ids))) is None
            ==> edits.omit_all(ids) == edits,
    decreases ids.len(),
{
    if edits.should_omit(id) {
        assert(edits.omit(id) =~= edits);
    }
    if edits.should_omit_all(ids) && ids.len() > 0 {
        let start = ids.drop_last();
        assert forall|i: int| 0 <= i < start.len() implies edits.should_omit(#[trigger] start[i]) by {
            assert(start[i] == ids[i]);
        }
        law_stale_deletions_change_nothing(edits, id, start);
        assert(edits.should_omit(ids[ids.len() - 1]));
        assert(edits.omit(ids.last()) =~= edits);
    }
}

} // verus!
