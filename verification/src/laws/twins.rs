//! Trees that differ in nothing but the identifiers of their nodes.
use vstd::prelude::*;

use crate::ctx::{child_tasks, task_edit};
use crate::edits::EditsView;
use crate::explore::{batch_task, batch_tasks, ids, of_kind, of_kinds, replace_tasks};
use crate::id::NodeId;
use crate::node_types::NodeTypesView;
use crate::original::spliced;
use crate::syntax::{
    all_families, distinct_ids, total_size, FamilyView, NodeView, SyntaxView,
};
use crate::task::{ReductionView, TaskView};

verus! {

/// Whether two identifiers are those of nodes at the same place of two trees.
pub open spec fn paired(
    ones: Seq<FamilyView>,
    others: Seq<FamilyView>,
    one: NodeId,
    other: NodeId,
) -> bool {
    exists|i: int|
        0 <= i < ones.len() && (#[trigger] ones[i]).node.id == one && others[i].node.id == other
}

/// Whether two nodes are of the same kind and cover the same bytes.
pub open spec fn alike(one: NodeView, other: NodeView) -> bool {
    &&& one.kind == other.kind
    &&& one.start == other.start
    &&& one.end == other.end
}

/// Whether nodes are alike one by one, and stand at the same places of two trees.
pub open spec fn all_alike(
    ones: Seq<FamilyView>,
    others: Seq<FamilyView>,
    a: Seq<NodeView>,
    b: Seq<NodeView>,
) -> bool {
    &&& a.len() == b.len()
    &&& forall|j: int|
        0 <= j < a.len() ==> alike(#[trigger] a[j], b[j]) && paired(ones, others, a[j].id, b[j].id)
}

/// Whether the nodes of two trees differ in nothing but identifiers.
pub open spec fn are_twins(ones: Seq<FamilyView>, others: Seq<FamilyView>) -> bool {
    &&& ones.len() == others.len()
    &&& forall|i: int|
        0 <= i < ones.len() ==> {
            &&& alike((#[trigger] ones[i]).node, others[i].node)
            &&& ones[i].parent_kind == others[i].parent_kind
            &&& all_alike(ones, others, ones[i].children, others[i].children)
        }
}

/// Whether two tasks do the same to two trees.
pub open spec fn same_task(
    ones: Seq<FamilyView>,
    others: Seq<FamilyView>,
    one: TaskView,
    other: TaskView,
) -> bool {
    match (one, other) {
        (TaskView::Explore(a), TaskView::Explore(b)) => paired(ones, others, a, b),
        (
            TaskView::Reduce(ReductionView::Delete(a)),
            TaskView::Reduce(ReductionView::Delete(b)),
        ) => paired(ones, others, a, b),
        (
            TaskView::Reduce(ReductionView::DeleteAll(a)),
            TaskView::Reduce(ReductionView::DeleteAll(b)),
        ) => {
            &&& a.len() == b.len()
            &&& forall|j: int| 0 <= j < a.len() ==> paired(ones, others, #[trigger] a[j], b[j])
        },
        (
            TaskView::Reduce(ReductionView::Replace { node_id: a, with }),
            TaskView::Reduce(ReductionView::Replace { node_id: b, with: same }),
        ) => paired(ones, others, a, b) && with == same,
        _ => false,
    }
}

/// Whether tasks do the same to two trees one by one, and have the same priorities.
pub open spec fn same_tasks(
    ones: Seq<FamilyView>,
    others: Seq<FamilyView>,
    a: Seq<(TaskView, usize)>,
    b: Seq<(TaskView, usize)>,
) -> bool {
    &&& a.len() == b.len()
    &&& forall|j: int|
        0 <= j < a.len() ==> same_task(ones, others, (#[trigger] a[j]).0, b[j].0) && a[j].1
            == b[j].1
}

/// What trees of the same shape have in common, short of where the children stand.
spec fn looks_alike(ones: Seq<FamilyView>, others: Seq<FamilyView>) -> bool {
    &&& ones.len() == others.len()
    &&& forall|i: int|
        0 <= i < ones.len() ==> {
            &&& alike((#[trigger] ones[i]).node, others[i].node)
            &&& ones[i].parent_kind == others[i].parent_kind
            &&& ones[i].children.len() == others[i].children.len()
            &&& forall|j: int|
                0 <= j < ones[i].children.len() ==> alike(
                    #[trigger] ones[i].children[j],
                    others[i].children[j],
                )
        }
}

proof fn lemma_same_shape(one: SyntaxView, other: SyntaxView)
    requires
        one.shape() == other.shape(),
    ensures
        alike(one.node(), other.node()),
        one.children.len() == other.children.len(),
        forall|j: int|
            0 <= j < one.children.len() ==> (#[trigger] one.children[j]).shape()
                == other.children[j].shape(),
{
    let a = one.shape().children;
    let b = other.shape().children;
    assert(a.len() == one.children.len() && b.len() == other.children.len());
    assert forall|j: int| 0 <= j < one.children.len() implies (#[trigger] one.children[j]).shape()
        == other.children[j].shape() by {
        lemma_shape_of_child(one, j);
        lemma_shape_of_child(other, j);
        assert(a[j] == b[j]);
    }
}

proof fn lemma_shape_of_child(tree: SyntaxView, j: int)
    requires
        0 <= j < tree.children.len(),
    ensures
        tree.shape().children.len() == tree.children.len(),
        tree.shape().children[j] == tree.children[j].shape(),
{
}

proof fn lemma_looks_alike(one: SyntaxView, other: SyntaxView, parent_kind: Option<Seq<char>>)
    requires
        one.shape() == other.shape(),
    ensures
        looks_alike(one.families(parent_kind), other.families(parent_kind)),
    decreases one,
{
    lemma_same_shape(one, other);
    let a = one.families(parent_kind);
    let b = other.families(parent_kind);
    let below_a = all_families(one.children, Some(one.kind));
    let below_b = all_families(other.children, Some(other.kind));
    lemma_all_look_alike(one.children, other.children, Some(one.kind));
    assert forall|i: int| 0 <= i < a.len() implies {
        &&& alike((#[trigger] a[i]).node, b[i].node)
        &&& a[i].parent_kind == b[i].parent_kind
        &&& a[i].children.len() == b[i].children.len()
        &&& forall|j: int|
            0 <= j < a[i].children.len() ==> alike(#[trigger] a[i].children[j], b[i].children[j])
    } by {
        if i == 0 {
            assert forall|j: int| 0 <= j < a[0].children.len() implies alike(
                #[trigger] a[0].children[j],
                b[0].children[j],
            ) by {
                assert(one.children[j].shape() == other.children[j].shape());
                lemma_same_shape(one.children[j], other.children[j]);
            }
        } else {
            assert(a[i] == below_a[i - 1] && b[i] == below_b[i - 1]);
        }
    }
}

proof fn lemma_all_look_alike(
    ones: Seq<SyntaxView>,
    others: Seq<SyntaxView>,
    parent_kind: Option<Seq<char>>,
)
    requires
        ones.len() == others.len(),
        forall|j: int| 0 <= j < ones.len() ==> (#[trigger] ones[j]).shape() == others[j].shape(),
    ensures
        looks_alike(all_families(ones, parent_kind), all_families(others, parent_kind)),
    decreases ones,
{
    if ones.len() > 0 {
        let x = ones.drop_first();
        let y = others.drop_first();
        assert(ones[0].shape() == others[0].shape());
        lemma_looks_alike(ones[0], others[0], parent_kind);
        assert forall|j: int| 0 <= j < x.len() implies (#[trigger] x[j]).shape()
            == y[j].shape() by {
            assert(x[j] == ones[j + 1] && y[j] == others[j + 1]);
        }
        lemma_all_look_alike(x, y, parent_kind);
        let first = ones[0].families(parent_kind);
        let a = all_families(ones, parent_kind);
        let b = all_families(others, parent_kind);
        assert forall|i: int| 0 <= i < a.len() implies {
            &&& alike((#[trigger] a[i]).node, b[i].node)
            &&& a[i].parent_kind == b[i].parent_kind
            &&& a[i].children.len() == b[i].children.len()
            &&& forall|j: int|
                0 <= j < a[i].children.len() ==> alike(
                    #[trigger] a[i].children[j],
                    b[i].children[j],
                )
        } by {
            if i < first.len() {
                assert(a[i] == first[i] && b[i] == others[0].families(parent_kind)[i]);
            } else {
                assert(a[i] == all_families(x, parent_kind)[i - first.len()]);
                assert(b[i] == all_families(y, parent_kind)[i - first.len()]);
            }
        }
    }
}

/// In trees of the same shape, the roots stand at the same places.
proof fn lemma_roots_paired(
    ones: Seq<SyntaxView>,
    others: Seq<SyntaxView>,
    parent_kind: Option<Seq<char>>,
    j: int,
)
    requires
        ones.len() == others.len(),
        forall|k: int| 0 <= k < ones.len() ==> (#[trigger] ones[k]).shape() == others[k].shape(),
        0 <= j < ones.len(),
    ensures
        paired(
            all_families(ones, parent_kind),
            all_families(others, parent_kind),
            ones[j].id,
            others[j].id,
        ),
    decreases ones.len(),
{
    let a = all_families(ones, parent_kind);
    let b = all_families(others, parent_kind);
    let first = ones[0].families(parent_kind);
    assert(ones[0].shape() == others[0].shape());
    lemma_looks_alike(ones[0], others[0], parent_kind);
    if j == 0 {
        assert(a[0] == first[0] && b[0] == others[0].families(parent_kind)[0]);
        assert(a[0].node.id == ones[0].id && b[0].node.id == others[0].id);
    } else {
        let x = ones.drop_first();
        let y = others.drop_first();
        assert forall|k: int| 0 <= k < x.len() implies (#[trigger] x[k]).shape()
            == y[k].shape() by {
            assert(x[k] == ones[k + 1] && y[k] == others[k + 1]);
        }
        lemma_roots_paired(x, y, parent_kind, j - 1);
        lemma_all_look_alike(x, y, parent_kind);
        let rest_a = all_families(x, parent_kind);
        let rest_b = all_families(y, parent_kind);
        let i = choose|i: int|
            0 <= i < rest_a.len() && (#[trigger] rest_a[i]).node.id == x[j - 1].id
                && rest_b[i].node.id == y[j - 1].id;
        assert(a[i + first.len()] == rest_a[i] && b[i + first.len()] == rest_b[i]);
    }
}

/// In trees of the same shape, the children of a node stand at the same places.
proof fn lemma_children_paired(
    one: SyntaxView,
    other: SyntaxView,
    parent_kind: Option<Seq<char>>,
    i: int,
    j: int,
)
    requires
        one.shape() == other.shape(),
        0 <= i < one.families(parent_kind).len(),
        0 <= j < one.families(parent_kind)[i].children.len(),
    ensures
        paired(
            one.families(parent_kind),
            other.families(parent_kind),
            one.families(parent_kind)[i].children[j].id,
            other.families(parent_kind)[i].children[j].id,
        ),
    decreases one,
{
    lemma_same_shape(one, other);
    lemma_looks_alike(one, other, parent_kind);
    lemma_all_look_alike(one.children, other.children, Some(one.kind));
    let a = one.families(parent_kind);
    let b = other.families(parent_kind);
    let below_a = all_families(one.children, Some(one.kind));
    let below_b = all_families(other.children, Some(other.kind));
    if i == 0 {
        lemma_roots_paired(one.children, other.children, Some(one.kind), j);
        let k = choose|k: int|
            0 <= k < below_a.len() && (#[trigger] below_a[k]).node.id == one.children[j].id
                && below_b[k].node.id == other.children[j].id;
        assert(a[k + 1] == below_a[k] && b[k + 1] == below_b[k]);
    } else {
        assert(a[i] == below_a[i - 1] && b[i] == below_b[i - 1]);
        lemma_all_children_paired(one.children, other.children, Some(one.kind), i - 1, j);
        let k = choose|k: int|
            0 <= k < below_a.len() && (#[trigger] below_a[k]).node.id == a[i].children[j].id
                && below_b[k].node.id == b[i].children[j].id;
        assert(a[k + 1] == below_a[k] && b[k + 1] == below_b[k]);
    }
}

proof fn lemma_all_children_paired(
    ones: Seq<SyntaxView>,
    others: Seq<SyntaxView>,
    parent_kind: Option<Seq<char>>,
    i: int,
    j: int,
)
    requires
        ones.len() == others.len(),
        forall|k: int| 0 <= k < ones.len() ==> (#[trigger] ones[k]).shape() == others[k].shape(),
        0 <= i < all_families(ones, parent_kind).len(),
        0 <= j < all_families(ones, parent_kind)[i].children.len(),
    ensures
        paired(
            all_families(ones, parent_kind),
            all_families(others, parent_kind),
            all_families(ones, parent_kind)[i].children[j].id,
            all_families(others, parent_kind)[i].children[j].id,
        ),
    decreases ones,
{
    let a = all_families(ones, parent_kind);
    let b = all_families(others, parent_kind);
    let first_a = ones[0].families(parent_kind);
    let first_b = others[0].families(parent_kind);
    let x = ones.drop_first();
    let y = others.drop_first();
    let rest_a = all_families(x, parent_kind);
    let rest_b = all_families(y, parent_kind);
    assert(ones[0].shape() == others[0].shape());
    lemma_looks_alike(ones[0], others[0], parent_kind);
    assert forall|k: int| 0 <= k < x.len() implies (#[trigger] x[k]).shape() == y[k].shape() by {
        assert(x[k] == ones[k + 1] && y[k] == others[k + 1]);
    }
    lemma_all_look_alike(x, y, parent_kind);
    let n = first_a.len();
    if i < n {
        assert(a[i] == first_a[i] && b[i] == first_b[i]);
        lemma_children_paired(ones[0], others[0], parent_kind, i, j);
        let k = choose|k: int|
            0 <= k < first_a.len() && (#[trigger] first_a[k]).node.id == a[i].children[j].id
                && first_b[k].node.id == b[i].children[j].id;
        assert(a[k] == first_a[k] && b[k] == first_b[k]);
    } else {
        assert(a[i] == rest_a[i - n] && b[i] == rest_b[i - n]);
        lemma_all_children_paired(x, y, parent_kind, i - n, j);
        let k = choose|k: int|
            0 <= k < rest_a.len() && (#[trigger] rest_a[k]).node.id == a[i].children[j].id
                && rest_b[k].node.id == b[i].children[j].id;
        assert(a[k + n] == rest_a[k] && b[k + n] == rest_b[k]);
    }
}

/// Trees of the same shape differ in nothing but the identifiers of their nodes.
pub proof fn law_trees_of_one_shape_are_twins(one: SyntaxView, other: SyntaxView)
    requires
        one.shape() == other.shape(),
    ensures
        are_twins(one.nodes(), other.nodes()),
{
    let a = one.nodes();
    let b = other.nodes();
    lemma_looks_alike(one, other, None);
    assert forall|i: int| 0 <= i < a.len() implies all_alike(
        a,
        b,
        (#[trigger] a[i]).children,
        b[i].children,
    ) by {
        assert forall|j: int| 0 <= j < a[i].children.len() implies alike(
            #[trigger] a[i].children[j],
            b[i].children[j],
        ) && paired(a, b, a[i].children[j].id, b[i].children[j].id) by {
            lemma_children_paired(one, other, None, i, j);
        }
    }
}

/// Edits that do the same to two lists of nodes that lie alike print the same.
proof fn lemma_spliced_alike(
    ones: Seq<FamilyView>,
    others: Seq<FamilyView>,
    text: Seq<u8>,
    one: EditsView,
    other: EditsView,
    start: int,
)
    requires
        ones.len() == others.len(),
        forall|i: int|
            0 <= i < ones.len() ==> alike((#[trigger] ones[i]).node, others[i].node)
                && one.insertion(ones[i].node.id) == other.insertion(others[i].node.id),
    ensures
        spliced(ones, text, one, start) == spliced(others, text, other, start),
    decreases ones.len(),
{
    if ones.len() > 0 {
        let x = ones.drop_first();
        let y = others.drop_first();
        assert forall|i: int| 0 <= i < x.len() implies alike((#[trigger] x[i]).node, y[i].node)
            && one.insertion(x[i].node.id) == other.insertion(y[i].node.id) by {
            assert(x[i] == ones[i + 1] && y[i] == others[i + 1]);
        }
        assert(alike(ones[0].node, others[0].node));
        lemma_spliced_alike(x, y, text, one, other, start);
        lemma_spliced_alike(x, y, text, one, other, ones[0].node.end as int);
    }
}

proof fn lemma_only_omitted(ids: Seq<NodeId>, id: NodeId)
    ensures
        EditsView::none().omit_all(ids).insertion(id) == (if ids.contains(id) {
            Some(Seq::<u8>::empty())
        } else {
            None
        }),
    decreases ids.len(),
{
    if ids.len() > 0 {
        let start = ids.drop_last();
        lemma_only_omitted(start, id);
        if start.contains(id) {
            let k = choose|k: int| 0 <= k < start.len() && start[k] == id;
            assert(ids[k] == id);
        }
        if ids.contains(id) {
            let k = choose|k: int| 0 <= k < ids.len() && ids[k] == id;
            if k < start.len() {
                assert(start[k] == id);
            }
        }
        assert(ids[ids.len() - 1] == ids.last());
    }
}

/// An identifier is that of the node at a place of one tree exactly if its partner
/// is that of the node at the place of the other.
proof fn lemma_partner(
    ones: Seq<FamilyView>,
    others: Seq<FamilyView>,
    one: NodeId,
    other: NodeId,
    k: int,
)
    requires
        ones.len() == others.len(),
        distinct_ids(ones),
        distinct_ids(others),
        paired(ones, others, one, other),
        0 <= k < ones.len(),
    ensures
        ones[k].node.id == one <==> others[k].node.id == other,
        ones[k].node.id.id == one.id <==> others[k].node.id.id == other.id,
{
    let i = choose|i: int|
        0 <= i < ones.len() && (#[trigger] ones[i]).node.id == one && others[i].node.id == other;
    if i < k {
        assert(ones[i].node.id != ones[k].node.id && others[i].node.id != others[k].node.id);
    } else if k < i {
        assert(ones[k].node.id != ones[i].node.id && others[k].node.id != others[i].node.id);
    }
}

/// Tasks that do the same to two trees are stale together, and make the same text
/// out of the same text.
pub proof fn lemma_same_task_prints_the_same(
    ones: Seq<FamilyView>,
    others: Seq<FamilyView>,
    text: Seq<u8>,
    one: TaskView,
    other: TaskView,
)
    requires
        are_twins(ones, others),
        distinct_ids(ones),
        distinct_ids(others),
        same_task(ones, others, one, other),
    ensures
        task_edit(EditsView::none(), one) is Some <==> task_edit(EditsView::none(), other) is Some,
        task_edit(EditsView::none(), one) is Some ==> spliced(
            ones,
            text,
            task_edit(EditsView::none(), one)->0,
            0,
        ) == spliced(others, text, task_edit(EditsView::none(), other)->0, 0),
{
    let none = EditsView::none();
    if let TaskView::Reduce(ReductionView::DeleteAll(a)) = one {
        if a.len() > 0 {
            assert(!none.should_omit(a[0]));
            assert(!none.should_omit(other->Reduce_0->DeleteAll_0[0]));
        }
    }
    if task_edit(none, one) is Some {
        let x = task_edit(none, one)->0;
        let y = task_edit(none, other)->0;
        assert forall|k: int| 0 <= k < ones.len() implies alike(
            (#[trigger] ones[k]).node,
            others[k].node,
        ) && x.insertion(ones[k].node.id) == y.insertion(others[k].node.id) by {
            match one {
                TaskView::Explore(_) => {},
                TaskView::Reduce(ReductionView::Delete(a)) => {
                    lemma_partner(ones, others, a, other->Reduce_0->Delete_0, k);
                },
                TaskView::Reduce(ReductionView::Replace { node_id: a, .. }) => {
                    lemma_partner(ones, others, a, other->Reduce_0->Replace_node_id, k);
                },
                TaskView::Reduce(ReductionView::DeleteAll(a)) => {
                    let b = other->Reduce_0->DeleteAll_0;
                    lemma_only_omitted(a, ones[k].node.id);
                    lemma_only_omitted(b, others[k].node.id);
                    if a.contains(ones[k].node.id) {
                        let j = choose|j: int| 0 <= j < a.len() && a[j] == ones[k].node.id;
                        lemma_partner(ones, others, a[j], b[j], k);
                        assert(b[j] == others[k].node.id);
                    }
                    if b.contains(others[k].node.id) {
                        let j = choose|j: int| 0 <= j < b.len() && b[j] == others[k].node.id;
                        assert(paired(ones, others, a[j], b[j]));
                        lemma_partner(ones, others, a[j], b[j], k);
                        assert(a[j] == ones[k].node.id);
                    }
                },
            }
        }
        lemma_spliced_alike(ones, others, text, x, y, 0);
    }
}

/// Nodes that are alike one by one offer the same tasks to explore them.
pub proof fn lemma_same_child_tasks(
    ones: Seq<FamilyView>,
    others: Seq<FamilyView>,
    a: Seq<NodeView>,
    b: Seq<NodeView>,
    min: usize,
)
    requires
        all_alike(ones, others, a, b),
    ensures
        same_tasks(ones, others, child_tasks(a, min), child_tasks(b, min)),
    decreases a.len(),
{
    if a.len() > 0 {
        let x = a.drop_last();
        let y = b.drop_last();
        assert forall|j: int| 0 <= j < x.len() implies alike(#[trigger] x[j], y[j]) && paired(
            ones,
            others,
            x[j].id,
            y[j].id,
        ) by {
            assert(x[j] == a[j] && y[j] == b[j]);
        }
        lemma_same_child_tasks(ones, others, x, y, min);
        let n = a.len() - 1;
        assert(alike(a[n], b[n]) && paired(ones, others, a[n].id, b[n].id));
    }
}

proof fn lemma_of_kind_alike(
    ones: Seq<FamilyView>,
    others: Seq<FamilyView>,
    a: Seq<NodeView>,
    b: Seq<NodeView>,
    kind: Seq<char>,
)
    requires
        all_alike(ones, others, a, b),
    ensures
        all_alike(ones, others, of_kind(a, kind), of_kind(b, kind)),
    decreases a.len(),
{
    reveal(Seq::filter);
    if a.len() > 0 {
        let x = a.drop_last();
        let y = b.drop_last();
        assert forall|j: int| 0 <= j < x.len() implies alike(#[trigger] x[j], y[j]) && paired(
            ones,
            others,
            x[j].id,
            y[j].id,
        ) by {
            assert(x[j] == a[j] && y[j] == b[j]);
        }
        lemma_of_kind_alike(ones, others, x, y, kind);
        let n = a.len() - 1;
        assert(alike(a[n], b[n]) && paired(ones, others, a[n].id, b[n].id));
    }
}

proof fn lemma_of_kinds_alike(
    ones: Seq<FamilyView>,
    others: Seq<FamilyView>,
    a: Seq<NodeView>,
    b: Seq<NodeView>,
    kinds: Seq<Seq<char>>,
)
    requires
        all_alike(ones, others, a, b),
    ensures
        all_alike(ones, others, of_kinds(a, kinds), of_kinds(b, kinds)),
    decreases kinds.len(),
{
    if kinds.len() > 0 {
        lemma_of_kinds_alike(ones, others, a, b, kinds.drop_last());
        lemma_of_kind_alike(ones, others, a, b, kinds.last());
        let x = of_kinds(a, kinds.drop_last());
        let y = of_kinds(b, kinds.drop_last());
        let more_x = of_kind(a, kinds.last());
        let more_y = of_kind(b, kinds.last());
        assert forall|j: int| 0 <= j < (x + more_x).len() implies alike(
            #[trigger] (x + more_x)[j],
            (y + more_y)[j],
        ) && paired(ones, others, (x + more_x)[j].id, (y + more_y)[j].id) by {
            if j < x.len() {
                assert(alike(x[j], y[j]));
            } else {
                assert(alike(more_x[j - x.len()], more_y[j - x.len()]));
            }
        }
    }
}

proof fn lemma_total_size_alike(
    ones: Seq<FamilyView>,
    others: Seq<FamilyView>,
    a: Seq<NodeView>,
    b: Seq<NodeView>,
)
    requires
        all_alike(ones, others, a, b),
    ensures
        total_size(a) == total_size(b),
    decreases a.len(),
{
    if a.len() > 0 {
        let x = a.drop_last();
        let y = b.drop_last();
        assert forall|j: int| 0 <= j < x.len() implies alike(#[trigger] x[j], y[j]) && paired(
            ones,
            others,
            x[j].id,
            y[j].id,
        ) by {
            assert(x[j] == a[j] && y[j] == b[j]);
        }
        lemma_total_size_alike(ones, others, x, y);
        assert(alike(a[a.len() - 1], b[a.len() - 1]));
    }
}

/// Nodes whose children are alike offer the same tasks to delete children together.
pub proof fn lemma_same_batch_tasks(
    ones: Seq<FamilyView>,
    others: Seq<FamilyView>,
    types: NodeTypesView,
    a: Seq<NodeView>,
    b: Seq<NodeView>,
    kinds: Seq<Seq<char>>,
)
    requires
        all_alike(ones, others, a, b),
    ensures
        same_tasks(ones, others, batch_tasks(types, a, kinds), batch_tasks(types, b, kinds)),
{
    let x = batch_tasks(types, a, kinds);
    let y = batch_tasks(types, b, kinds);
    assert forall|j: int| 0 <= j < x.len() implies same_task(
        ones,
        others,
        (#[trigger] x[j]).0,
        y[j].0,
    ) && x[j].1 == y[j].1 by {
        let picked = types.subtypes_of(kinds[j]);
        let c = of_kinds(a, picked);
        let d = of_kinds(b, picked);
        lemma_of_kinds_alike(ones, others, a, b, picked);
        lemma_total_size_alike(ones, others, c, d);
        assert(x[j] == batch_task(c) && y[j] == batch_task(d));
        assert forall|i: int| 0 <= i < ids(c).len() implies paired(
            ones,
            others,
            #[trigger] ids(c)[i],
            ids(d)[i],
        ) by {
            assert(alike(c[i], d[i]) && paired(ones, others, c[i].id, d[i].id));
        }
    }
}

/// Nodes that are alike offer the same replacements.
pub proof fn lemma_same_replace_tasks(
    ones: Seq<FamilyView>,
    others: Seq<FamilyView>,
    a: NodeView,
    b: NodeView,
    with: Seq<Seq<char>>,
)
    requires
        alike(a, b),
        paired(ones, others, a.id, b.id),
    ensures
        same_tasks(ones, others, replace_tasks(a, with), replace_tasks(b, with)),
{
}

} // verus!
