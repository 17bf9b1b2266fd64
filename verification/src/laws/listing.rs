//! Which nodes of a tree are listed, and how.
use vstd::prelude::*;

use crate::edits::EditsView;
use crate::nodes::tabulates;
use crate::original::Original;
use crate::syntax::{
    all_families, distinct_ids, lemma_children_are_nodes, nested, total_size, tree_view, FamilyView,
    NodeView, SyntaxView,
};

verus! {

/// A program has the nodes of its tree, all of them and no others.  Its text can be
/// printed exactly if no edited node lies outside of it.
pub proof fn law_a_program_has_the_nodes_of_its_tree(orig: Original, edits: EditsView)
    ensures
        orig.nodes() == tree_view(orig.tree).nodes(),
        orig.prints(edits) <==> forall|i: int|
            0 <= i < orig.nodes().len() && edits.by_id.contains_key(
                (#[trigger] orig.nodes()[i]).node.id.id,
            ) ==> orig.nodes()[i].node.start <= orig.nodes()[i].node.end <= orig.text@.len(),
{
    if orig.prints(edits) {
        assert forall|i: int|
            0 <= i < orig.nodes().len() && edits.by_id.contains_key(
                (#[trigger] orig.nodes()[i]).node.id.id,
            ) implies orig.nodes()[i].node.start <= orig.nodes()[i].node.end
            <= orig.text@.len() by {
            assert(edits.insertion(orig.nodes()[i].node.id) is Some);
        }
    }
}

/// Whether a node is a child of another, and is listed with the other's kind.
pub open spec fn is_child(nodes: Seq<FamilyView>, parent: int, j: int, child: int) -> bool {
    &&& 0 <= parent < child < nodes.len()
    &&& 0 <= j < nodes[parent].children.len()
    &&& nodes[child].node == nodes[parent].children[j]
    &&& nodes[child].parent_kind == Some(nodes[parent].node.kind)
}

/// The first node that is listed is the root, without a parent, and with its children
/// from left to right.
pub proof fn law_the_root_is_listed_first(tree: SyntaxView)
    ensures
        tree.nodes().len() > 0,
        tree.nodes()[0].node == (NodeView {
            id: tree.id,
            kind: tree.kind,
            start: tree.start,
            end: tree.end,
        }),
        tree.nodes()[0].parent_kind is None,
        tree.nodes()[0].children.len() == tree.children.len(),
        forall|j: int|
            0 <= j < tree.children.len() ==> #[trigger] tree.nodes()[0].children[j] == (NodeView {
                id: tree.children[j].id,
                kind: tree.children[j].kind,
                start: tree.children[j].start,
                end: tree.children[j].end,
            }),
{
}

/// Every child of a node that is listed is listed after it, with its kind as that of
/// the parent.
pub proof fn law_every_child_is_listed(tree: SyntaxView, i: int, j: int)
    requires
        0 <= i < tree.nodes().len(),
        0 <= j < tree.nodes()[i].children.len(),
    ensures
        exists|k: int| is_child(tree.nodes(), i, j, k),
{
    let nodes = tree.nodes();
    lemma_children_are_nodes(tree, None, i, j);
    let k = choose|k: int|
        i < k < nodes.len() && (#[trigger] nodes[k]).node == nodes[i].children[j]
            && nodes[k].parent_kind == Some(nodes[i].node.kind);
    assert(is_child(nodes, i, j, k));
}

/// Every node that is listed, but the first, is a child of one that is listed before.
pub proof fn law_every_node_but_the_root_is_a_child(tree: SyntaxView, k: int)
    requires
        0 < k < tree.nodes().len(),
    ensures
        exists|i: int, j: int| is_child(tree.nodes(), i, j, k),
{
    lemma_has_parent(tree, None, k);
}

proof fn lemma_has_parent(tree: SyntaxView, parent_kind: Option<Seq<char>>, k: int)
    requires
        0 < k < tree.families(parent_kind).len(),
    ensures
        exists|i: int, j: int| is_child(tree.families(parent_kind), i, j, k),
    decreases tree,
{
    let all = tree.families(parent_kind);
    let below = all_families(tree.children, Some(tree.kind));
    let m = k - 1;
    assert(all[k] == below[m]);
    lemma_root_or_child(tree.children, Some(tree.kind), m);
    if exists|i: int, j: int| is_child(below, i, j, m) {
        let (i, j) = choose|i: int, j: int| is_child(below, i, j, m);
        assert(all[i + 1] == below[i]);
        assert(is_child(all, i + 1, j, k));
    } else {
        let j = choose|j: int|
            0 <= j < tree.children.len() && below[m].node == (
            #[trigger] tree.children[j]).node();
        assert(all[0].children[j] == tree.children[j].node());
        assert(is_child(all, 0, j, k));
    }
}

proof fn lemma_root_or_child(trees: Seq<SyntaxView>, parent_kind: Option<Seq<char>>, k: int)
    requires
        0 <= k < all_families(trees, parent_kind).len(),
    ensures
        (exists|i: int, j: int| is_child(all_families(trees, parent_kind), i, j, k)) || {
            &&& all_families(trees, parent_kind)[k].parent_kind == parent_kind
            &&& exists|j: int|
                0 <= j < trees.len() && all_families(trees, parent_kind)[k].node == (
                #[trigger] trees[j]).node()
        },
    decreases trees,
{
    let all = all_families(trees, parent_kind);
    let first = trees[0].families(parent_kind);
    let others = trees.drop_first();
    let rest = all_families(others, parent_kind);
    let n = first.len();
    if k == 0 {
        assert(all[0] == first[0]);
        assert(all[0].node == trees[0].node());
    } else if k < n {
        assert(all[k] == first[k]);
        lemma_has_parent(trees[0], parent_kind, k);
        let (i, j) = choose|i: int, j: int| is_child(first, i, j, k);
        assert(all[i] == first[i]);
        assert(is_child(all, i, j, k));
    } else {
        let m = k - n;
        assert(all[k] == rest[m]);
        lemma_root_or_child(others, parent_kind, m);
        if exists|i: int, j: int| is_child(rest, i, j, m) {
            let (i, j) = choose|i: int, j: int| is_child(rest, i, j, m);
            assert(all[i + n] == rest[i]);
            assert(is_child(all, i + n, j, k));
        } else {
            let j = choose|j: int|
                0 <= j < others.len() && rest[m].node == (#[trigger] others[j]).node();
            assert(trees[j + 1] == others[j]);
        }
    }
}

/// A table of nodes has every node under its number, and nothing else.
pub proof fn law_every_node_is_found(
    table: Map<usize, FamilyView>,
    nodes: Seq<FamilyView>,
    i: int,
    number: usize,
)
    requires
        tabulates(table, nodes),
        distinct_ids(nodes),
        0 <= i < nodes.len(),
    ensures
        table.contains_key(nodes[i].node.id.id),
        table[nodes[i].node.id.id] == nodes[i],
        table.contains_key(number) ==> exists|k: int|
            0 <= k < nodes.len() && (#[trigger] nodes[k]).node.id.id == number && table[number]
                == nodes[k],
{
    if table.contains_key(number) {
        let k = choose|k: int| 0 <= k < nodes.len() && (#[trigger] nodes[k]).node.id.id == number;
        assert(table[nodes[k].node.id.id] == nodes[k]);
    }
}

/// A tree can be worked with if its nodes lie inside of the text, each with its
/// children one after another.
pub proof fn law_trees_of_a_text_can_be_worked_with(orig: Original)
    requires
        forall|i: int| #![trigger orig.nodes()[i]]
            0 <= i < orig.nodes().len() ==> {
                let family = orig.nodes()[i];
                &&& family.node.start <= family.node.end <= orig.text@.len()
                &&& forall|j: int|
                    0 <= j < family.children.len() ==> (#[trigger] family.children[j]).start
                        <= family.children[j].end <= orig.text@.len()
                &&& forall|j: int, k: int|
                    0 <= j < k < family.children.len() ==> (#[trigger] family.children[j]).end <= (
                    #[trigger] family.children[k]).start
            },
    ensures
        orig.well_sized(),
{
    assert(orig.text.len() == orig.text@.len());
    assert forall|i: int| 0 <= i < orig.nodes().len() implies (
    #[trigger] orig.nodes()[i]).well_sized() by {
        let children = orig.nodes()[i].children;
        lemma_one_after_another(children, orig.text@.len() as int);
    }
}

proof fn lemma_one_after_another(nodes: Seq<NodeView>, end: int)
    requires
        0 <= end,
        forall|j: int|
            0 <= j < nodes.len() ==> (#[trigger] nodes[j]).start <= nodes[j].end <= end,
        forall|j: int, k: int|
            0 <= j < k < nodes.len() ==> (#[trigger] nodes[j]).end <= (#[trigger] nodes[k]).start,
    ensures
        total_size(nodes) <= end,
    decreases nodes.len(),
{
    if nodes.len() > 0 {
        let start = nodes.drop_last();
        let last = nodes[nodes.len() - 1];
        assert forall|j: int| 0 <= j < start.len() implies (#[trigger] start[j]).start
            <= start[j].end <= last.start by {
            assert(start[j] == nodes[j]);
        }
        assert forall|j: int, k: int| 0 <= j < k < start.len() implies (#[trigger] start[j]).end <= (
        #[trigger] start[k]).start by {
            assert(start[j] == nodes[j] && start[k] == nodes[k]);
        }
        lemma_one_after_another(start, last.start as int);
    }
}

/// Whether every node of a tree ends no earlier than it starts, and has its children
/// inside of it, one after another.
pub open spec fn lies_well(tree: SyntaxView) -> bool
    decreases tree,
{
    &&& tree.start <= tree.end
    &&& forall|j: int|
        0 <= j < tree.children.len() ==> {
            &&& tree.start <= (#[trigger] tree.children[j]).start
            &&& tree.children[j].end <= tree.end
            &&& lies_well(tree.children[j])
        }
    &&& forall|j: int, k: int|
        0 <= j < k < tree.children.len() ==> (#[trigger] tree.children[j]).end <= (
        #[trigger] tree.children[k]).start
}

/// The nodes of such a tree are nested.
pub proof fn law_nodes_of_a_tree_are_nested(tree: SyntaxView)
    requires
        lies_well(tree),
    ensures
        nested(tree.nodes()),
{
    lemma_nested(tree, None);
}

spec fn all_inside(nodes: Seq<FamilyView>, start: int, end: int) -> bool {
    forall|i: int|
        0 <= i < nodes.len() ==> start <= (#[trigger] nodes[i]).node.start && nodes[i].node.start
            <= nodes[i].node.end && nodes[i].node.end <= end
}

proof fn lemma_nested(tree: SyntaxView, parent_kind: Option<Seq<char>>)
    requires
        lies_well(tree),
    ensures
        nested(tree.families(parent_kind)),
        all_inside(tree.families(parent_kind), tree.start as int, tree.end as int),
    decreases tree,
{
    let all = tree.families(parent_kind);
    let below = all_families(tree.children, Some(tree.kind));
    lemma_all_nested(tree.children, Some(tree.kind), tree.start as int, tree.end as int);
    assert forall|i: int| 0 <= i < all.len() implies tree.start <= (#[trigger] all[i]).node.start
        && all[i].node.start <= all[i].node.end && all[i].node.end <= tree.end by {
        if i > 0 {
            assert(all[i] == below[i - 1]);
        }
    }
    assert forall|i: int, j: int| 0 <= i < j < all.len() implies {
        ||| (#[trigger] all[i]).node.end <= (#[trigger] all[j]).node.start
        ||| all[i].node.start <= all[j].node.start && all[j].node.end <= all[i].node.end
    } by {
        assert(all[j] == below[j - 1]);
        if i > 0 {
            assert(all[i] == below[i - 1]);
        }
    }
}

proof fn lemma_all_nested(
    trees: Seq<SyntaxView>,
    parent_kind: Option<Seq<char>>,
    start: int,
    end: int,
)
    requires
        forall|j: int|
            0 <= j < trees.len() ==> {
                &&& start <= (#[trigger] trees[j]).start
                &&& trees[j].end <= end
                &&& lies_well(trees[j])
            },
        forall|j: int, k: int|
            0 <= j < k < trees.len() ==> (#[trigger] trees[j]).end <= (#[trigger] trees[k]).start,
    ensures
        nested(all_families(trees, parent_kind)),
        all_inside(all_families(trees, parent_kind), start, end),
    decreases trees,
{
    if trees.len() > 0 {
        let all = all_families(trees, parent_kind);
        let first = trees[0].families(parent_kind);
        let others = trees.drop_first();
        let rest = all_families(others, parent_kind);
        let n = first.len();
        let middle = trees[0].end as int;
        lemma_nested(trees[0], parent_kind);
        assert forall|j: int| 0 <= j < others.len() implies {
            &&& middle <= (#[trigger] others[j]).start
            &&& others[j].end <= end
            &&& lies_well(others[j])
        } by {
            assert(others[j] == trees[j + 1]);
        }
        assert forall|j: int, k: int| 0 <= j < k < others.len() implies (
        #[trigger] others[j]).end <= (#[trigger] others[k]).start by {
            assert(others[j] == trees[j + 1] && others[k] == trees[k + 1]);
        }
        lemma_all_nested(others, parent_kind, middle, end);
        assert forall|i: int| 0 <= i < all.len() implies start <= (#[trigger] all[i]).node.start
            && all[i].node.start <= all[i].node.end && all[i].node.end <= end by {
            if i < n {
                assert(all[i] == first[i]);
            } else {
                assert(all[i] == rest[i - n]);
            }
        }
        assert forall|i: int, j: int| 0 <= i < j < all.len() implies {
            ||| (#[trigger] all[i]).node.end <= (#[trigger] all[j]).node.start
            ||| all[i].node.start <= all[j].node.start && all[j].node.end <= all[i].node.end
        } by {
            if j < n {
                assert(all[i] == first[i] && all[j] == first[j]);
            } else {
                assert(all[j] == rest[j - n]);
                if i < n {
                    assert(all[i] == first[i]);
                } else {
                    assert(all[i] == rest[i - n]);
                }
            }
        }
    }
}

/// Of two nodes that are nested, the later lies inside of the earlier, or behind it.
pub proof fn law_nested_nodes_do_not_overlap(nodes: Seq<FamilyView>, i: int, j: int)
    requires
        nested(nodes),
        0 <= i < j < nodes.len(),
    ensures
        nodes[i].node.end <= nodes[j].node.start || (nodes[i].node.start <= nodes[j].node.start
            && nodes[j].node.end <= nodes[i].node.end),
{
}

/// A tree cannot be worked with if a node ends before it starts.
pub proof fn law_nodes_do_not_end_before_they_start(orig: Original, i: int)
    requires
        orig.well_sized(),
        0 <= i < orig.nodes().len(),
    ensures
        orig.nodes()[i].node.start <= orig.nodes()[i].node.end,
        forall|j: int|
            0 <= j < orig.nodes()[i].children.len() ==> (
            #[trigger] orig.nodes()[i].children[j]).start <= orig.nodes()[i].children[j].end,
{
    assert(orig.nodes()[i].well_sized());
}

} // verus!
