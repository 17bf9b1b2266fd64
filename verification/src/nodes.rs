//! Finding the nodes of a tree by their identifiers.
use std::collections::HashMap;

use vstd::prelude::*;

use crate::id::NodeId;
use crate::syntax::{
    distinct_ids, families, family_views, lemma_children_are_nodes, tree_view, Family, FamilyView,
    SyntaxView,
};

verus! {

/// Nodes by the numbers of their identifiers.
#[derive(Debug)]
pub struct NodeTable {
    by_id: HashMap<usize, Family>,
}

impl View for NodeTable {
    type V = Map<usize, FamilyView>;

    closed spec fn view(&self) -> Map<usize, FamilyView> {
        self.by_id@.map_values(|f: Family| f@)
    }
}

/// Whether a table holds the given nodes and no others, each under its own number.
pub open spec fn tabulates(table: Map<usize, FamilyView>, nodes: Seq<FamilyView>) -> bool {
    &&& forall|i: int|
        0 <= i < nodes.len() ==> table.contains_key((#[trigger] nodes[i]).node.id.id)
            && table[nodes[i].node.id.id] == nodes[i]
    &&& forall|number: usize| #[trigger]
        table.contains_key(number) ==> exists|i: int|
            0 <= i < nodes.len() && (#[trigger] nodes[i]).node.id.id == number
}

/// Whether every node in a table has a size that can be worked with and stands
/// under its own number, and the children of every node are in the table.
pub open spec fn is_tree_table(table: Map<usize, FamilyView>) -> bool {
    forall|number: usize| #[trigger]
        table.contains_key(number) ==> {
            &&& table[number].node.id.id == number
            &&& table[number].well_sized()
            &&& forall|j: int|
                0 <= j < table[number].children.len() ==> table.contains_key(
                    (#[trigger] table[number].children[j]).id.id,
                )
        }
}

impl NodeTable {
    /// A table without nodes.
    pub fn new() -> (r: Self)
        ensures
            r@ == Map::<usize, FamilyView>::empty(),
    {
        let r = NodeTable { by_id: HashMap::new() };
        assert(r@ =~= Map::<usize, FamilyView>::empty());
        r
    }

    /// Add a node, in the place of any other that has its number.
    pub fn insert(&mut self, family: Family)
        ensures
            final(self)@ == old(self)@.insert(family.node.id.id, family@),
    {
        broadcast use vstd::std_specs::hash::group_hash_axioms;

        self.by_id.insert(family.node.id.id, family);
        assert(self@ =~= old(self)@.insert(family.node.id.id, family@));
    }

    /// The table of all nodes of a tree.
    pub fn of_tree(tree: &tree_sitter::Tree) -> (r: Self)
        ensures
            tabulates(r@, tree_view(*tree).nodes()),
            distinct_ids(tree_view(*tree).nodes()),
    {
        let all = families(tree);
        let ghost views = family_views(all@);
        let mut table = NodeTable::new();
        assert(views.take(0) =~= Seq::empty());
        for family in iter: all
            invariant
                views == family_views(iter.seq()),
                distinct_ids(views),
                tabulates(table@, views.take(iter.index())),
        {
            let ghost n = iter.index();
            let ghost before = table@;
            let ghost done = views.take(n);
            let ghost more = views.take(n + 1);
            assert(views[n] == family@);
            table.insert(family);
            proof {
                assert(more =~= done.push(views[n]));
                assert forall|i: int| 0 <= i < more.len() implies table@.contains_key(
                    (#[trigger] more[i]).node.id.id,
                ) && table@[more[i].node.id.id] == more[i] by {
                    if i < n {
                        assert(more[i] == done[i]);
                        assert(views[i] == done[i]);
                        assert(views[i].node.id != views[n].node.id);
                    }
                }
                assert forall|number: usize| #[trigger] table@.contains_key(number) implies exists|
                    i: int,
                |
                    0 <= i < more.len() && (#[trigger] more[i]).node.id.id == number by {
                    if number == views[n].node.id.id {
                        assert(more[n].node.id.id == number);
                    } else {
                        assert(before.contains_key(number));
                        let i = choose|i: int|
                            0 <= i < done.len() && (#[trigger] done[i]).node.id.id == number;
                        assert(more[i].node.id.id == number);
                    }
                }
            }
        }
        assert(views.take(views.len() as int) =~= views);
        table
    }

    /// Whether a node is in the table.
    pub fn contains(&self, id: &NodeId) -> (r: bool)
        ensures
            r == self@.contains_key(id.id),
    {
        broadcast use vstd::std_specs::hash::group_hash_axioms;

        self.by_id.contains_key(&id.id)
    }

    /// The node with an identifier.
    pub fn find(&self, id: &NodeId) -> (r: &Family)
        requires
            self@.contains_key(id.id),
        ensures
            r@ == self@[id.id],
    {
        broadcast use vstd::std_specs::hash::group_hash_axioms;

        self.by_id.get(&id.id).unwrap()
    }
}

/// A table of a tree whose nodes have sizes that can be worked with holds such
/// nodes, and with a node its children.
pub proof fn lemma_tabulated_tree(table: Map<usize, FamilyView>, tree: SyntaxView)
    requires
        tabulates(table, tree.nodes()),
        tree.well_sized(),
    ensures
        is_tree_table(table),
{
    let nodes = tree.nodes();
    assert forall|number: usize| #[trigger] table.contains_key(number) implies {
        &&& table[number].node.id.id == number
        &&& table[number].well_sized()
        &&& forall|j: int|
            0 <= j < table[number].children.len() ==> table.contains_key(
                (#[trigger] table[number].children[j]).id.id,
            )
    } by {
        let i = choose|i: int| 0 <= i < nodes.len() && (#[trigger] nodes[i]).node.id.id == number;
        assert(table[number] == nodes[i]);
        assert(nodes[i].well_sized());
        assert forall|j: int| 0 <= j < table[number].children.len() implies table.contains_key(
            (#[trigger] table[number].children[j]).id.id,
        ) by {
            lemma_children_are_nodes(tree, None, i, j);
            let k = choose|k: int|
                0 <= k < nodes.len() && (#[trigger] nodes[k]).node == nodes[i].children[j];
            assert(table.contains_key(nodes[k].node.id.id));
        }
    }
}

} // verus!
