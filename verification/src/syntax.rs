//! Syntax trees: their mathematical value, and how it is read off a tree that
//! tree-sitter has parsed.
use vstd::prelude::*;

use crate::id::NodeId;

verus! {

/// The mathematical value of a node with all that lies below it.
pub struct SyntaxView {
    pub id: NodeId,
    pub kind: Seq<char>,
    pub start: usize,
    pub end: usize,
    pub children: Seq<SyntaxView>,
}

/// A node: what it is called, and which bytes of the text it covers.
#[derive(Clone, Copy, Debug)]
pub struct SyntaxNode {
    pub id: NodeId,
    pub kind: &'static str,
    pub start_byte: usize,
    pub end_byte: usize,
}

/// The mathematical value of a [`SyntaxNode`].
pub struct NodeView {
    pub id: NodeId,
    pub kind: Seq<char>,
    pub start: usize,
    pub end: usize,
}

impl View for SyntaxNode {
    type V = NodeView;

    open spec fn view(&self) -> NodeView {
        NodeView { id: self.id, kind: self.kind@, start: self.start_byte, end: self.end_byte }
    }
}

impl NodeView {
    /// How many bytes the node covers.
    pub open spec fn size(self) -> int {
        self.end - self.start
    }
}

/// A node, the kind of its parent, and its children.
#[derive(Debug)]
pub struct Family {
    pub node: SyntaxNode,
    pub parent_kind: Option<&'static str>,
    pub children: Vec<SyntaxNode>,
}

/// The mathematical value of a [`Family`].
#[verifier::ext_equal]
pub struct FamilyView {
    pub node: NodeView,
    pub parent_kind: Option<Seq<char>>,
    pub children: Seq<NodeView>,
}

/// The values of nodes.
pub open spec fn node_views(nodes: Seq<SyntaxNode>) -> Seq<NodeView> {
    nodes.map_values(|n: SyntaxNode| n@)
}

impl View for Family {
    type V = FamilyView;

    open spec fn view(&self) -> FamilyView {
        FamilyView {
            node: self.node@,
            parent_kind: match self.parent_kind {
                Some(kind) => Some(kind@),
                None => None,
            },
            children: node_views(self.children@),
        }
    }
}

/// How many bytes the nodes cover in all.
pub open spec fn total_size(nodes: Seq<NodeView>) -> int
    decreases nodes.len(),
{
    if nodes.len() == 0 {
        0
    } else {
        total_size(nodes.drop_last()) + nodes.last().size()
    }
}

impl FamilyView {
    /// Whether the node and its children end no earlier than they start, and the
    /// sizes of the children can be added up.
    pub open spec fn well_sized(self) -> bool {
        &&& self.node.start <= self.node.end
        &&& forall|i: int|
            0 <= i < self.children.len() ==> (#[trigger] self.children[i]).start
                <= self.children[i].end
        &&& total_size(self.children) <= usize::MAX
    }
}

impl SyntaxView {
    /// The node by itself.
    pub open spec fn node(self) -> NodeView {
        NodeView { id: self.id, kind: self.kind, start: self.start, end: self.end }
    }

    /// The node with its parent's kind and its children.
    pub open spec fn family(self, parent_kind: Option<Seq<char>>) -> FamilyView {
        FamilyView {
            node: self.node(),
            parent_kind,
            children: self.children.map_values(|c: SyntaxView| c.node()),
        }
    }

    /// The node and all nodes below it, a parent before its children and the
    /// children from left to right.
    pub open spec fn families(self, parent_kind: Option<Seq<char>>) -> Seq<FamilyView>
        decreases self,
    {
        seq![self.family(parent_kind)] + all_families(self.children, Some(self.kind))
    }

    /// Every node of the tree.
    pub open spec fn nodes(self) -> Seq<FamilyView> {
        self.families(None)
    }

    /// Whether all nodes of the tree have sizes that can be worked with.
    pub open spec fn well_sized(self) -> bool {
        forall|i: int| 0 <= i < self.nodes().len() ==> (#[trigger] self.nodes()[i]).well_sized()
    }
}

/// The nodes of several trees, one tree after the other.
pub open spec fn all_families(trees: Seq<SyntaxView>, parent_kind: Option<Seq<char>>) -> Seq<
    FamilyView,
>
    decreases trees,
{
    if trees.len() == 0 {
        Seq::empty()
    } else {
        trees[0].families(parent_kind) + all_families(trees.drop_first(), parent_kind)
    }
}

/// Whether no two nodes have the same identifier.
pub open spec fn distinct_ids(nodes: Seq<FamilyView>) -> bool {
    forall|i: int, j: int|
        0 <= i < j < nodes.len() ==> (#[trigger] nodes[i]).node.id != (
        #[trigger] nodes[j]).node.id
}

/// Whether of any two nodes the later lies inside of the earlier or begins after
/// its end, as the nodes of a tree do that are listed parents first.
pub open spec fn nested(nodes: Seq<FamilyView>) -> bool {
    forall|i: int, j: int|
        0 <= i < j < nodes.len() ==> {
            ||| (#[trigger] nodes[i]).node.end <= (#[trigger] nodes[j]).node.start
            ||| nodes[i].node.start <= nodes[j].node.start && nodes[j].node.end
                <= nodes[i].node.end
        }
}

/// A tree of tree-sitter.
#[verifier::external_type_specification]
#[verifier::external_body]
pub struct ExTree(tree_sitter::Tree);

/// A node of a tree of tree-sitter.
#[verifier::external_type_specification]
#[verifier::external_body]
pub struct ExNode<'tree>(tree_sitter::Node<'tree>);

/// What a tree of tree-sitter holds.
pub uninterp spec fn tree_view(tree: tree_sitter::Tree) -> SyntaxView;

/// What a node of tree-sitter holds, with all that lies below it.
pub uninterp spec fn node_view(node: tree_sitter::Node) -> SyntaxView;

/// `tree_sitter::Tree::root_node` gives the node that holds the whole tree.
/// Within a tree no two nodes have the same `tree_sitter::Node::id`.
#[verifier::external_body]
fn root_node<'tree>(tree: &'tree tree_sitter::Tree) -> (r: tree_sitter::Node<'tree>)
    ensures
        node_view(r) == tree_view(*tree),
        distinct_ids(node_view(r).nodes()),
{
    tree.root_node()
}

/// `tree_sitter::Node::children` walks over the children of a node, from left to
/// right.
#[verifier::external_body]
fn children<'tree>(node: &tree_sitter::Node<'tree>) -> (r: Vec<tree_sitter::Node<'tree>>)
    ensures
        r.len() == node_view(*node).children.len(),
        forall|i: int|
            0 <= i < r.len() ==> node_view(#[trigger] r[i]) == node_view(*node).children[i],
{
    node.children(&mut node.walk()).collect()
}

/// `tree_sitter::Node::id` gives the node's identifier.
#[verifier::external_body]
fn node_id(node: &tree_sitter::Node) -> (r: usize)
    ensures
        r == node_view(*node).id.id,
{
    node.id()
}

/// `tree_sitter::Node::kind` gives the name that the grammar has for the node.
/// The names in a grammar are UTF-8, as `kind` expects.
#[verifier::external_body]
fn node_kind(node: &tree_sitter::Node) -> (r: &'static str)
    ensures
        r@ == node_view(*node).kind,
{
    node.kind()
}

/// `tree_sitter::Node::start_byte` gives the offset at which the node starts.
#[verifier::external_body]
fn start_byte(node: &tree_sitter::Node) -> (r: usize)
    ensures
        r == node_view(*node).start,
{
    node.start_byte()
}

/// `tree_sitter::Node::end_byte` gives the offset at which the node ends.
#[verifier::external_body]
fn end_byte(node: &tree_sitter::Node) -> (r: usize)
    ensures
        r == node_view(*node).end,
{
    node.end_byte()
}

impl NodeId {
    /// The identifier of a node.
    pub fn new(node: &tree_sitter::Node) -> (r: Self)
        ensures
            r == node_view(*node).id,
    {
        NodeId { id: node_id(node) }
    }
}

impl SyntaxNode {
    /// What there is to know of a node.
    pub fn new(node: &tree_sitter::Node) -> (r: Self)
        ensures
            r@ == node_view(*node).node(),
    {
        SyntaxNode {
            id: NodeId::new(node),
            kind: node_kind(node),
            start_byte: start_byte(node),
            end_byte: end_byte(node),
        }
    }
}

/// The node that holds the whole of a tree.
pub fn root(tree: &tree_sitter::Tree) -> (r: SyntaxNode)
    ensures
        r@ == tree_view(*tree).node(),
{
    SyntaxNode::new(&root_node(tree))
}

/// How many bytes a node covers.
pub fn node_size(node: &SyntaxNode) -> (r: usize)
    requires
        node.start_byte <= node.end_byte,
    ensures
        r == node@.size(),
{
    node.end_byte - node.start_byte
}

/// The nodes of the trees on a stack, from the top of the stack down.
spec fn pending(stack: Seq<(tree_sitter::Node, Option<&'static str>)>) -> Seq<FamilyView>
    decreases stack.len(),
{
    if stack.len() == 0 {
        Seq::empty()
    } else {
        node_view(stack.last().0).families(kind_view(stack.last().1)) + pending(stack.drop_last())
    }
}

/// The value of the kind of a parent.
pub open spec fn kind_view(kind: Option<&'static str>) -> Option<Seq<char>> {
    match kind {
        Some(kind) => Some(kind@),
        None => None,
    }
}

/// The values of families.
pub open spec fn family_views(families: Seq<Family>) -> Seq<FamilyView> {
    families.map_values(|f: Family| f@)
}

/// All nodes of a tree, a parent before its children and the children from left
/// to right.
pub fn families(tree: &tree_sitter::Tree) -> (r: Vec<Family>)
    ensures
        family_views(r@) == tree_view(*tree).nodes(),
        distinct_ids(tree_view(*tree).nodes()),
{
    let mut found: Vec<Family> = Vec::new();
    let mut stack: Vec<(tree_sitter::Node, Option<&'static str>)> = Vec::new();
    let root = root_node(tree);
    stack.push((root, None));
    let ghost all = tree_view(*tree).nodes();
    proof {
        assert(pending(stack@.drop_last()) =~= Seq::empty());
        assert(pending(stack@) =~= all);
        assert(family_views(found@) + pending(stack@) =~= all);
    }
    loop
        invariant
            family_views(found@) + pending(stack@) == all,
        ensures
            family_views(found@) == all,
        decreases pending(stack@).len(),
    {
        let ghost before = stack@;
        let (node, parent_kind) = match stack.pop() {
            Some(top) => top,
            None => {
                proof {
                    assert(family_views(found@) + pending(stack@) =~= family_views(found@));
                }
                break;
            },
        };
        let ghost view = node_view(node);
        let ghost below = stack@;
        assert(before.drop_last() =~= below);
        let kids = children(&node);
        let kind = node_kind(&node);
        let members = family(&node, parent_kind, &kids);
        let ghost kid_views = view.children;
        let mut i: usize = kids.len();
        assert(kid_views.skip(kid_views.len() as int) =~= Seq::empty());
        assert(all_families(kid_views.skip(i as int), Some(kind@)) + pending(below)
            =~= pending(below));
        while i > 0
            invariant
                i <= kids.len(),
                kids.len() == kid_views.len(),
                forall|k: int| 0 <= k < kids.len() ==> node_view(#[trigger] kids[k]) == kid_views[k],
                pending(stack@) == all_families(kid_views.skip(i as int), Some(kind@)) + pending(
                    below,
                ),
            decreases i,
        {
            i = i - 1;
            let ghost held = stack@;
            stack.push((kids[i], Some(kind)));
            proof {
                let rest = kid_views.skip(i as int);
                assert(stack@.drop_last() =~= held);
                assert(rest[0] == kid_views[i as int]);
                assert(rest.drop_first() =~= kid_views.skip(i + 1));
                assert(pending(stack@) =~= all_families(rest, Some(kind@)) + pending(below));
            }
        }
        let ghost listed = family_views(found@);
        found.push(members);
        proof {
            assert(kid_views.skip(0) =~= kid_views);
            assert(family_views(found@) =~= listed.push(members@));
            assert(family_views(found@) + pending(stack@) =~= listed + pending(before));
        }
    }
    found
}

/// A node with the kind of its parent and its children.
fn family(
    node: &tree_sitter::Node,
    parent_kind: Option<&'static str>,
    kids: &Vec<tree_sitter::Node>,
) -> (r: Family)
    requires
        kids.len() == node_view(*node).children.len(),
        forall|i: int|
            0 <= i < kids.len() ==> node_view(#[trigger] kids[i]) == node_view(*node).children[i],
    ensures
        r@ == node_view(*node).family(kind_view(parent_kind)),
{
    let mut listed: Vec<SyntaxNode> = Vec::new();
    for i in 0..kids.len()
        invariant
            kids.len() == node_view(*node).children.len(),
            forall|k: int|
                0 <= k < kids.len() ==> node_view(#[trigger] kids[k]) == node_view(*node).children[k],
            listed.len() == i,
            forall|k: int|
                0 <= k < i ==> (#[trigger] listed[k])@ == node_view(*node).children[k].node(),
    {
        listed.push(SyntaxNode::new(&kids[i]));
    }
    let r = Family { node: SyntaxNode::new(node), parent_kind, children: listed };
    assert(r@ =~= node_view(*node).family(kind_view(parent_kind)));
    r
}

/// Every child of a node of the tree is a node of the tree, listed after it.
pub proof fn lemma_children_are_nodes(tree: SyntaxView, parent_kind: Option<Seq<char>>, i: int, j: int)
    requires
        0 <= i < tree.families(parent_kind).len(),
        0 <= j < tree.families(parent_kind)[i].children.len(),
    ensures
        exists|k: int|
            i < k < tree.families(parent_kind).len() && (#[trigger] tree.families(parent_kind)[k]).node
                == tree.families(parent_kind)[i].children[j] && tree.families(
                parent_kind,
            )[k].parent_kind == Some(tree.families(parent_kind)[i].node.kind),
    decreases tree,
{
    let all = tree.families(parent_kind);
    let below = all_families(tree.children, Some(tree.kind));
    if i == 0 {
        lemma_roots_are_listed(tree.children, Some(tree.kind), j);
        let k = choose|k: int|
            0 <= k < below.len() && (#[trigger] below[k]).node == tree.children[j].node()
                && below[k].parent_kind == Some(tree.kind);
        assert(all[k + 1] == below[k]);
    } else {
        assert(all[i] == below[i - 1]);
        lemma_children_are_nodes_of_all(tree.children, Some(tree.kind), i - 1, j);
        let k = choose|k: int|
            i - 1 < k < below.len() && (#[trigger] below[k]).node == below[i - 1].children[j]
                && below[k].parent_kind == Some(below[i - 1].node.kind);
        assert(all[k + 1] == below[k]);
    }
}

proof fn lemma_children_are_nodes_of_all(
    trees: Seq<SyntaxView>,
    parent_kind: Option<Seq<char>>,
    i: int,
    j: int,
)
    requires
        0 <= i < all_families(trees, parent_kind).len(),
        0 <= j < all_families(trees, parent_kind)[i].children.len(),
    ensures
        exists|k: int|
            i < k < all_families(trees, parent_kind).len() && (#[trigger] all_families(
                trees,
                parent_kind,
            )[k]).node == all_families(trees, parent_kind)[i].children[j] && all_families(
                trees,
                parent_kind,
            )[k].parent_kind == Some(all_families(trees, parent_kind)[i].node.kind),
    decreases trees,
{
    let all = all_families(trees, parent_kind);
    let first = trees[0].families(parent_kind);
    let rest = all_families(trees.drop_first(), parent_kind);
    if i < first.len() {
        assert(all[i] == first[i]);
        lemma_children_are_nodes(trees[0], parent_kind, i, j);
        let k = choose|k: int|
            i < k < first.len() && (#[trigger] first[k]).node == first[i].children[j]
                && first[k].parent_kind == Some(first[i].node.kind);
        assert(all[k] == first[k]);
    } else {
        assert(all[i] == rest[i - first.len()]);
        lemma_children_are_nodes_of_all(trees.drop_first(), parent_kind, i - first.len(), j);
        let k = choose|k: int|
            i - first.len() < k < rest.len() && (#[trigger] rest[k]).node == rest[i
                - first.len()].children[j] && rest[k].parent_kind == Some(
                rest[i - first.len()].node.kind,
            );
        assert(all[k + first.len()] == rest[k]);
    }
}

/// Every tree's root is among the nodes of the trees.
proof fn lemma_roots_are_listed(trees: Seq<SyntaxView>, parent_kind: Option<Seq<char>>, j: int)
    requires
        0 <= j < trees.len(),
    ensures
        exists|k: int|
            0 <= k < all_families(trees, parent_kind).len() && (#[trigger] all_families(
                trees,
                parent_kind,
            )[k]).node == trees[j].node() && all_families(trees, parent_kind)[k].parent_kind
                == parent_kind,
    decreases trees.len(),
{
    let all = all_families(trees, parent_kind);
    let first = trees[0].families(parent_kind);
    let rest = all_families(trees.drop_first(), parent_kind);
    if j == 0 {
        assert(all[0] == first[0]);
        assert(first[0].node == trees[0].node());
    } else {
        lemma_roots_are_listed(trees.drop_first(), parent_kind, j - 1);
        let k = choose|k: int|
            0 <= k < rest.len() && (#[trigger] rest[k]).node == trees.drop_first()[j - 1].node()
                && rest[k].parent_kind == parent_kind;
        assert(all[k + first.len()] == rest[k]);
    }
}

} // verus!
