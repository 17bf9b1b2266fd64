//! Edits to a program, by node.
use std::collections::HashMap;

use vstd::prelude::*;
use vstd::utf8::encode_utf8;

use crate::id::NodeId;
use crate::syntax::node_view;

verus! {

/// What is done to one node.
#[derive(Debug)]
pub enum NodeEdit {
    /// The node is left out.
    Omit,
    /// A text stands in the node's place.
    Replace(String),
}

/// A set of edits.  A node that is left out stays left out.
#[derive(Debug)]
pub struct Edits {
    by_id: HashMap<usize, NodeEdit>,
}

/// The mathematical value of a [`NodeEdit`].
pub enum NodeEditView {
    Omit,
    Replace(Seq<char>),
}

impl View for NodeEdit {
    type V = NodeEditView;

    open spec fn view(&self) -> NodeEditView {
        match self {
            NodeEdit::Omit => NodeEditView::Omit,
            NodeEdit::Replace(with) => NodeEditView::Replace(with@),
        }
    }
}

/// The mathematical value of [`Edits`].
#[verifier::ext_equal]
pub struct EditsView {
    /// The edited nodes' numbers, and what is done to each.
    pub by_id: Map<usize, NodeEditView>,
}

impl EditsView {
    /// No edits.
    pub open spec fn none() -> EditsView {
        EditsView { by_id: Map::empty() }
    }

    /// Whether the node is left out.
    pub open spec fn should_omit(self, id: NodeId) -> bool {
        self.by_id.contains_key(id.id) && self.by_id[id.id] is Omit
    }

    /// Whether all of the nodes are left out.
    pub open spec fn should_omit_all(self, ids: Seq<NodeId>) -> bool {
        forall|i: int| 0 <= i < ids.len() ==> self.should_omit(#[trigger] ids[i])
    }

    /// The edits with one more node left out.
    pub open spec fn omit(self, id: NodeId) -> EditsView {
        EditsView { by_id: self.by_id.insert(id.id, NodeEditView::Omit) }
    }

    /// The edits with all of `ids` left out.
    pub open spec fn omit_all(self, ids: Seq<NodeId>) -> EditsView
        decreases ids.len(),
    {
        if ids.len() == 0 {
            self
        } else {
            self.omit_all(ids.drop_last()).omit(ids.last())
        }
    }

    /// The edits with a text in the place of a node, unless the node is left out.
    pub open spec fn replace(self, id: NodeId, with: Seq<char>) -> EditsView {
        if self.should_omit(id) {
            self
        } else {
            EditsView { by_id: self.by_id.insert(id.id, NodeEditView::Replace(with)) }
        }
    }

    /// The bytes that stand in the place of a node, if it is edited.
    pub open spec fn insertion(self, id: NodeId) -> Option<Seq<u8>> {
        if !self.by_id.contains_key(id.id) {
            None
        } else {
            match self.by_id[id.id] {
                NodeEditView::Omit => Some(Seq::empty()),
                NodeEditView::Replace(with) => Some(encode_utf8(with)),
            }
        }
    }
}

impl View for Edits {
    type V = EditsView;

    closed spec fn view(&self) -> EditsView {
        EditsView { by_id: self.by_id@.map_values(|e: NodeEdit| e@) }
    }
}

impl Clone for NodeEdit {
    fn clone(&self) -> (r: Self)
        ensures
            r == *self,
    {
        match self {
            NodeEdit::Omit => NodeEdit::Omit,
            NodeEdit::Replace(with) => NodeEdit::Replace(with.clone()),
        }
    }
}

impl Clone for Edits {
    fn clone(&self) -> (r: Self)
        ensures
            r@ == self@,
    {
        Edits { by_id: self.by_id.clone() }
    }
}

impl Edits {
    /// No edits.
    pub fn new() -> (r: Self)
        ensures
            r@ == EditsView::none(),
    {
        let r = Edits { by_id: HashMap::new() };
        assert(r@ =~= EditsView::none());
        r
    }

    /// Whether there are no edits.
    pub fn is_empty(&self) -> (r: bool)
        ensures
            r == (self@ == EditsView::none()),
    {
        let r = self.by_id.is_empty();
        proof {
            if r {
                assert(self@ =~= EditsView::none());
            } else {
                let k = choose|k: usize| self.by_id@.contains_key(k);
                assert(self.by_id@.contains_key(k));
                assert(self@.by_id.contains_key(k));
            }
        }
        r
    }

    /// Whether a node is left out.
    pub fn should_omit_id(&self, id: &NodeId) -> (r: bool)
        ensures
            r == self@.should_omit(*id),
    {
        broadcast use vstd::std_specs::hash::group_hash_axioms;

        match self.by_id.get(&id.id) {
            Some(NodeEdit::Omit) => true,
            _ => false,
        }
    }

    /// Whether a node is edited.
    pub fn has_id(&self, id: &NodeId) -> (r: bool)
        ensures
            r == (self@.insertion(*id) is Some),
    {
        broadcast use vstd::std_specs::hash::group_hash_axioms;

        self.by_id.contains_key(&id.id)
    }

    /// Leave a node out.
    pub fn omit_id(self, id: NodeId) -> (r: Self)
        ensures
            r@ == self@.omit(id),
    {
        broadcast use vstd::std_specs::hash::group_hash_axioms;

        let mut by_id = self.by_id;
        by_id.insert(id.id, NodeEdit::Omit);
        let r = Edits { by_id };
        assert(r@ =~= self@.omit(id));
        r
    }

    /// Leave several nodes out.
    pub fn omit_ids(self, ids: &Vec<NodeId>) -> (r: Self)
        ensures
            r@ == self@.omit_all(ids@),
    {
        let mut r = self;
        let mut i: usize = 0;
        assert(ids@.take(0) =~= Seq::empty());
        while i < ids.len()
            invariant
                i <= ids.len(),
                r@ == self@.omit_all(ids@.take(i as int)),
            decreases ids.len() - i,
        {
            r = r.omit_id(ids[i]);
            i = i + 1;
            assert(ids@.take(i as int).drop_last() =~= ids@.take(i - 1));
        }
        assert(ids@.take(i as int) =~= ids@);
        r
    }

    /// Put a text in the place of a node.
    pub fn replace_id(self, id: NodeId, with: String) -> (r: Self)
        ensures
            r@ == self@.replace(id, with@),
    {
        broadcast use vstd::std_specs::hash::group_hash_axioms;

        if self.should_omit_id(&id) {
            return self;
        }
        let mut by_id = self.by_id;
        by_id.insert(id.id, NodeEdit::Replace(with));
        let r = Edits { by_id };
        assert(r@ =~= self@.replace(id, with@));
        r
    }

    /// The bytes that stand in the place of a node, if it is edited.
    pub fn insertion(&self, id: NodeId) -> (r: Option<Vec<u8>>)
        ensures
            match r {
                Some(bytes) => self@.insertion(id) == Some(bytes@),
                None => self@.insertion(id) is None,
            },
    {
        broadcast use vstd::std_specs::hash::group_hash_axioms;

        match self.by_id.get(&id.id) {
            None => None,
            Some(NodeEdit::Omit) => Some(Vec::new()),
            Some(NodeEdit::Replace(with)) => {
                let mut bytes: Vec<u8> = Vec::new();
                bytes.extend_from_slice(with.as_str().as_bytes());
                assert(bytes@ =~= encode_utf8(with@));
                Some(bytes)
            },
        }
    }
}

/// Which nodes tree-sitter-edit prints otherwise than they stand in the text.
impl tree_sitter_edit::Editor for Edits {
    fn has_edit(&self, _tree: &tree_sitter::Tree, node: &tree_sitter::Node<'_>) -> (r: bool)
        ensures
            r == (self@.insertion(node_view(*node).id) is Some),
    {
        self.has_id(&NodeId::new(node))
    }

    fn edit(
        &self,
        _source: &[u8],
        _tree: &tree_sitter::Tree,
        node: &tree_sitter::Node<'_>,
    ) -> (r: Vec<u8>)
        ensures
            self@.insertion(node_view(*node).id) matches Some(bytes) ==> r@ == bytes,
    {
        match self.insertion(NodeId::new(node)) {
            Some(bytes) => bytes,
            None => Vec::new(),
        }
    }
}

} // verus!
