//! The program that a pass starts from.
use vstd::prelude::*;

use crate::edits::{Edits, EditsView};
use crate::syntax::{families, family_views, nested, total_size, tree_view, Family, FamilyView, NodeView};

verus! {

/// A program: its syntax tree and its text.
#[derive(Debug)]
pub struct Original {
    pub tree: tree_sitter::Tree,
    pub text: Vec<u8>,
}

/// The text with every edited node printed as `edits` says, from the offset
/// `start` on.  The nodes are those of the whole tree, in order; one that begins
/// before `start` lies inside of an edit already made.
pub open spec fn spliced(
    nodes: Seq<FamilyView>,
    text: Seq<u8>,
    edits: EditsView,
    start: int,
) -> Seq<u8>
    decreases nodes.len(),
{
    if nodes.len() == 0 {
        text.skip(start)
    } else {
        let node = nodes[0].node;
        let rest = nodes.drop_first();
        match edits.insertion(node.id) {
            Some(bytes) => if node.start < start {
                spliced(rest, text, edits, start)
            } else {
                text.subrange(start, node.start as int) + bytes + spliced(
                    rest,
                    text,
                    edits,
                    node.end as int,
                )
            },
            None => spliced(rest, text, edits, start),
        }
    }
}

/// Whether the nodes that are edited lie inside of a text of `len` bytes.
pub open spec fn in_bounds(nodes: Seq<FamilyView>, len: nat, edits: EditsView) -> bool {
    forall|i: int|
        0 <= i < nodes.len() && edits.insertion((#[trigger] nodes[i]).node.id) is Some
            ==> nodes[i].node.start <= nodes[i].node.end <= len
}

/// Whether any of the nodes is edited.
pub open spec fn touches(nodes: Seq<FamilyView>, edits: EditsView) -> bool {
    exists|i: int|
        0 <= i < nodes.len() && edits.insertion((#[trigger] nodes[i]).node.id) is Some
}

/// `tree_sitter_edit::render` appends the edited text to `text`, and tells
/// whether an edit was made.  It asks `edits` about every node, a parent before
/// its children, and passes over an edit that begins inside of one already made.
/// Writing to a vector does not fail.
#[verifier::external_body]
fn render_into(
    text: &mut Vec<u8>,
    tree: &tree_sitter::Tree,
    source: &[u8],
    edits: &Edits,
) -> (r: Result<bool, std::io::Error>)
    requires
        in_bounds(tree_view(*tree).nodes(), source@.len(), edits@),
    ensures
        r is Ok,
        r->Ok_0 == touches(tree_view(*tree).nodes(), edits@),
        final(text)@ == old(text)@ + spliced(tree_view(*tree).nodes(), source@, edits@, 0),
{
    tree_sitter_edit::render(text, tree, source, edits)
}

impl Original {
    /// A program out of its parts.
    pub fn new(tree: tree_sitter::Tree, text: Vec<u8>) -> (r: Self)
        ensures
            r == (Original { tree, text }),
    {
        Original { tree, text }
    }

    /// The nodes of the tree.
    pub open spec fn nodes(self) -> Seq<FamilyView> {
        tree_view(self.tree).nodes()
    }

    /// Whether all nodes of the tree have sizes that can be worked with.
    pub open spec fn well_sized(self) -> bool {
        tree_view(self.tree).well_sized()
    }

    /// Whether the text can be printed with `edits`: no edited node lies outside of
    /// it.
    pub open spec fn prints(self, edits: EditsView) -> bool {
        in_bounds(self.nodes(), self.text@.len(), edits)
    }

    /// The text as `edits` print it.
    pub open spec fn rendered(self, edits: EditsView) -> Seq<u8> {
        spliced(self.nodes(), self.text@, edits, 0)
    }

    /// Test whether all nodes of the tree have sizes that can be worked with.
    pub fn check_sizes(&self) -> (r: bool)
        ensures
            r == self.well_sized(),
    {
        let all = families(&self.tree);
        let ghost views = family_views(all@);
        let mut i: usize = 0;
        while i < all.len()
            invariant
                i <= all.len(),
                views == family_views(all@),
                views == self.nodes(),
                forall|k: int| 0 <= k < i ==> (#[trigger] self.nodes()[k]).well_sized(),
            decreases all.len() - i,
        {
            assert(views[i as int] == all[i as int]@);
            if !has_sizes(&all[i]) {
                return false;
            }
            i = i + 1;
        }
        true
    }

    /// Test whether the nodes lie inside of one another as those of a tree do.
    pub fn check_nested(&self) -> (r: bool)
        ensures
            r == nested(self.nodes()),
    {
        let all = families(&self.tree);
        let ghost views = family_views(all@);
        let mut i: usize = 0;
        while i < all.len()
            invariant
                i <= all.len(),
                views == family_views(all@),
                views == self.nodes(),
                forall|a: int, b: int|
                    0 <= a < b < views.len() && a < i ==> {
                        ||| (#[trigger] views[a]).node.end <= (#[trigger] views[b]).node.start
                        ||| views[a].node.start <= views[b].node.start && views[b].node.end
                            <= views[a].node.end
                    },
            decreases all.len() - i,
        {
            let outer = &all[i].node;
            assert(views[i as int] == all[i as int]@);
            let mut j: usize = i + 1;
            while j < all.len()
                invariant
                    i < j <= all.len(),
                    views == family_views(all@),
                    views == self.nodes(),
                    views[i as int].node == outer@,
                    forall|b: int|
                        i < b < j ==> {
                            ||| outer.end_byte <= (#[trigger] views[b]).node.start
                            ||| outer.start_byte <= views[b].node.start && views[b].node.end
                                <= outer.end_byte
                        },
                decreases all.len() - j,
            {
                let inner = &all[j].node;
                assert(views[j as int] == all[j as int]@);
                if outer.end_byte > inner.start_byte && (outer.start_byte > inner.start_byte
                    || inner.end_byte > outer.end_byte) {
                    assert(!nested(views)) by {
                        assert(views[i as int].node.end > views[j as int].node.start);
                    }
                    return false;
                }
                j = j + 1;
            }
            i = i + 1;
        }
        true
    }

    /// Test whether the text can be printed with `edits`.
    pub fn check_bounds(&self, edits: &Edits) -> (r: bool)
        ensures
            r == self.prints(edits@),
    {
        let all = families(&self.tree);
        let ghost views = family_views(all@);
        let len: usize = self.text.len();
        let mut i: usize = 0;
        while i < all.len()
            invariant
                i <= all.len(),
                views == family_views(all@),
                views == self.nodes(),
                len == self.text@.len(),
                forall|k: int|
                    0 <= k < i && edits@.insertion((#[trigger] self.nodes()[k]).node.id) is Some
                        ==> self.nodes()[k].node.start <= self.nodes()[k].node.end <= len,
            decreases all.len() - i,
        {
            let node = &all[i].node;
            assert(views[i as int] == all[i as int]@);
            assert(self.nodes()[i as int].node == node@);
            if edits.has_id(&node.id) && (node.start_byte > node.end_byte || node.end_byte > len) {
                return false;
            }
            i = i + 1;
        }
        true
    }

    /// The text as `edits` print it, and whether anything was changed.
    pub fn render(&self, edits: &Edits) -> (r: Result<(bool, Vec<u8>), std::io::Error>)
        requires
            self.prints(edits@),
        ensures
            r matches Ok((changed, text)) && changed == touches(self.nodes(), edits@) && text@
                == self.rendered(edits@),
    {
        let mut text: Vec<u8> = Vec::with_capacity(self.text.len() / 2);
        match render_into(&mut text, &self.tree, self.text.as_slice(), edits) {
            Ok(changed) => {
                assert(text@ =~= self.rendered(edits@));
                Ok((changed, text))
            },
            Err(error) => Err(error),
        }
    }
}

/// Whether a node and its children end no earlier than they start, and the sizes
/// of the children can be added up.
fn has_sizes(family: &Family) -> (r: bool)
    ensures
        r == family@.well_sized(),
{
    let node = &family.node;
    if node.start_byte > node.end_byte {
        return false;
    }
    let ghost kids = family@.children;
    let mut total: usize = 0;
    let mut i: usize = 0;
    assert(kids.take(0) =~= Seq::empty());
    while i < family.children.len()
        invariant
            i <= family.children.len(),
            kids == family@.children,
            kids.len() == family.children.len(),
            total == total_size(kids.take(i as int)),
            forall|k: int| 0 <= k < i ==> (#[trigger] kids[k]).start <= kids[k].end,
        decreases family.children.len() - i,
    {
        let child = &family.children[i];
        assert(kids[i as int] == child@);
        if child.start_byte > child.end_byte {
            return false;
        }
        proof {
            assert(kids.take(i + 1).drop_last() =~= kids.take(i as int));
        }
        match total.checked_add(child.end_byte - child.start_byte) {
            Some(sum) => {
                total = sum;
            },
            None => {
                proof {
                    if family@.well_sized() {
                        lemma_total_size_grows(kids, i + 1);
                    }
                }
                return false;
            },
        }
        i = i + 1;
    }
    assert(kids.take(i as int) =~= kids);
    true
}

/// The first nodes cover no more than all of them.
proof fn lemma_total_size_grows(nodes: Seq<NodeView>, n: int)
    requires
        0 <= n <= nodes.len(),
        forall|k: int| 0 <= k < nodes.len() ==> (#[trigger] nodes[k]).start <= nodes[k].end,
    ensures
        total_size(nodes.take(n)) <= total_size(nodes),
    decreases nodes.len() - n,
{
    if n < nodes.len() {
        lemma_total_size_grows(nodes, n + 1);
        assert(nodes.take(n + 1).drop_last() =~= nodes.take(n));
    } else {
        assert(nodes.take(n) =~= nodes);
    }
}

} // verus!
