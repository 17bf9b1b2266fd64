//! What printing a program with edits does.
use vstd::prelude::*;
use vstd::utf8::encode_utf8;

use crate::edits::EditsView;
use crate::original::{in_bounds, spliced, touches, Original};
use crate::syntax::{distinct_ids, nested, FamilyView};

verus! {

/// Nodes that are not edited are printed as they stand.
proof fn lemma_untouched(nodes: Seq<FamilyView>, text: Seq<u8>, edits: EditsView, start: int)
    requires
        !touches(nodes, edits),
    ensures
        spliced(nodes, text, edits, start) == text.skip(start),
    decreases nodes.len(),
{
    if nodes.len() > 0 {
        let rest = nodes.drop_first();
        assert(edits.insertion(nodes[0].node.id) is None);
        assert(!touches(rest, edits)) by {
            if touches(rest, edits) {
                let i = choose|i: int|
                    0 <= i < rest.len() && edits.insertion((#[trigger] rest[i]).node.id) is Some;
                assert(rest[i] == nodes[i + 1]);
            }
        }
        lemma_untouched(rest, text, edits, start);
    }
}

/// A program of which no node is edited is printed as it is.  Printing says that
/// nothing was changed only if that is so.
pub proof fn law_unchanged_text_is_kept(orig: Original, edits: EditsView)
    requires
        !touches(orig.nodes(), edits),
    ensures
        orig.rendered(edits) == orig.text@,
{
    lemma_untouched(orig.nodes(), orig.text@, edits, 0);
    assert(orig.text@.skip(0) =~= orig.text@);
}

/// Without edits a program is printed as it is.
pub proof fn law_no_edits_keep_the_text(orig: Original)
    ensures
        !touches(orig.nodes(), EditsView::none()),
        orig.rendered(EditsView::none()) == orig.text@,
{
    law_unchanged_text_is_kept(orig, EditsView::none());
}

/// Whether the edits do nothing but leave nodes out.
pub open spec fn only_omits(edits: EditsView) -> bool {
    forall|number: usize| #[trigger]
        edits.by_id.contains_key(number) ==> edits.by_id[number] is Omit
}

proof fn lemma_rest_in_bounds(nodes: Seq<FamilyView>, len: nat, edits: EditsView)
    requires
        nodes.len() > 0,
        in_bounds(nodes, len, edits),
    ensures
        in_bounds(nodes.drop_first(), len, edits),
{
    let rest = nodes.drop_first();
    assert forall|i: int|
        0 <= i < rest.len() && edits.insertion((#[trigger] rest[i]).node.id)
            is Some implies rest[i].node.start <= rest[i].node.end <= len by {
        assert(rest[i] == nodes[i + 1]);
    }
}

proof fn lemma_deleting_shortens(
    nodes: Seq<FamilyView>,
    text: Seq<u8>,
    edits: EditsView,
    start: int,
)
    requires
        only_omits(edits),
        0 <= start <= text.len(),
        in_bounds(nodes, text.len(), edits),
    ensures
        spliced(nodes, text, edits, start).len() <= text.len() - start,
    decreases nodes.len(),
{
    if nodes.len() > 0 {
        let rest = nodes.drop_first();
        let node = nodes[0].node;
        lemma_rest_in_bounds(nodes, text.len(), edits);
        lemma_deleting_shortens(rest, text, edits, start);
        if edits.insertion(nodes[0].node.id) is Some {
            lemma_deleting_shortens(rest, text, edits, node.end as int);
        }
    }
}

/// Leaving nodes out never makes a program longer.
pub proof fn law_deleting_never_lengthens(orig: Original, edits: EditsView)
    requires
        orig.prints(edits),
        only_omits(edits),
    ensures
        orig.rendered(edits).len() <= orig.text@.len(),
{
    lemma_deleting_shortens(orig.nodes(), orig.text@, edits, 0);
}

proof fn lemma_single_edit(
    nodes: Seq<FamilyView>,
    text: Seq<u8>,
    edits: EditsView,
    k: int,
    bytes: Seq<u8>,
)
    requires
        0 <= k < nodes.len(),
        nodes[k].node.start <= nodes[k].node.end <= text.len(),
        edits.insertion(nodes[k].node.id) == Some(bytes),
        forall|i: int|
            0 <= i < nodes.len() && i != k ==> edits.insertion((#[trigger] nodes[i]).node.id)
                is None,
    ensures
        spliced(nodes, text, edits, 0) == text.take(nodes[k].node.start as int) + bytes
            + text.skip(nodes[k].node.end as int),
    decreases nodes.len(),
{
    let rest = nodes.drop_first();
    if k == 0 {
        assert(!touches(rest, edits)) by {
            if touches(rest, edits) {
                let i = choose|i: int|
                    0 <= i < rest.len() && edits.insertion((#[trigger] rest[i]).node.id) is Some;
                assert(rest[i] == nodes[i + 1]);
            }
        }
        lemma_untouched(rest, text, edits, nodes[0].node.end as int);
    } else {
        assert(edits.insertion(nodes[0].node.id) is None);
        assert forall|i: int| 0 <= i < rest.len() && i != k - 1 implies edits.insertion(
            (#[trigger] rest[i]).node.id,
        ) is None by {
            assert(rest[i] == nodes[i + 1]);
        }
        assert(rest[k - 1] == nodes[k]);
        lemma_single_edit(rest, text, edits, k - 1, bytes);
    }
}

/// Deleting one node takes its bytes out of the text, and nothing else.
pub proof fn law_deleting_a_node_removes_its_bytes(orig: Original, k: int)
    requires
        distinct_ids(orig.nodes()),
        0 <= k < orig.nodes().len(),
        orig.nodes()[k].node.start <= orig.nodes()[k].node.end <= orig.text@.len(),
    ensures
        ({
            let node = orig.nodes()[k].node;
            orig.rendered(EditsView::none().omit(node.id)) == orig.text@.take(node.start as int)
                + orig.text@.skip(node.end as int)
        }),
{
    let nodes = orig.nodes();
    let node = nodes[k].node;
    let edits = EditsView::none().omit(node.id);
    assert forall|i: int| 0 <= i < nodes.len() && i != k implies edits.insertion(
        (#[trigger] nodes[i]).node.id,
    ) is None by {
        assert(nodes[i].node.id != nodes[k].node.id);
        assert(nodes[i].node.id.id != node.id.id);
    }
    lemma_single_edit(nodes, orig.text@, edits, k, Seq::empty());
    assert(orig.text@.take(node.start as int) + Seq::<u8>::empty() =~= orig.text@.take(
        node.start as int,
    ));
}

/// Replacing one node puts the new text in the place of its bytes, and changes
/// nothing else.
pub proof fn law_replacing_a_node_replaces_its_bytes(orig: Original, k: int, with: Seq<char>)
    requires
        distinct_ids(orig.nodes()),
        0 <= k < orig.nodes().len(),
        orig.nodes()[k].node.start <= orig.nodes()[k].node.end <= orig.text@.len(),
    ensures
        ({
            let node = orig.nodes()[k].node;
            orig.rendered(EditsView::none().replace(node.id, with)) == orig.text@.take(
                node.start as int,
            ) + encode_utf8(with) + orig.text@.skip(node.end as int)
        }),
{
    let nodes = orig.nodes();
    let node = nodes[k].node;
    let edits = EditsView::none().replace(node.id, with);
    assert forall|i: int| 0 <= i < nodes.len() && i != k implies edits.insertion(
        (#[trigger] nodes[i]).node.id,
    ) is None by {
        assert(nodes[i].node.id != nodes[k].node.id);
        assert(nodes[i].node.id.id != node.id.id);
    }
    lemma_single_edit(nodes, orig.text@, edits, k, encode_utf8(with));
}

/// Printing tells that something was changed exactly if some node is edited.
pub proof fn law_changes_are_told(nodes: Seq<FamilyView>, edits: EditsView)
    ensures
        touches(nodes, edits) <==> exists|i: int|
            0 <= i < nodes.len() && edits.by_id.contains_key((#[trigger] nodes[i]).node.id.id),
{
    if touches(nodes, edits) {
        let i = choose|i: int|
            0 <= i < nodes.len() && edits.insertion((#[trigger] nodes[i]).node.id) is Some;
        assert(edits.by_id.contains_key(nodes[i].node.id.id));
    }
    if exists|i: int|
        0 <= i < nodes.len() && edits.by_id.contains_key((#[trigger] nodes[i]).node.id.id) {
        let i = choose|i: int|
            0 <= i < nodes.len() && edits.by_id.contains_key((#[trigger] nodes[i]).node.id.id);
        assert(edits.insertion(nodes[i].node.id) is Some);
    }
}

/// Where no edited node begins before `m`, the text up to `m` is printed as it is.
proof fn lemma_printed_up_to(
    nodes: Seq<FamilyView>,
    text: Seq<u8>,
    edits: EditsView,
    start: int,
    m: int,
)
    requires
        0 <= start <= m <= text.len(),
        in_bounds(nodes, text.len(), edits),
        forall|i: int|
            0 <= i < nodes.len() && edits.insertion((#[trigger] nodes[i]).node.id) is Some ==> m
                <= nodes[i].node.start,
    ensures
        spliced(nodes, text, edits, start) == text.subrange(start, m) + spliced(
            nodes,
            text,
            edits,
            m,
        ),
    decreases nodes.len(),
{
    if nodes.len() == 0 {
        assert(text.skip(start) =~= text.subrange(start, m) + text.skip(m));
    } else {
        let rest = nodes.drop_first();
        let first = nodes[0].node;
        lemma_rest_in_bounds(nodes, text.len(), edits);
        assert forall|i: int|
            0 <= i < rest.len() && edits.insertion((#[trigger] rest[i]).node.id) is Some implies m
            <= rest[i].node.start by {
            assert(rest[i] == nodes[i + 1]);
        }
        if edits.insertion(first.id) is Some {
            assert(m <= nodes[0].node.start);
            assert(text.subrange(start, first.start as int) =~= text.subrange(start, m)
                + text.subrange(m, first.start as int));
            let bytes = edits.insertion(first.id)->0;
            let tail = spliced(rest, text, edits, first.end as int);
            assert(spliced(nodes, text, edits, start) =~= text.subrange(start, m) + spliced(
                nodes,
                text,
                edits,
                m,
            ));
        } else {
            lemma_printed_up_to(rest, text, edits, start, m);
        }
    }
}

/// What stands before a node and what stands behind it, where the node at `k` lies
/// apart from all that is edited.
proof fn lemma_apart(
    nodes: Seq<FamilyView>,
    text: Seq<u8>,
    edits: EditsView,
    other: EditsView,
    start: int,
    k: int,
) -> (parts: (Seq<u8>, Seq<u8>))
    requires
        0 <= start <= text.len(),
        0 <= k < nodes.len(),
        in_bounds(nodes, text.len(), edits),
        start <= nodes[k].node.start <= nodes[k].node.end <= text.len(),
        edits.insertion(nodes[k].node.id) is None,
        other.insertion(nodes[k].node.id) is Some,
        forall|i: int|
            0 <= i < nodes.len() && i != k ==> edits.insertion((#[trigger] nodes[i]).node.id)
                == other.insertion(nodes[i].node.id),
        forall|i: int|
            0 <= i < nodes.len() && edits.insertion((#[trigger] nodes[i]).node.id) is Some ==> {
                &&& i < k ==> nodes[i].node.end <= nodes[k].node.start
                &&& i > k ==> nodes[k].node.end <= nodes[i].node.start
            },
    ensures
        spliced(nodes, text, edits, start) == parts.0 + text.subrange(
            nodes[k].node.start as int,
            nodes[k].node.end as int,
        ) + parts.1,
        spliced(nodes, text, other, start) == parts.0 + other.insertion(nodes[k].node.id)->0
            + parts.1,
        parts == apart(nodes, text, edits, start, k),
    decreases nodes.len(),
{
    let rest = nodes.drop_first();
    let first = nodes[0].node;
    lemma_rest_in_bounds(nodes, text.len(), edits);
    assert forall|i: int| 0 <= i < rest.len() implies #[trigger] rest[i] == nodes[i + 1] by {}
    if k == 0 {
        assert forall|i: int|
            0 <= i < rest.len() && edits.insertion((#[trigger] rest[i]).node.id)
                is Some implies first.end <= rest[i].node.start by {
            assert(rest[i] == nodes[i + 1]);
        }
        lemma_printed_up_to(rest, text, edits, start, first.end as int);
        assert forall|i: int| 0 <= i < rest.len() implies edits.insertion(
            (#[trigger] rest[i]).node.id,
        ) == other.insertion(rest[i].node.id) by {
            assert(rest[i] == nodes[i + 1]);
        }
        lemma_same_edits(rest, text, edits, other, first.end as int);
        let before = text.subrange(start, first.start as int);
        let behind = spliced(rest, text, edits, first.end as int);
        assert(text.subrange(start, first.end as int) =~= before + text.subrange(
            first.start as int,
            first.end as int,
        ));
        (before, behind)
    } else {
        assert(rest[k - 1] == nodes[k]);
        assert(edits.insertion(first.id) == other.insertion(first.id));
        assert forall|i: int|
            0 <= i < rest.len() && i != k - 1 implies edits.insertion((#[trigger] rest[i]).node.id)
            == other.insertion(rest[i].node.id) by {
            assert(rest[i] == nodes[i + 1]);
        }
        assert forall|i: int|
            0 <= i < rest.len() && edits.insertion((#[trigger] rest[i]).node.id) is Some implies {
            &&& i < k - 1 ==> rest[i].node.end <= nodes[k].node.start
            &&& i > k - 1 ==> nodes[k].node.end <= rest[i].node.start
        } by {
            assert(rest[i] == nodes[i + 1]);
        }
        if edits.insertion(first.id) is Some && start <= first.start {
            let bytes = edits.insertion(first.id)->0;
            let head = text.subrange(start, first.start as int) + bytes;
            let (before, behind) = lemma_apart(rest, text, edits, other, first.end as int, k - 1);
            let own = text.subrange(nodes[k].node.start as int, nodes[k].node.end as int);
            assert(head + (before + own + behind) =~= (head + before) + own + behind);
            let new = other.insertion(nodes[k].node.id)->0;
            assert(head + (before + new + behind) =~= (head + before) + new + behind);
            (head + before, behind)
        } else {
            lemma_apart(rest, text, edits, other, start, k - 1)
        }
    }
}

/// What is printed before the node at `k` and behind it.
spec fn apart(
    nodes: Seq<FamilyView>,
    text: Seq<u8>,
    edits: EditsView,
    start: int,
    k: int,
) -> (Seq<u8>, Seq<u8>)
    decreases nodes.len(),
{
    let rest = nodes.drop_first();
    let first = nodes[0].node;
    if k <= 0 || nodes.len() == 0 {
        (
            text.subrange(start, first.start as int),
            spliced(rest, text, edits, first.end as int),
        )
    } else if edits.insertion(first.id) is Some && start <= first.start {
        let (before, behind) = apart(rest, text, edits, first.end as int, k - 1);
        (
            text.subrange(start, first.start as int) + edits.insertion(first.id)->0 + before,
            behind,
        )
    } else {
        apart(rest, text, edits, start, k - 1)
    }
}

/// Whether the bytes of the node at `k` stand between `before` and `behind` in what is
/// printed, nothing if the node is deleted, and the new text if it is replaced.
pub open spec fn stands_between(
    orig: Original,
    edits: EditsView,
    k: int,
    with: Seq<char>,
    before: Seq<u8>,
    behind: Seq<u8>,
) -> bool {
    let node = orig.nodes()[k].node;
    &&& orig.rendered(edits) == before + orig.text@.subrange(node.start as int, node.end as int)
        + behind
    &&& orig.rendered(edits.omit(node.id)) == before + behind
    &&& orig.rendered(edits.replace(node.id, with)) == before + encode_utf8(with) + behind
}

/// Edits of nodes that lie apart are made each for itself: where a node lies apart from
/// all that is edited, its bytes stand in what is printed; deleting it takes them out,
/// replacing it puts the new text there, and all else stays.
pub proof fn law_edits_apart_are_each_made(
    orig: Original,
    edits: EditsView,
    k: int,
    with: Seq<char>,
)
    requires
        orig.prints(edits),
        distinct_ids(orig.nodes()),
        0 <= k < orig.nodes().len(),
        orig.nodes()[k].node.start <= orig.nodes()[k].node.end <= orig.text@.len(),
        edits.insertion(orig.nodes()[k].node.id) is None,
        forall|i: int|
            0 <= i < orig.nodes().len() && edits.insertion((#[trigger] orig.nodes()[i]).node.id)
                is Some ==> {
                &&& i < k ==> orig.nodes()[i].node.end <= orig.nodes()[k].node.start
                &&& i > k ==> orig.nodes()[k].node.end <= orig.nodes()[i].node.start
            },
    ensures
        exists|before: Seq<u8>, behind: Seq<u8>|
            stands_between(orig, edits, k, with, before, behind),
{
    let nodes = orig.nodes();
    let text = orig.text@;
    let node = nodes[k].node;
    assert forall|i: int| 0 <= i < nodes.len() && i != k implies edits.insertion(
        (#[trigger] nodes[i]).node.id,
    ) == edits.omit(node.id).insertion(nodes[i].node.id) && edits.insertion(nodes[i].node.id)
        == edits.replace(node.id, with).insertion(nodes[i].node.id) by {
        assert(nodes[i].node.id != nodes[k].node.id);
        assert(nodes[i].node.id.id != node.id.id);
    }
    let (before, behind) = lemma_apart(nodes, text, edits, edits.omit(node.id), 0, k);
    let same = lemma_apart(nodes, text, edits, edits.replace(node.id, with), 0, k);
    assert(before + Seq::<u8>::empty() + behind =~= before + behind);
    assert(stands_between(orig, edits, k, with, before, behind));
}

/// Edits that do the same to every node print the same.
proof fn lemma_same_edits(
    nodes: Seq<FamilyView>,
    text: Seq<u8>,
    one: EditsView,
    other: EditsView,
    start: int,
)
    requires
        forall|i: int|
            0 <= i < nodes.len() ==> one.insertion((#[trigger] nodes[i]).node.id)
                == other.insertion(nodes[i].node.id),
    ensures
        spliced(nodes, text, one, start) == spliced(nodes, text, other, start),
    decreases nodes.len(),
{
    if nodes.len() > 0 {
        let rest = nodes.drop_first();
        assert forall|i: int| 0 <= i < rest.len() implies one.insertion(
            (#[trigger] rest[i]).node.id,
        ) == other.insertion(rest[i].node.id) by {
            assert(rest[i] == nodes[i + 1]);
        }
        assert(one.insertion(nodes[0].node.id) == other.insertion(nodes[0].node.id));
        lemma_same_edits(rest, text, one, other, start);
        lemma_same_edits(rest, text, one, other, nodes[0].node.end as int);
    }
}

/// What is done to a node that begins before `start` makes no difference.
proof fn lemma_passed_over(
    nodes: Seq<FamilyView>,
    text: Seq<u8>,
    one: EditsView,
    other: EditsView,
    start: int,
    m: int,
)
    requires
        0 <= m < nodes.len(),
        nodes[m].node.start < start,
        forall|i: int|
            0 <= i < nodes.len() ==> (#[trigger] nodes[i]).node.start <= nodes[i].node.end,
        forall|i: int|
            0 <= i < nodes.len() && i != m ==> one.insertion((#[trigger] nodes[i]).node.id)
                == other.insertion(nodes[i].node.id),
    ensures
        spliced(nodes, text, one, start) == spliced(nodes, text, other, start),
    decreases nodes.len(),
{
    let rest = nodes.drop_first();
    assert forall|i: int| 0 <= i < rest.len() implies (#[trigger] rest[i]).node.start
        <= rest[i].node.end by {
        assert(rest[i] == nodes[i + 1]);
    }
    assert forall|i: int| 0 <= i < rest.len() && i != m - 1 implies one.insertion(
        (#[trigger] rest[i]).node.id,
    ) == other.insertion(rest[i].node.id) by {
        assert(rest[i] == nodes[i + 1]);
    }
    if m == 0 {
        lemma_same_edits(rest, text, one, other, start);
    } else {
        assert(rest[m - 1] == nodes[m]);
        assert(one.insertion(nodes[0].node.id) == other.insertion(nodes[0].node.id));
        assert(nodes[0].node.start <= nodes[0].node.end);
        lemma_passed_over(rest, text, one, other, start, m - 1);
        if start <= nodes[0].node.start {
            lemma_passed_over(rest, text, one, other, nodes[0].node.end as int, m - 1);
        }
    }
}

proof fn lemma_not_seen(
    nodes: Seq<FamilyView>,
    text: Seq<u8>,
    one: EditsView,
    other: EditsView,
    start: int,
    k: int,
    m: int,
)
    requires
        0 <= k < m < nodes.len(),
        nested(nodes),
        forall|i: int|
            0 <= i < nodes.len() ==> (#[trigger] nodes[i]).node.start <= nodes[i].node.end,
        nodes[m].node.start < nodes[k].node.end,
        one.insertion(nodes[k].node.id) is Some,
        forall|i: int|
            0 <= i < nodes.len() && i != m ==> one.insertion((#[trigger] nodes[i]).node.id)
                == other.insertion(nodes[i].node.id),
        start <= nodes[k].node.start || nodes[k].node.end <= start,
    ensures
        spliced(nodes, text, one, start) == spliced(nodes, text, other, start),
    decreases nodes.len(),
{
    let rest = nodes.drop_first();
    let first = nodes[0].node;
    assert forall|i: int| 0 <= i < rest.len() implies (#[trigger] rest[i]).node.start
        <= rest[i].node.end by {
        assert(rest[i] == nodes[i + 1]);
    }
    assert forall|i: int| 0 <= i < rest.len() && i != m - 1 implies one.insertion(
        (#[trigger] rest[i]).node.id,
    ) == other.insertion(rest[i].node.id) by {
        assert(rest[i] == nodes[i + 1]);
    }
    assert(rest[m - 1] == nodes[m]);
    assert(one.insertion(first.id) == other.insertion(first.id));
    if k == 0 {
        if first.start < start {
            lemma_passed_over(rest, text, one, other, start, m - 1);
        } else {
            lemma_passed_over(rest, text, one, other, first.end as int, m - 1);
        }
    } else {
        assert(rest[k - 1] == nodes[k]);
        assert(nested(rest)) by {
            assert forall|i: int, j: int| 0 <= i < j < rest.len() implies {
                ||| (#[trigger] rest[i]).node.end <= (#[trigger] rest[j]).node.start
                ||| rest[i].node.start <= rest[j].node.start && rest[j].node.end
                    <= rest[i].node.end
            } by {
                assert(rest[i] == nodes[i + 1] && rest[j] == nodes[j + 1]);
            }
        }
        assert(first.end <= nodes[k].node.start || nodes[k].node.end <= first.end);
        lemma_not_seen(rest, text, one, other, start, k - 1, m - 1);
        lemma_not_seen(rest, text, one, other, first.end as int, k - 1, m - 1);
    }
}

proof fn lemma_deleting_gains(
    nodes: Seq<FamilyView>,
    text: Seq<u8>,
    edits: EditsView,
    start: int,
    k: int,
)
    requires
        only_omits(edits),
        0 <= start <= text.len(),
        in_bounds(nodes, text.len(), edits),
        nested(nodes),
        0 <= k < nodes.len(),
        edits.should_omit(nodes[k].node.id),
        start <= nodes[k].node.start < nodes[k].node.end,
    ensures
        spliced(nodes, text, edits, start).len() < text.len() - start,
    decreases nodes.len(),
{
    let rest = nodes.drop_first();
    let first = nodes[0].node;
    lemma_rest_in_bounds(nodes, text.len(), edits);
    if edits.insertion(first.id) is Some {
        lemma_deleting_shortens(rest, text, edits, first.end as int);
    }
    if k > 0 {
        assert(rest[k - 1] == nodes[k]);
        assert(nested(rest)) by {
            assert forall|i: int, j: int| 0 <= i < j < rest.len() implies {
                ||| (#[trigger] rest[i]).node.end <= (#[trigger] rest[j]).node.start
                ||| rest[i].node.start <= rest[j].node.start && rest[j].node.end
                    <= rest[i].node.end
            } by {
                assert(rest[i] == nodes[i + 1] && rest[j] == nodes[j + 1]);
            }
        }
        lemma_deleting_gains(rest, text, edits, start, k - 1);
        assert(first.end <= nodes[k].node.start || nodes[k].node.end <= first.end);
        if edits.insertion(first.id) is Some && first.end <= nodes[k].node.start {
            lemma_deleting_gains(rest, text, edits, first.end as int, k - 1);
        }
    }
}

/// Leaving out a node that is not empty makes a program shorter, if nothing is
/// replaced.
pub proof fn law_deleting_shortens(orig: Original, edits: EditsView, k: int)
    requires
        orig.prints(edits),
        nested(orig.nodes()),
        only_omits(edits),
        0 <= k < orig.nodes().len(),
        edits.should_omit(orig.nodes()[k].node.id),
        orig.nodes()[k].node.start < orig.nodes()[k].node.end,
    ensures
        orig.rendered(edits).len() < orig.text@.len(),
{
    lemma_deleting_gains(orig.nodes(), orig.text@, edits, 0, k);
}

/// What is done to a node that begins inside of an edited node makes no
/// difference: below a node that is deleted or replaced there is nothing left to
/// do.
pub proof fn law_edits_inside_of_an_edited_node_are_not_seen(
    orig: Original,
    edits: EditsView,
    k: int,
    m: int,
    with: Seq<char>,
)
    requires
        orig.well_sized(),
        distinct_ids(orig.nodes()),
        nested(orig.nodes()),
        0 <= k < m < orig.nodes().len(),
        orig.nodes()[m].node.start < orig.nodes()[k].node.end,
        edits.insertion(orig.nodes()[k].node.id) is Some,
    ensures
        orig.rendered(edits.omit(orig.nodes()[m].node.id)) == orig.rendered(edits),
        orig.rendered(edits.replace(orig.nodes()[m].node.id, with)) == orig.rendered(edits),
{
    let nodes = orig.nodes();
    let id = nodes[m].node.id;
    assert forall|i: int| 0 <= i < nodes.len() implies (#[trigger] nodes[i]).node.start
        <= nodes[i].node.end by {
        assert(nodes[i].well_sized());
    }
    assert forall|i: int| 0 <= i < nodes.len() && i != m implies edits.insertion(
        (#[trigger] nodes[i]).node.id,
    ) == edits.omit(id).insertion(nodes[i].node.id) && edits.insertion(nodes[i].node.id)
        == edits.replace(id, with).insertion(nodes[i].node.id) by {
        assert(nodes[i].node.id != nodes[m].node.id);
        assert(nodes[i].node.id.id != id.id);
    }
    lemma_not_seen(nodes, orig.text@, edits, edits.omit(id), 0, k, m);
    lemma_not_seen(nodes, orig.text@, edits, edits.replace(id, with), 0, k, m);
}

} // verus!
