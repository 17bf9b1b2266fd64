//! What is known of a grammar after it has been said.
use vstd::prelude::*;

use crate::node_types::{list_or_none, without_repeats, NodeTypesView};
use crate::syntax::FamilyView;

verus! {

/// A node is optional exactly if its kind has been said to be optional below nodes of
/// its parent's kind.  What is said of one kind of parent says nothing of another, and
/// a node without a parent is not optional.
pub proof fn law_nodes_are_optional_where_it_is_said(
    types: NodeTypesView,
    parent: Seq<char>,
    kinds: Seq<Seq<char>>,
    family: FamilyView,
)
    ensures
        ({
            let after = NodeTypesView {
                optional: types.optional.insert(parent, kinds),
                lists: types.lists,
                subtypes: types.subtypes,
            };
            &&& family.parent_kind == Some(parent) ==> (after.optional_node(family)
                <==> kinds.contains(family.node.kind))
            &&& family.parent_kind != Some(parent) ==> after.optional_node(family)
                == types.optional_node(family)
        }),
        family.parent_kind is None ==> !types.optional_node(family),
        types.optional == Map::<Seq<char>, Seq<Seq<char>>>::empty() ==> !types.optional_node(family),
{
}

/// A node can have many children of exactly the kinds that have been said for its own
/// kind.
pub proof fn law_lists_are_as_said(
    types: NodeTypesView,
    kind: Seq<char>,
    kinds: Seq<Seq<char>>,
    family: FamilyView,
)
    ensures
        ({
            let after = NodeTypesView {
                optional: types.optional,
                lists: types.lists.insert(kind, kinds),
                subtypes: types.subtypes,
            };
            &&& family.node.kind == kind ==> after.list_types(family) == kinds
            &&& family.node.kind != kind ==> after.list_types(family) == types.list_types(family)
        }),
        !types.lists.contains_key(family.node.kind) ==> types.list_types(family).len() == 0,
{
}

/// A kind stands for exactly the kinds that have been said, each once, and for itself
/// where nothing has been said.
pub proof fn law_subtypes_are_as_said(
    types: NodeTypesView,
    kind: Seq<char>,
    kinds: Seq<Seq<char>>,
    other: Seq<char>,
    sub: Seq<char>,
)
    ensures
        ({
            let after = NodeTypesView {
                optional: types.optional,
                lists: types.lists,
                subtypes: types.subtypes.insert(kind, without_repeats(kinds)),
            };
            &&& after.subtypes_of(kind).contains(sub) <==> kinds.contains(sub)
            &&& after.subtypes_of(kind).no_duplicates()
            &&& other != kind ==> after.subtypes_of(other) == types.subtypes_of(other)
        }),
        !types.subtypes.contains_key(other) ==> types.subtypes_of(other) == seq![other],
{
    law_repeats_are_left_out(kinds, kinds, sub);
}

/// Leaving out repeats keeps every text, once, in the order in which they come first:
/// a list without repeats stays as it is, and a longer list begins as a shorter one.
pub proof fn law_repeats_are_left_out(list: Seq<Seq<char>>, more: Seq<Seq<char>>, text: Seq<char>)
    ensures
        without_repeats(list).contains(text) <==> list.contains(text),
        without_repeats(list).no_duplicates(),
        list.no_duplicates() ==> without_repeats(list) == list,
        without_repeats(list).len() <= without_repeats(list + more).len(),
        without_repeats(list + more).take(without_repeats(list).len() as int) == without_repeats(
            list,
        ),
    decreases list.len() + more.len(),
{
    lemma_same_texts(list, text);
    lemma_no_repeats(list);
    lemma_begins_alike(list, more);
}

proof fn lemma_same_texts(list: Seq<Seq<char>>, text: Seq<char>)
    ensures
        without_repeats(list).contains(text) <==> list.contains(text),
    decreases list.len(),
{
    if list.len() > 0 {
        let start = list.drop_last();
        let kept = without_repeats(start);
        lemma_same_texts(start, text);
        if list.contains(text) {
            let k = choose|k: int| 0 <= k < list.len() && list[k] == text;
            if k < start.len() {
                assert(start[k] == text);
            }
        }
        if start.contains(text) {
            let k = choose|k: int| 0 <= k < start.len() && start[k] == text;
            assert(list[k] == text);
        }
        assert(list[list.len() - 1] == list.last());
        if !kept.contains(list.last()) {
            let more = kept.push(list.last());
            assert(more[kept.len() as int] == list.last());
            if kept.contains(text) {
                let k = choose|k: int| 0 <= k < kept.len() && kept[k] == text;
                assert(more[k] == text);
            }
            if more.contains(text) {
                let k = choose|k: int| 0 <= k < more.len() && more[k] == text;
                if k < kept.len() {
                    assert(kept[k] == text);
                }
            }
        }
    }
}

proof fn lemma_no_repeats(list: Seq<Seq<char>>)
    ensures
        without_repeats(list).no_duplicates(),
        list.no_duplicates() ==> without_repeats(list) == list,
    decreases list.len(),
{
    if list.len() > 0 {
        let start = list.drop_last();
        lemma_no_repeats(start);
        if list.no_duplicates() {
            assert(start.no_duplicates());
            if start.contains(list.last()) {
                let k = choose|k: int| 0 <= k < start.len() && start[k] == list.last();
                assert(list[k] == list[list.len() - 1]);
            }
            assert(start.push(list.last()) =~= list);
        }
    }
}

proof fn lemma_begins_alike(list: Seq<Seq<char>>, more: Seq<Seq<char>>)
    ensures
        without_repeats(list).len() <= without_repeats(list + more).len(),
        without_repeats(list + more).take(without_repeats(list).len() as int) == without_repeats(
            list,
        ),
    decreases more.len(),
{
    let kept = without_repeats(list);
    if more.len() > 0 {
        lemma_begins_alike(list, more.drop_last());
        assert((list + more).drop_last() =~= list + more.drop_last());
        let longer = without_repeats(list + more.drop_last());
        assert(longer.push(more.last()).take(kept.len() as int) =~= longer.take(kept.len() as int));
    } else {
        assert(list + more =~= list);
        assert(kept.take(kept.len() as int) =~= kept);
    }
}

/// A table holds for a kind what has been put there, and nothing for a kind of which
/// nothing has been said.
pub proof fn law_tables_hold_what_they_are_given(
    table: Map<Seq<char>, Seq<Seq<char>>>,
    kind: Seq<char>,
)
    ensures
        table.contains_key(kind) ==> list_or_none(table, kind) == table[kind],
        !table.contains_key(kind) ==> list_or_none(table, kind).len() == 0,
{
}

} // verus!
