//! What a grammar says of the kinds of nodes.
use vstd::prelude::*;

use crate::syntax::{Family, FamilyView};
use crate::text::same_text;

verus! {

/// A table from kinds of nodes to lists of texts.
#[derive(Debug)]
pub struct KindTable {
    rows: Vec<(String, Vec<String>)>,
}

/// The values of texts.
pub open spec fn texts(list: Seq<String>) -> Seq<Seq<char>> {
    list.map_values(|s: String| s@)
}

/// The list in the first row for a kind.
spec fn first_list(rows: Seq<(String, Vec<String>)>, kind: Seq<char>) -> Option<Seq<Seq<char>>>
    decreases rows.len(),
{
    if rows.len() == 0 {
        None
    } else if rows[0].0@ == kind {
        Some(texts(rows[0].1@))
    } else {
        first_list(rows.drop_first(), kind)
    }
}

/// Rows for other kinds can be passed over.
proof fn lemma_first_list_skips(rows: Seq<(String, Vec<String>)>, kind: Seq<char>, n: int)
    requires
        0 <= n <= rows.len(),
        forall|k: int| 0 <= k < n ==> (#[trigger] rows[k]).0@ != kind,
    ensures
        first_list(rows, kind) == first_list(rows.skip(n), kind),
    decreases n,
{
    if n == 0 {
        assert(rows.skip(0) =~= rows);
    } else {
        let rest = rows.drop_first();
        assert forall|k: int| 0 <= k < n - 1 implies (#[trigger] rest[k]).0@ != kind by {
            assert(rest[k] == rows[k + 1]);
        }
        assert(rows[0].0@ != kind);
        lemma_first_list_skips(rest, kind, n - 1);
        assert(rest.skip(n - 1) =~= rows.skip(n));
    }
}

/// A row that is set or added decides for its kind alone, if no row before it is
/// for that kind.
proof fn lemma_first_list_set(
    before: Seq<(String, Vec<String>)>,
    after: Seq<(String, Vec<String>)>,
    n: int,
    kind: Seq<char>,
)
    requires
        0 <= n <= before.len(),
        0 <= n < after.len(),
        n == before.len() ==> after == before.push(after[n]),
        n < before.len() ==> after == before.update(n, after[n]) && before[n].0@ == after[n].0@,
        forall|k: int| 0 <= k < n ==> (#[trigger] before[k]).0@ != after[n].0@,
    ensures
        first_list(after, kind) == if kind == after[n].0@ {
            Some(texts(after[n].1@))
        } else {
            first_list(before, kind)
        },
    decreases n,
{
    let rest = before.drop_first();
    if n == 0 {
        if before.len() == 0 {
            assert(after.drop_first() =~= before);
        } else {
            assert(after.drop_first() =~= rest);
        }
    } else {
        assert(before[0].0@ != after[n].0@);
        assert(after[0] == before[0]);
        let next = after.drop_first();
        assert(next[n - 1] == after[n]);
        if n == before.len() {
            assert(next =~= rest.push(next[n - 1]));
        } else {
            assert(next =~= rest.update(n - 1, next[n - 1]));
        }
        assert forall|k: int| 0 <= k < n - 1 implies (#[trigger] rest[k]).0@ != next[n - 1].0@ by {
            assert(rest[k] == before[k + 1]);
        }
        lemma_first_list_set(rest, next, n - 1, kind);
    }
}

impl View for KindTable {
    type V = Map<Seq<char>, Seq<Seq<char>>>;

    closed spec fn view(&self) -> Map<Seq<char>, Seq<Seq<char>>> {
        Map::new(
            |kind: Seq<char>| first_list(self.rows@, kind) is Some,
            |kind: Seq<char>| first_list(self.rows@, kind)->0,
        )
    }
}

impl KindTable {
    /// A table without rows.
    pub fn new() -> (r: Self)
        ensures
            r@ == Map::<Seq<char>, Seq<Seq<char>>>::empty(),
    {
        let r = KindTable { rows: Vec::new() };
        assert(r@ =~= Map::<Seq<char>, Seq<Seq<char>>>::empty());
        r
    }

    /// The place of the first row for a kind, or the number of rows.
    fn position(&self, kind: &str) -> (r: usize)
        ensures
            r <= self.rows.len(),
            r < self.rows.len() ==> self.rows[r as int].0@ == kind@,
            forall|k: int| 0 <= k < r ==> (#[trigger] self.rows[k]).0@ != kind@,
    {
        let mut i: usize = 0;
        while i < self.rows.len()
            invariant
                i <= self.rows.len(),
                forall|k: int| 0 <= k < i ==> (#[trigger] self.rows[k]).0@ != kind@,
            decreases self.rows.len() - i,
        {
            if same_text(self.rows[i].0.as_str(), kind) {
                return i;
            }
            i = i + 1;
        }
        i
    }

    /// Set the list of a kind.
    pub fn insert(&mut self, kind: String, list: Vec<String>)
        ensures
            final(self)@ == old(self)@.insert(kind@, texts(list@)),
    {
        let i: usize = self.position(kind.as_str());
        let ghost before = self.rows@;
        if i < self.rows.len() {
            self.rows[i] = (kind, list);
        } else {
            self.rows.push((kind, list));
        }
        proof {
            assert forall|other: Seq<char>| #[trigger]
                first_list(self.rows@, other) == (if other == kind@ {
                    Some(texts(list@))
                } else {
                    first_list(before, other)
                }) by {
                lemma_first_list_set(before, self.rows@, i as int, other);
            }
            assert(self@ =~= old(self)@.insert(kind@, texts(list@)));
        }
    }

    /// The list of a kind, if there is one.
    pub fn get(&self, kind: &str) -> (r: Option<&Vec<String>>)
        ensures
            match r {
                Some(list) => self@.contains_key(kind@) && texts(list@) == self@[kind@],
                None => !self@.contains_key(kind@),
            },
    {
        let i: usize = self.position(kind);
        proof {
            lemma_first_list_skips(self.rows@, kind@, i as int);
        }
        if i < self.rows.len() {
            Some(&self.rows[i].1)
        } else {
            None
        }
    }
}

/// Rows that hold the same texts give the same lists.
proof fn lemma_first_list_copied(
    a: Seq<(String, Vec<String>)>,
    b: Seq<(String, Vec<String>)>,
    kind: Seq<char>,
)
    requires
        a.len() == b.len(),
        forall|k: int|
            0 <= k < a.len() ==> (#[trigger] a[k]).0@ == b[k].0@ && texts(a[k].1@) == texts(b[k].1@),
    ensures
        first_list(a, kind) == first_list(b, kind),
    decreases a.len(),
{
    if a.len() > 0 {
        let x = a.drop_first();
        let y = b.drop_first();
        assert forall|k: int| 0 <= k < x.len() implies (#[trigger] x[k]).0@ == y[k].0@ && texts(
            x[k].1@,
        ) == texts(y[k].1@) by {
            assert(x[k] == a[k + 1]);
        }
        assert(a[0].0@ == b[0].0@);
        lemma_first_list_copied(x, y, kind);
    }
}

impl Clone for KindTable {
    fn clone(&self) -> (r: Self)
        ensures
            r@ == self@,
    {
        let mut rows: Vec<(String, Vec<String>)> = Vec::new();
        for i in 0..self.rows.len()
            invariant
                rows.len() == i,
                forall|k: int|
                    0 <= k < i ==> (#[trigger] rows[k]).0@ == self.rows[k].0@ && texts(rows[k].1@)
                        == texts(self.rows[k].1@),
        {
            rows.push((self.rows[i].0.clone(), copy_texts(&self.rows[i].1)));
        }
        let r = KindTable { rows };
        proof {
            assert forall|kind: Seq<char>| #[trigger]
                first_list(r.rows@, kind) == first_list(self.rows@, kind) by {
                lemma_first_list_copied(r.rows@, self.rows@, kind);
            }
            assert(r@ =~= self@);
        }
        r
    }
}

/// What a grammar allows.
#[derive(Debug)]
pub struct NodeTypes {
    optional: KindTable,
    lists: KindTable,
    subtypes: KindTable,
}

/// The mathematical value of [`NodeTypes`].
#[verifier::ext_equal]
pub struct NodeTypesView {
    /// For the kind of a parent, the kinds of children that it can do without.
    pub optional: Map<Seq<char>, Seq<Seq<char>>>,
    /// For the kind of a node, the kinds of which it can have many children.
    pub lists: Map<Seq<char>, Seq<Seq<char>>>,
    /// For a kind, the kinds that it stands for.
    pub subtypes: Map<Seq<char>, Seq<Seq<char>>>,
}

impl View for NodeTypes {
    type V = NodeTypesView;

    closed spec fn view(&self) -> NodeTypesView {
        NodeTypesView {
            optional: self.optional@,
            lists: self.lists@,
            subtypes: self.subtypes@,
        }
    }
}

/// The list of a kind, or no texts if there is none.
pub open spec fn list_or_none(
    table: Map<Seq<char>, Seq<Seq<char>>>,
    kind: Seq<char>,
) -> Seq<Seq<char>> {
    if table.contains_key(kind) {
        table[kind]
    } else {
        Seq::empty()
    }
}

/// The list without the texts that have come before in it.
pub open spec fn without_repeats(list: Seq<Seq<char>>) -> Seq<Seq<char>>
    decreases list.len(),
{
    if list.len() == 0 {
        list
    } else {
        let start = without_repeats(list.drop_last());
        if start.contains(list.last()) {
            start
        } else {
            start.push(list.last())
        }
    }
}

proof fn lemma_without_repeats(list: Seq<Seq<char>>)
    ensures
        without_repeats(list).no_duplicates(),
    decreases list.len(),
{
    if list.len() > 0 {
        lemma_without_repeats(list.drop_last());
    }
}

impl NodeTypesView {
    /// Whether the parent of the node can do without it.  A node without a parent
    /// is not optional.
    pub open spec fn optional_node(self, family: FamilyView) -> bool {
        match family.parent_kind {
            Some(parent) => list_or_none(self.optional, parent).contains(family.node.kind),
            None => false,
        }
    }

    /// The kinds of which the node can have many children.
    pub open spec fn list_types(self, family: FamilyView) -> Seq<Seq<char>> {
        list_or_none(self.lists, family.node.kind)
    }

    /// The kinds that a kind stands for: itself, where nothing else is said.
    pub open spec fn subtypes_of(self, kind: Seq<char>) -> Seq<Seq<char>> {
        if self.subtypes.contains_key(kind) {
            self.subtypes[kind]
        } else {
            seq![kind]
        }
    }
}

/// Whether a text is in a list.
fn contains_text(list: &Vec<String>, text: &str) -> (r: bool)
    ensures
        r == texts(list@).contains(text@),
{
    let ghost all = texts(list@);
    let mut i: usize = 0;
    while i < list.len()
        invariant
            i <= list.len(),
            all == texts(list@),
            forall|k: int| 0 <= k < i ==> all[k] != text@,
        decreases list.len() - i,
    {
        if same_text(list[i].as_str(), text) {
            assert(all[i as int] == text@);
            return true;
        }
        i = i + 1;
    }
    false
}

/// A copy of a list of texts.
pub(crate) fn copy_texts(list: &Vec<String>) -> (r: Vec<String>)
    ensures
        texts(r@) == texts(list@),
{
    let mut copied: Vec<String> = Vec::new();
    for i in 0..list.len()
        invariant
            copied.len() == i,
            forall|k: int| 0 <= k < i ==> copied[k]@ == list[k]@,
    {
        copied.push(list[i].clone());
    }
    assert(texts(copied@) =~= texts(list@));
    copied
}

impl Clone for NodeTypes {
    fn clone(&self) -> (r: Self)
        ensures
            r@ == self@,
    {
        proof {
            use_type_invariant(self);
        }
        NodeTypes {
            optional: self.optional.clone(),
            lists: self.lists.clone(),
            subtypes: self.subtypes.clone(),
        }
    }
}

impl NodeTypes {
    /// No kind stands twice for the same kind.
    #[verifier::type_invariant]
    spec fn inv(self) -> bool {
        forall|kind: Seq<char>| #[trigger]
            self.subtypes@.contains_key(kind) ==> self.subtypes@[kind].no_duplicates()
    }

    /// A grammar of which nothing is known.
    pub fn new() -> (r: Self)
        ensures
            r@ == (NodeTypesView {
                optional: Map::empty(),
                lists: Map::empty(),
                subtypes: Map::empty(),
            }),
    {
        NodeTypes { optional: KindTable::new(), lists: KindTable::new(), subtypes: KindTable::new() }
    }

    /// Say which kinds of children the nodes of a kind can do without.
    pub fn set_optional(self, parent: String, kinds: Vec<String>) -> (r: Self)
        ensures
            r@ == (NodeTypesView {
                optional: self@.optional.insert(parent@, texts(kinds@)),
                ..self@
            }),
    {
        proof {
            use_type_invariant(&self);
        }
        let mut optional = self.optional;
        optional.insert(parent, kinds);
        NodeTypes { optional, lists: self.lists, subtypes: self.subtypes }
    }

    /// Say of which kinds the nodes of a kind can have many children.
    pub fn set_lists(self, kind: String, kinds: Vec<String>) -> (r: Self)
        ensures
            r@ == (NodeTypesView { lists: self@.lists.insert(kind@, texts(kinds@)), ..self@ }),
    {
        proof {
            use_type_invariant(&self);
        }
        let mut lists = self.lists;
        lists.insert(kind, kinds);
        NodeTypes { optional: self.optional, lists, subtypes: self.subtypes }
    }

    /// Say which kinds a kind stands for.
    pub fn set_subtypes(self, kind: String, kinds: Vec<String>) -> (r: Self)
        ensures
            r@ == (NodeTypesView {
                subtypes: self@.subtypes.insert(kind@, without_repeats(texts(kinds@))),
                ..self@
            }),
    {
        proof {
            use_type_invariant(&self);
            lemma_without_repeats(texts(kinds@));
        }
        let mut kept: Vec<String> = Vec::new();
        let ghost all = texts(kinds@);
        assert(texts(kept@) =~= without_repeats(all.take(0)));
        for i in 0..kinds.len()
            invariant
                all == texts(kinds@),
                texts(kept@) == without_repeats(all.take(i as int)),
        {
            assert(all.take(i + 1).drop_last() =~= all.take(i as int));
            if !contains_text(&kept, kinds[i].as_str()) {
                let ghost before = texts(kept@);
                kept.push(kinds[i].clone());
                assert(texts(kept@) =~= before.push(all[i as int]));
            }
        }
        assert(all.take(all.len() as int) =~= all);
        let mut subtypes = self.subtypes;
        subtypes.insert(kind, kept);
        NodeTypes { optional: self.optional, lists: self.lists, subtypes }
    }

    /// Whether the parent of a node can do without it.
    pub fn optional_node(&self, family: &Family) -> (r: bool)
        ensures
            r == self@.optional_node(family@),
    {
        match family.parent_kind {
            Some(parent) => match self.optional.get(parent) {
                Some(kinds) => contains_text(kinds, family.node.kind),
                None => false,
            },
            None => false,
        }
    }

    /// The kinds of which a node can have many children.
    pub fn list_types(&self, family: &Family) -> (r: Vec<String>)
        ensures
            texts(r@) == self@.list_types(family@),
    {
        match self.lists.get(family.node.kind) {
            Some(kinds) => copy_texts(kinds),
            None => {
                let r: Vec<String> = Vec::new();
                assert(texts(r@) =~= Seq::empty());
                r
            },
        }
    }

    /// The kinds that a kind stands for, none of them twice.
    pub fn subtypes(&self, kind: &str) -> (r: Vec<String>)
        ensures
            texts(r@) == self@.subtypes_of(kind@),
            self@.subtypes_of(kind@).no_duplicates(),
    {
        proof {
            use_type_invariant(self);
        }
        match self.subtypes.get(kind) {
            Some(kinds) => copy_texts(kinds),
            None => {
                let mut r: Vec<String> = Vec::new();
                r.push(kind.to_owned());
                assert(texts(r@) =~= seq![kind@]);
                r
            },
        }
    }
}

} // verus!
