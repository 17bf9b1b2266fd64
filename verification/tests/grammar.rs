use treereduce::id::NodeId;
use treereduce::node_types::{KindTable, NodeTypes};
use treereduce::syntax::{Family, SyntaxNode};

fn texts(list: &[&str]) -> Vec<String> {
    list.iter().map(|s| s.to_string()).collect()
}

fn family(kind: &'static str, parent_kind: Option<&'static str>) -> Family {
    Family {
        node: SyntaxNode { id: NodeId { id: 1 }, kind, start_byte: 0, end_byte: 1 },
        parent_kind,
        children: vec![],
    }
}

#[test]
fn a_table_gives_back_what_was_set_last() {
    let mut table = KindTable::new();
    assert!(table.get("a").is_none());
    table.insert("a".to_string(), texts(&["x", "y"]));
    table.insert("b".to_string(), texts(&[]));
    table.insert("a".to_string(), texts(&["z"]));
    assert_eq!(table.get("a"), Some(&texts(&["z"])));
    assert_eq!(table.get("b"), Some(&texts(&[])));
    assert_eq!(table.get("ab"), None);
    assert_eq!(table.clone().get("a"), Some(&texts(&["z"])));
}

#[test]
fn a_node_is_optional_where_its_parent_can_do_without_it() {
    let types = NodeTypes::new()
        .set_optional("block".to_string(), texts(&["statement", "comment"]));
    assert!(types.optional_node(&family("statement", Some("block"))));
    assert!(types.optional_node(&family("comment", Some("block"))));
    assert!(!types.optional_node(&family("number", Some("block"))));
    assert!(!types.optional_node(&family("statement", Some("loop"))));
    assert!(!types.optional_node(&family("statement", None)));
}

#[test]
fn lists_go_by_the_kind_of_the_node() {
    let types = NodeTypes::new().set_lists("block".to_string(), texts(&["statement"]));
    assert_eq!(types.list_types(&family("block", None)), texts(&["statement"]));
    assert_eq!(types.list_types(&family("loop", Some("block"))), texts(&[]));
}

#[test]
fn a_kind_stands_for_its_subtypes_or_for_itself() {
    let types =
        NodeTypes::new().set_subtypes("statement".to_string(), texts(&["if", "for", "if"]));
    assert_eq!(types.subtypes("statement"), texts(&["if", "for"]));
    assert_eq!(types.subtypes("if"), texts(&["if"]));
    assert_eq!(types.clone().subtypes("statement"), texts(&["if", "for"]));
}
