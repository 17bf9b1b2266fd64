use treereduce::edits::Edits;
use treereduce::id::NodeId;
use treereduce::nodes::NodeTable;
use treereduce::original::Original;
use treereduce::parse::parse;
use treereduce::syntax::{families, node_size, root, Family};

fn program(text: &str) -> Original {
    let tree = parse(tree_sitter_c::language(), text.as_bytes()).unwrap();
    Original::new(tree, text.as_bytes().to_vec())
}

fn of_kind(orig: &Original, kind: &str) -> Vec<NodeId> {
    families(&orig.tree)
        .iter()
        .filter(|f| f.node.kind == kind)
        .map(|f| f.node.id)
        .collect()
}

fn print(orig: &Original, edits: &Edits) -> (bool, String) {
    let (changed, text) = orig.render(edits).unwrap();
    (changed, String::from_utf8(text).unwrap())
}

#[test]
fn a_tree_is_listed_parents_first() {
    let orig = program("int x; f;");
    let all = families(&orig.tree);
    let first: &Family = &all[0];
    assert_eq!(first.node.kind, "translation_unit");
    assert_eq!(first.parent_kind, None);
    assert_eq!(first.node.id, root(&orig.tree).id);
    let kinds: Vec<&str> = all.iter().map(|f| f.node.kind).collect();
    assert_eq!(
        kinds,
        vec![
            "translation_unit",
            "declaration",
            "primitive_type",
            "identifier",
            ";",
            "expression_statement",
            "identifier",
            ";"
        ]
    );
    assert_eq!(all[1].parent_kind, Some("translation_unit"));
    assert_eq!(all[2].parent_kind, Some("declaration"));
    let below: Vec<&str> = all[1].children.iter().map(|n| n.kind).collect();
    assert_eq!(below, vec!["primitive_type", "identifier", ";"]);
    assert_eq!((all[3].node.start_byte, all[3].node.end_byte), (4, 5));
    assert_eq!(node_size(&all[2].node), 3);
    for i in 0..all.len() {
        for j in 0..i {
            assert_ne!(all[i].node.id, all[j].node.id);
        }
    }
}

#[test]
fn a_table_finds_every_node() {
    let orig = program("int main(int argc, char *argv[]) { return 0 + 1; }");
    let table = NodeTable::of_tree(&orig.tree);
    for family in families(&orig.tree) {
        assert!(table.contains(&family.node.id));
        let found = table.find(&family.node.id);
        assert_eq!(found.node.kind, family.node.kind);
        assert_eq!(found.node.start_byte, family.node.start_byte);
        assert_eq!(found.node.end_byte, family.node.end_byte);
        assert_eq!(found.parent_kind, family.parent_kind);
        assert_eq!(found.children.len(), family.children.len());
        for child in &family.children {
            assert!(table.contains(&child.id));
        }
    }
    assert!(!table.contains(&NodeId { id: 1 }));
}

#[test]
fn no_edits_keep_the_text() {
    let text = "int main(int argc, char *argv[]) { return 0; }";
    let orig = program(text);
    assert_eq!(print(&orig, &Edits::new()), (false, text.to_string()));
    // An edit of a node that is not in the tree changes nothing.
    let elsewhere = Edits::new().omit_id(NodeId { id: 1 });
    assert_eq!(print(&orig, &elsewhere), (false, text.to_string()));
}

#[test]
fn deleting_a_node_removes_its_bytes() {
    let orig = program("int x; int y; int z;");
    let declarations = of_kind(&orig, "declaration");
    let edits = Edits::new().omit_id(declarations[1]);
    assert_eq!(print(&orig, &edits), (true, "int x;  int z;".to_string()));
    let edits = edits.omit_id(root(&orig.tree).id);
    assert_eq!(print(&orig, &edits), (true, "".to_string()));
}

#[test]
fn deleting_never_lengthens() {
    let text = "int f(int a) { if (a) { return a + 1; } return 2; }";
    let orig = program(text);
    let all = families(&orig.tree);
    let mut edits = Edits::new();
    for family in &all {
        let single = print(&orig, &Edits::new().omit_id(family.node.id)).1;
        assert_eq!(single.len(), text.len() - node_size(&family.node));
    }
    for family in all.iter().rev() {
        edits = edits.omit_id(family.node.id);
        assert!(print(&orig, &edits).1.len() <= text.len());
    }
}

#[test]
fn replacing_a_node_replaces_its_bytes() {
    let orig = program("int main(int argc, char *argv[]) { return 0 + 0; }");
    let sum = of_kind(&orig, "binary_expression")[0];
    let edits = Edits::new().replace_id(sum, "100 + 100000".to_string());
    assert_eq!(
        print(&orig, &edits),
        (true, "int main(int argc, char *argv[]) { return 100 + 100000; }".to_string())
    );
}

#[test]
fn an_edit_inside_of_an_edited_node_is_not_seen() {
    let orig = program("int main() { return 0 + 0; }");
    let sum = of_kind(&orig, "binary_expression")[0];
    let number = of_kind(&orig, "number_literal")[1];
    let edits = Edits::new().replace_id(number, "7".to_string());
    assert_eq!(print(&orig, &edits).1, "int main() { return 0 + 7; }");
    let edits = Edits::new().replace_id(sum, "1".to_string());
    let both = edits.clone().replace_id(number, "7".to_string());
    assert_eq!(print(&orig, &edits).1, "int main() { return 1; }");
    assert_eq!(print(&orig, &both).1, "int main() { return 1; }");
    let both = edits.omit_id(number);
    assert_eq!(print(&orig, &both).1, "int main() { return 1; }");
}

#[test]
fn an_edited_node_must_lie_inside_of_the_text() {
    assert!(program("int x;").check_sizes());
    assert!(program("").check_sizes());
    assert!(program("").check_nested());
    assert!(program("int f(int a) { if (a) { return a + 1; } return 2; }").check_nested());
    let tree = parse(tree_sitter_c::language(), b"int x; int y;").unwrap();
    let orig = Original::new(tree, b"int x;".to_vec());
    assert!(orig.check_sizes());
    assert!(orig.check_bounds(&Edits::new()));
    assert_eq!(print(&orig, &Edits::new()), (false, "int x;".to_string()));
    let declarations = of_kind(&orig, "declaration");
    let inside = Edits::new().omit_id(declarations[0]);
    assert!(orig.check_bounds(&inside));
    assert_eq!(print(&orig, &inside), (true, "".to_string()));
    assert!(!orig.check_bounds(&inside.omit_id(declarations[1])));
}
