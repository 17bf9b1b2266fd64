use treereduce::edits::Edits;
use treereduce::id::NodeId;
use treereduce::versioned::Versioned;

fn id(id: usize) -> NodeId {
    NodeId { id }
}

#[test]
fn new_edits_are_empty() {
    let edits = Edits::new();
    assert!(edits.is_empty());
    assert!(!edits.should_omit_id(&id(1)));
    assert_eq!(edits.insertion(id(1)), None);
}

#[test]
fn an_omitted_node_prints_as_nothing() {
    let edits = Edits::new().omit_id(id(1));
    assert!(!edits.is_empty());
    assert!(edits.should_omit_id(&id(1)));
    assert!(!edits.should_omit_id(&id(2)));
    assert!(edits.has_id(&id(1)));
    assert!(!edits.has_id(&id(2)));
    assert_eq!(edits.insertion(id(1)), Some(Vec::new()));
    assert_eq!(edits.insertion(id(2)), None);
}

#[test]
fn omitting_several_omits_each() {
    let edits = Edits::new().omit_id(id(9)).omit_ids(&vec![id(1), id(4), id(1)]);
    for n in [1, 4, 9] {
        assert!(edits.should_omit_id(&id(n)));
    }
    assert!(!edits.should_omit_id(&id(2)));
    assert!(Edits::new().omit_ids(&vec![]).is_empty());
}

#[test]
fn a_replaced_node_prints_as_its_text() {
    let edits = Edits::new().replace_id(id(3), "\u{e4}b".to_string());
    assert!(!edits.is_empty());
    assert!(!edits.should_omit_id(&id(3)));
    assert_eq!(edits.insertion(id(3)), Some(vec![0xc3, 0xa4, b'b']));
    let edits = edits.replace_id(id(3), "c".to_string());
    assert_eq!(edits.insertion(id(3)), Some(vec![b'c']));
}

#[test]
fn an_omitted_node_stays_omitted() {
    let edits = Edits::new().omit_id(id(3)).replace_id(id(3), "c".to_string());
    assert!(edits.should_omit_id(&id(3)));
    assert_eq!(edits.insertion(id(3)), Some(Vec::new()));
    let edits = Edits::new().replace_id(id(3), "c".to_string()).omit_id(id(3));
    assert!(edits.should_omit_id(&id(3)));
}

#[test]
fn a_clone_holds_the_same_edits() {
    let edits = Edits::new().omit_id(id(1)).replace_id(id(2), "x".to_string());
    let copy = edits.clone().omit_id(id(5));
    assert!(copy.should_omit_id(&id(1)));
    assert_eq!(copy.insertion(id(2)), Some(vec![b'x']));
    assert!(!edits.should_omit_id(&id(5)));
}

#[test]
fn every_change_makes_a_new_version() {
    let first = Versioned::new(Edits::new());
    assert_eq!(first.version, 0);
    let second = first.mutate_clone(|e| e.omit_id(id(1)));
    let third = second.mutate_clone(|e| e.omit_id(id(2)));
    assert_eq!(third.version, 2);
    assert!(first.get().is_empty());
    assert!(first.old_version(&second));
    assert!(second.old_version(&third));
    assert!(!second.old_version(&second.clone()));
    assert!(!third.old_version(&second));
    let edits = third.extract();
    assert!(edits.should_omit_id(&id(1)) && edits.should_omit_id(&id(2)));
}
