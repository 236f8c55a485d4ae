use tree_splicer::edits::Edits;
use tree_splicer::node_types::{ChildRule, NodeTypes};
use tree_splicer::snapshot::NodeRecord;

#[test]
fn edits_start_empty() {
    let edits = Edits::new();
    assert!(!edits.has_edit(0));
    assert!(!edits.has_edit(17));
    let edits = Edits::default();
    assert!(!edits.has_edit(17));
}

#[test]
fn edits_hold_what_was_put_down() {
    let mut edits = Edits::new();
    edits.insert(17, b"seventeen");
    edits.insert(4, b"");
    assert!(edits.has_edit(17));
    assert!(edits.has_edit(4));
    assert!(!edits.has_edit(5));
    assert_eq!(edits.edit(17), b"seventeen".to_vec());
    assert_eq!(edits.edit(4), Vec::<u8>::new());
}

#[test]
fn edits_keep_the_later_replacement() {
    let mut edits = Edits::new();
    edits.insert(17, b"first");
    edits.insert(17, b"second");
    assert_eq!(edits.edit(17), b"second".to_vec());
}

#[test]
fn node_types_know_their_kinds() {
    let types = NodeTypes::new(vec!["comment".to_string(), "visibility".to_string()]);
    assert!(types.optional_kind(&"comment".to_string()));
    assert!(types.optional_kind(&"visibility".to_string()));
    assert!(!types.optional_kind(&"contract_declaration".to_string()));
    assert!(!types.optional_kind(&"".to_string()));
    assert!(!NodeTypes::new(Vec::new()).optional_kind(&"comment".to_string()));
}

#[test]
fn node_types_go_by_the_kind_of_a_node() {
    let types = NodeTypes::new(vec!["comment".to_string()]);
    let node = |kind: &str| NodeRecord {
        id: 1,
        kind: kind.to_string(),
        start: 0,
        end: 0,
        children: Vec::new(),
    };
    assert!(types.optional_node(&node("comment")));
    assert!(!types.optional_node(&node("comments")));
}

#[test]
fn node_types_of_rules_take_the_kinds_that_need_not_be_there() {
    let rule = |required: bool, kinds: &[&str]| ChildRule {
        required,
        kinds: kinds.iter().map(|kind| kind.to_string()).collect(),
    };
    let rules = vec![
        rule(true, &["name", "body"]),
        rule(false, &["visibility", "name"]),
        rule(false, &[]),
        rule(false, &["comment"]),
        rule(true, &["statement"]),
    ];
    let types = NodeTypes::from_rules(&rules);
    for kind in ["visibility", "name", "comment"] {
        assert!(types.optional_kind(&kind.to_string()));
    }
    for kind in ["body", "statement", "other", ""] {
        assert!(!types.optional_kind(&kind.to_string()));
    }
    assert!(!NodeTypes::from_rules(&Vec::new()).optional_kind(&"name".to_string()));
    assert!(!NodeTypes::from_rules(&vec![rule(true, &["name"])]).optional_kind(&"name".to_string()));
}
