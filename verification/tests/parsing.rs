use tree_sitter::{Language, Node, Parser, Tree};
use tree_splicer::parsing::{
    assemble, capture, language_or_error, parse, taken, tree_or_error, ParseError, RawNode,
};
use tree_splicer::snapshot::Snapshot;

const COUNTER: &str = "contract Counter {\n    uint256 public count;\n    function inc(uint256 by) public {\n        count = count + by;\n    }\n}\n";

fn solidity() -> Language {
    Language::from(tree_sitter_solidity::LANGUAGE)
}

fn parse_direct(code: &str) -> Tree {
    let mut parser = Parser::new();
    parser.set_language(&solidity()).unwrap();
    parser.parse(code, None).unwrap()
}

struct Expected {
    id: usize,
    kind: String,
    start: usize,
    end: usize,
    children: Vec<usize>,
}

fn preorder(node: Node, out: &mut Vec<Expected>) {
    let mut children = Vec::new();
    let mut i = 0;
    while let Some(child) = node.child(i) {
        children.push(child.id());
        i += 1;
    }
    out.push(Expected {
        id: node.id(),
        kind: node.kind().to_string(),
        start: node.start_byte(),
        end: node.end_byte(),
        children,
    });
    let mut i = 0;
    while let Some(child) = node.child(i) {
        preorder(child, out);
        i += 1;
    }
}

fn assert_follows(shape: &Snapshot, tree: &Tree) {
    let mut expected = Vec::new();
    preorder(tree.root_node(), &mut expected);
    assert_eq!(shape.nodes.len(), expected.len());
    for (record, node) in shape.nodes.iter().zip(expected.iter()) {
        assert_eq!(record.id, node.id);
        assert_eq!(record.kind, node.kind);
        assert_eq!(record.start, node.start);
        assert_eq!(record.end, node.end);
        let ids: Vec<usize> = record.children.iter().map(|&c| shape.nodes[c].id).collect();
        assert_eq!(ids, node.children);
    }
}

#[test]
fn capture_follows_the_tree() {
    let tree = parse_direct(COUNTER);
    let shape = capture(&tree, COUNTER.len()).unwrap();
    assert!(shape.nodes.len() > 10);
    assert!(shape.is_well_formed());
    assert_eq!(shape.nodes[0].kind, "source_file");
    assert_eq!(shape.nodes[0].start, 0);
    assert_eq!(shape.nodes[0].end, COUNTER.len());
    assert_follows(&shape, &tree);
}

#[test]
fn capture_follows_a_tree_with_errors() {
    let code = "contract { function ( uint ; }} pragma";
    let tree = parse_direct(code);
    let shape = capture(&tree, code.len()).unwrap();
    assert_follows(&shape, &tree);
}

#[test]
fn capture_of_an_empty_text_has_only_a_root() {
    let tree = parse_direct("");
    let shape = capture(&tree, 0).unwrap();
    assert_eq!(shape.nodes.len(), 1);
    assert_eq!(shape.nodes[0].kind, "source_file");
    assert!(shape.nodes[0].children.is_empty());
    assert_eq!((shape.nodes[0].start, shape.nodes[0].end), (0, 0));
}

#[test]
fn capture_refuses_a_text_that_is_too_short() {
    let tree = parse_direct(COUNTER);
    assert!(capture(&tree, COUNTER.len() - 1).is_none());
    assert!(capture(&tree, 0).is_none());
}

#[test]
fn parse_gives_the_tree_of_the_parser() {
    let tree = parse(&solidity(), COUNTER.as_bytes()).unwrap();
    let direct = parse_direct(COUNTER);
    assert_eq!(tree.root_node().to_sexp(), direct.root_node().to_sexp());
    assert_eq!(tree.root_node().kind(), "source_file");
    assert_eq!(tree.root_node().end_byte(), COUNTER.len());
}

#[test]
fn parse_takes_bytes_that_are_not_utf8() {
    let code: Vec<u8> = vec![b'c', 0xff, 0xfe, b'\n'];
    let tree = parse(&solidity(), &code).unwrap();
    assert_eq!(tree.root_node().end_byte(), code.len());
    assert!(capture(&tree, code.len()).is_some());
}

#[test]
fn parse_errors_compare() {
    assert_ne!(ParseError::Language, ParseError::NoTree);
}

fn raw(id: usize, kind: &str, start: usize, end: usize, size: usize) -> RawNode {
    RawNode { id, kind: kind.to_string(), start, end, size }
}

/// `a+b` in document order: a sum over a name, a sign and a name.
fn sum() -> Vec<RawNode> {
    vec![
        raw(10, "sum", 0, 3, 4),
        raw(11, "name", 0, 1, 1),
        raw(12, "+", 1, 2, 1),
        raw(13, "name", 2, 3, 1),
    ]
}

fn children(shape: &Snapshot) -> Vec<Vec<usize>> {
    shape.nodes.iter().map(|node| node.children.clone()).collect()
}

#[test]
fn assemble_gives_each_node_its_children() {
    let shape = assemble(&sum(), 3).unwrap();
    assert_eq!(children(&shape), vec![vec![1, 2, 3], vec![], vec![], vec![]]);
    let ids: Vec<usize> = shape.nodes.iter().map(|node| node.id).collect();
    assert_eq!(ids, vec![10, 11, 12, 13]);
    let kinds: Vec<&str> = shape.nodes.iter().map(|node| node.kind.as_str()).collect();
    assert_eq!(kinds, vec!["sum", "name", "+", "name"]);
    let spans: Vec<(usize, usize)> = shape.nodes.iter().map(|node| (node.start, node.end)).collect();
    assert_eq!(spans, vec![(0, 3), (0, 1), (1, 2), (2, 3)]);
}

#[test]
fn assemble_goes_by_the_sizes_of_the_subtrees() {
    let raws = vec![
        raw(1, "root", 0, 9, 7),
        raw(2, "a", 0, 4, 3),
        raw(3, "b", 0, 2, 2),
        raw(4, "c", 0, 1, 1),
        raw(5, "d", 4, 9, 3),
        raw(6, "e", 4, 5, 1),
        raw(7, "f", 5, 9, 1),
    ];
    let shape = assemble(&raws, 9).unwrap();
    assert_eq!(
        children(&shape),
        vec![vec![1, 4], vec![2], vec![3], vec![], vec![5, 6], vec![], vec![]]
    );
    assert_eq!(shape.all_nodes(), vec![1, 4, 2, 5, 6, 3]);
}

#[test]
fn assemble_takes_a_root_alone() {
    let shape = assemble(&vec![raw(1, "source_file", 0, 0, 1)], 0).unwrap();
    assert_eq!(children(&shape), vec![Vec::<usize>::new()]);
}

#[test]
fn assemble_refuses_no_nodes() {
    assert!(assemble(&Vec::new(), 3).is_none());
}

#[test]
fn assemble_refuses_a_span_beyond_the_text() {
    assert!(assemble(&sum(), 2).is_none());
    assert!(assemble(&sum(), 3).is_some());
    assert!(assemble(&sum(), 4).is_some());
}

#[test]
fn assemble_refuses_a_span_that_ends_before_it_starts() {
    let mut raws = sum();
    raws[2] = raw(12, "+", 2, 1, 1);
    assert!(assemble(&raws, 3).is_none());
}

#[test]
fn assemble_refuses_a_root_that_is_not_the_whole() {
    let mut raws = sum();
    raws[0].size = 3;
    assert!(assemble(&raws, 3).is_none());
    raws[0].size = 5;
    assert!(assemble(&raws, 3).is_none());
}

#[test]
fn assemble_refuses_sizes_that_do_not_nest() {
    let mut raws = sum();
    raws[1].size = 0;
    assert!(assemble(&raws, 3).is_none());
    let mut raws = sum();
    raws[3].size = 2;
    assert!(assemble(&raws, 3).is_none());
    let raws = vec![
        raw(1, "root", 0, 9, 4),
        raw(2, "a", 0, 4, 2),
        raw(3, "b", 0, 2, 2),
        raw(4, "c", 0, 1, 1),
    ];
    assert!(assemble(&raws, 9).is_none());
}

#[test]
fn tree_or_error_hands_the_tree_on() {
    let tree = parse_direct(COUNTER);
    let sexp = tree.root_node().to_sexp();
    let parsed = tree_or_error(Some(tree)).unwrap();
    assert_eq!(parsed.root_node().to_sexp(), sexp);
}

#[test]
fn tree_or_error_names_the_missing_tree() {
    assert_eq!(tree_or_error(None).err(), Some(ParseError::NoTree));
}

#[test]
fn language_or_error_takes_a_grammar_that_was_taken() {
    let mut parser = Parser::new();
    let set = parser.set_language(&solidity());
    assert_eq!(language_or_error(set), Ok(()));
    assert_eq!(language_or_error(Ok(())), Ok(()));
}

#[test]
fn parse_gives_a_tree_for_a_grammar_that_is_taken() {
    let texts: [&[u8]; 4] = [b"", b"contract {", COUNTER.as_bytes(), &[0xff, 0x00, 0xfe]];
    for text in texts {
        assert!(parse(&solidity(), text).is_ok());
    }
}

#[test]
fn taken_is_the_grammar_that_a_parser_takes() {
    assert!(taken(&solidity()));
    let mut parser = Parser::new();
    assert_eq!(taken(&solidity()), parser.set_language(&solidity()).is_ok());
}
