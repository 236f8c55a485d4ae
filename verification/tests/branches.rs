use tree_splicer::branches::Branches;
use tree_splicer::snapshot::{NodeRecord, Snapshot};

fn record(id: usize, kind: &str, start: usize, end: usize, children: Vec<usize>) -> NodeRecord {
    NodeRecord { id, kind: kind.to_string(), start, end, children }
}

fn pools(table: &Branches) -> Vec<(String, Vec<Vec<u8>>)> {
    table.pools.iter().map(|pool| (pool.kind.clone(), pool.fragments.clone())).collect()
}

fn bytes(text: &str) -> Vec<u8> {
    text.as_bytes().to_vec()
}

/// `a+b` as a sum of two names.
fn sum() -> Snapshot {
    Snapshot {
        nodes: vec![
            record(1, "sum", 0, 3, vec![1, 2, 3]),
            record(2, "name", 0, 1, vec![]),
            record(3, "+", 1, 2, vec![]),
            record(4, "name", 2, 3, vec![]),
        ],
    }
}

#[test]
fn new_of_an_empty_corpus_is_empty() {
    let table = Branches::new(&Vec::new());
    assert!(table.pools.is_empty());
    assert_eq!(table.possible(), 0);
}

#[test]
fn new_sees_the_root_first_and_then_the_levels() {
    let shape = sum();
    let table = Branches::new(&vec![("a+b".as_bytes(), &shape)]);
    assert_eq!(
        pools(&table),
        vec![
            ("sum".to_string(), vec![bytes("a+b")]),
            ("name".to_string(), vec![bytes("a"), bytes("b")]),
            ("+".to_string(), vec![bytes("+")]),
        ]
    );
}

#[test]
fn new_keeps_a_fragment_once() {
    let shape = sum();
    let table = Branches::new(&vec![("a+a".as_bytes(), &shape)]);
    assert_eq!(
        pools(&table),
        vec![
            ("sum".to_string(), vec![bytes("a+a")]),
            ("name".to_string(), vec![bytes("a")]),
            ("+".to_string(), vec![bytes("+")]),
        ]
    );
    assert_eq!(table.possible(), 0);
}

#[test]
fn new_covers_the_whole_corpus() {
    let first = sum();
    let second = sum();
    let third = Snapshot { nodes: vec![record(9, "name", 0, 1, vec![])] };
    let table = Branches::new(&vec![
        ("a+b".as_bytes(), &first),
        ("c+a".as_bytes(), &second),
        ("d".as_bytes(), &third),
    ]);
    assert_eq!(
        pools(&table),
        vec![
            ("sum".to_string(), vec![bytes("a+b"), bytes("c+a")]),
            ("name".to_string(), vec![bytes("a"), bytes("b"), bytes("c"), bytes("d")]),
            ("+".to_string(), vec![bytes("+")]),
        ]
    );
}

#[test]
fn possible_sums_the_fragments_less_one_of_each_pool() {
    let first = sum();
    let second = sum();
    let table = Branches::new(&vec![("a+b".as_bytes(), &first), ("c+a".as_bytes(), &second)]);
    // sum: 2 fragments, name: 3, +: 1.
    assert_eq!(table.possible(), 1 + 2 + 0);
}

#[test]
fn possible_of_a_root_alone_is_zero() {
    let shape = Snapshot { nodes: vec![record(7, "source_file", 0, 5, vec![])] };
    let table = Branches::new(&vec![("hello".as_bytes(), &shape)]);
    assert_eq!(pools(&table), vec![("source_file".to_string(), vec![bytes("hello")])]);
    assert_eq!(table.possible(), 0);
}

#[test]
fn new_passes_over_what_the_root_does_not_reach() {
    let shape = Snapshot {
        nodes: vec![record(1, "root", 0, 2, vec![]), record(2, "stray", 0, 1, vec![])],
    };
    let table = Branches::new(&vec![("ab".as_bytes(), &shape)]);
    assert_eq!(pools(&table), vec![("root".to_string(), vec![bytes("ab")])]);
}

#[test]
fn new_keeps_an_empty_fragment() {
    let shape = Snapshot {
        nodes: vec![record(1, "root", 0, 2, vec![1]), record(2, "missing", 1, 1, vec![])],
    };
    let table = Branches::new(&vec![("ab".as_bytes(), &shape)]);
    assert_eq!(
        pools(&table),
        vec![("root".to_string(), vec![bytes("ab")]), ("missing".to_string(), vec![Vec::new()])]
    );
}

#[test]
fn insert_adds_a_pool_then_a_fragment_then_nothing() {
    let mut table = Branches::empty();
    table.insert(&"name".to_string(), bytes("a"));
    assert_eq!(pools(&table), vec![("name".to_string(), vec![bytes("a")])]);
    table.insert(&"name".to_string(), bytes("b"));
    assert_eq!(pools(&table), vec![("name".to_string(), vec![bytes("a"), bytes("b")])]);
    table.insert(&"name".to_string(), bytes("a"));
    assert_eq!(pools(&table), vec![("name".to_string(), vec![bytes("a"), bytes("b")])]);
    table.insert(&"number".to_string(), bytes("a"));
    assert_eq!(
        pools(&table),
        vec![
            ("name".to_string(), vec![bytes("a"), bytes("b")]),
            ("number".to_string(), vec![bytes("a")]),
        ]
    );
    assert_eq!(table.possible(), 1);
}

#[test]
fn find_gives_the_place_of_a_kind() {
    let shape = sum();
    let table = Branches::new(&vec![("a+b".as_bytes(), &shape)]);
    assert_eq!(table.find(&"sum".to_string()), Some(0));
    assert_eq!(table.find(&"name".to_string()), Some(1));
    assert_eq!(table.find(&"+".to_string()), Some(2));
    assert_eq!(table.find(&"number".to_string()), None);
}

#[test]
fn see_takes_the_text_that_the_node_spans() {
    let shape = sum();
    let mut table = Branches::empty();
    table.see("x+yz".as_bytes(), &shape, 3);
    assert_eq!(pools(&table), vec![("name".to_string(), vec![bytes("y")])]);
}
