use rand::rngs::StdRng;
use rand::SeedableRng;
use tree_splicer::branches::Branches;
use tree_splicer::node_types::NodeTypes;
use tree_splicer::rng::{hits, roll};
use tree_splicer::select::{
    choose_pool, delete_node, deletion_targets, keeps, pick_among, pick_fragment, pick_node,
    pool_for, select, splice_node,
};
use tree_splicer::snapshot::{NodeRecord, Snapshot};

fn record(id: usize, kind: &str, start: usize, end: usize, children: Vec<usize>) -> NodeRecord {
    NodeRecord { id, kind: kind.to_string(), start, end, children }
}

fn two_levels() -> Snapshot {
    Snapshot {
        nodes: vec![
            record(100, "root", 0, 10, vec![1, 4]),
            record(101, "left", 0, 5, vec![2, 3]),
            record(102, "leaf", 0, 2, vec![]),
            record(103, "leaf", 3, 5, vec![]),
            record(104, "right", 6, 10, vec![5]),
            record(105, "leaf", 6, 10, vec![]),
        ],
    }
}

fn sum() -> Snapshot {
    Snapshot {
        nodes: vec![
            record(1, "sum", 0, 3, vec![1, 2, 3]),
            record(2, "name", 0, 1, vec![]),
            record(3, "+", 1, 2, vec![]),
            record(4, "name", 2, 3, vec![]),
        ],
    }
}

fn types(optional: &[&str]) -> NodeTypes {
    NodeTypes::new(optional.iter().map(|kind| kind.to_string()).collect())
}

/// sum: `a+b`, `c+a`; name: `a`, `b`, `c`; +: `+`.
fn table() -> Branches {
    let first = sum();
    let second = sum();
    Branches::new(&vec![("a+b".as_bytes(), &first), ("c+a".as_bytes(), &second)])
}

#[test]
fn select_takes_the_node_at_the_draw() {
    assert_eq!(select(&vec![5, 6, 7], 0), 5);
    assert_eq!(select(&vec![5, 6, 7], 1), 6);
    assert_eq!(select(&vec![5, 6, 7], 2), 7);
}

#[test]
fn select_takes_the_root_where_there_are_no_nodes() {
    assert_eq!(select(&Vec::new(), 0), 0);
}

#[test]
fn pick_among_draws_every_node_and_no_other() {
    let mut rng = StdRng::seed_from_u64(1);
    let nodes = vec![11, 22, 33];
    let mut seen = [0usize; 3];
    for _ in 0..300 {
        let node = pick_among(&mut rng, &nodes);
        let at = nodes.iter().position(|&n| n == node).unwrap();
        seen[at] += 1;
    }
    assert!(seen.iter().all(|&count| count > 50));
}

#[test]
fn pick_among_gives_the_root_where_there_are_no_nodes() {
    let mut rng = StdRng::seed_from_u64(1);
    assert_eq!(pick_among(&mut rng, &Vec::new()), 0);
}

#[test]
fn pick_among_draws_nothing_where_there_are_no_nodes() {
    let mut rng = StdRng::seed_from_u64(1);
    let before = rng.clone();
    pick_among(&mut rng, &Vec::new());
    assert_eq!(rng, before);
    pick_among(&mut rng, &vec![4, 5]);
    assert_ne!(rng, before);
}

#[test]
fn pick_node_draws_nothing_where_the_root_is_alone() {
    let mut rng = StdRng::seed_from_u64(2);
    let before = rng.clone();
    let shape = Snapshot { nodes: vec![record(7, "source_file", 0, 0, vec![])] };
    assert_eq!(pick_node(&mut rng, &shape), 0);
    assert_eq!(rng, before);
}

#[test]
fn pick_node_draws_below_the_root() {
    let mut rng = StdRng::seed_from_u64(2);
    let shape = two_levels();
    let mut seen = [false; 6];
    for _ in 0..300 {
        seen[pick_node(&mut rng, &shape)] = true;
    }
    assert_eq!(seen, [false, true, true, true, true, true]);
}

#[test]
fn pick_node_gives_the_root_where_it_is_alone() {
    let mut rng = StdRng::seed_from_u64(2);
    let shape = Snapshot { nodes: vec![record(7, "source_file", 0, 0, vec![])] };
    assert_eq!(pick_node(&mut rng, &shape), 0);
}

#[test]
fn hits_are_the_draws_below_the_percentage() {
    assert!(hits(0, 1));
    assert!(!hits(0, 0));
    assert!(hits(29, 30));
    assert!(!hits(30, 30));
    assert!(!hits(99, 30));
    assert!(hits(99, 100));
    assert!(hits(99, 255));
}

#[test]
fn roll_never_hits_at_zero_and_always_at_a_hundred() {
    let mut rng = StdRng::seed_from_u64(3);
    for _ in 0..200 {
        assert!(!roll(&mut rng, 0));
        assert!(roll(&mut rng, 100));
        assert!(roll(&mut rng, 255));
    }
}

#[test]
fn roll_hits_about_as_often_as_asked() {
    let mut rng = StdRng::seed_from_u64(4);
    let hits = (0..2000).filter(|_| roll(&mut rng, 25)).count();
    assert!(hits > 400 && hits < 600);
}

#[test]
fn deletion_targets_are_the_optional_nodes() {
    let among = deletion_targets(&two_levels(), vec![1, 4, 2, 3, 5], &types(&["leaf"]), false);
    assert_eq!(among, vec![2, 3, 5]);
    let among =
        deletion_targets(&two_levels(), vec![1, 4, 2, 3, 5], &types(&["right", "left"]), false);
    assert_eq!(among, vec![1, 4]);
}

#[test]
fn deletion_targets_are_all_nodes_under_chaos() {
    let among = deletion_targets(&two_levels(), vec![1, 4, 2, 3, 5], &types(&["leaf"]), true);
    assert_eq!(among, vec![1, 4, 2, 3, 5]);
}

#[test]
fn deletion_targets_are_all_nodes_where_none_is_optional() {
    let among = deletion_targets(&two_levels(), vec![1, 4, 2, 3, 5], &types(&["other"]), false);
    assert_eq!(among, vec![1, 4, 2, 3, 5]);
    let among = deletion_targets(&two_levels(), vec![1, 4, 2, 3, 5], &types(&[]), false);
    assert_eq!(among, vec![1, 4, 2, 3, 5]);
}

#[test]
fn delete_node_without_chaos_takes_an_optional_node() {
    let mut rng = StdRng::seed_from_u64(5);
    let shape = two_levels();
    for _ in 0..100 {
        let edit = delete_node(&mut rng, 0, &types(&["right"]), &shape);
        assert_eq!(edit.node, 4);
        assert!(edit.bytes.is_empty());
    }
    let mut seen = [false; 6];
    for _ in 0..300 {
        seen[delete_node(&mut rng, 0, &types(&["leaf"]), &shape).node] = true;
    }
    assert_eq!(seen, [false, false, true, true, false, true]);
}

#[test]
fn delete_node_under_chaos_takes_any_node() {
    let mut rng = StdRng::seed_from_u64(6);
    let shape = two_levels();
    let mut seen = [false; 6];
    for _ in 0..300 {
        let edit = delete_node(&mut rng, 100, &types(&["right"]), &shape);
        assert!(edit.bytes.is_empty());
        seen[edit.node] = true;
    }
    assert_eq!(seen, [false, true, true, true, true, true]);
}

#[test]
fn delete_node_takes_any_node_where_none_is_optional() {
    let mut rng = StdRng::seed_from_u64(7);
    let shape = two_levels();
    let mut seen = [false; 6];
    for _ in 0..300 {
        seen[delete_node(&mut rng, 0, &types(&[]), &shape).node] = true;
    }
    assert_eq!(seen, [false, true, true, true, true, true]);
}

#[test]
fn delete_node_takes_the_root_where_it_is_alone() {
    let mut rng = StdRng::seed_from_u64(7);
    let shape = Snapshot { nodes: vec![record(7, "source_file", 0, 3, vec![])] };
    let edit = delete_node(&mut rng, 0, &types(&["source_file"]), &shape);
    assert_eq!(edit.node, 0);
    assert!(edit.bytes.is_empty());
}

#[test]
fn pool_for_takes_the_pool_of_the_kind() {
    let table = table();
    assert_eq!(pool_for(&table, &"sum".to_string(), false, 9), Some(0));
    assert_eq!(pool_for(&table, &"name".to_string(), false, 0), Some(1));
}

#[test]
fn pool_for_refuses_a_pool_of_one_fragment() {
    let table = table();
    assert_eq!(pool_for(&table, &"+".to_string(), false, 1), None);
    assert_eq!(pool_for(&table, &"name".to_string(), true, 2), None);
}

#[test]
fn pool_for_has_no_pool_for_a_kind_that_was_not_seen() {
    assert_eq!(pool_for(&table(), &"number".to_string(), false, 1), None);
}

#[test]
fn pool_for_takes_the_pool_at_the_draw_under_chaos() {
    let table = table();
    assert_eq!(pool_for(&table, &"+".to_string(), true, 0), Some(0));
    assert_eq!(pool_for(&table, &"+".to_string(), true, 1), Some(1));
    assert_eq!(pool_for(&table, &"number".to_string(), true, 1), Some(1));
    assert_eq!(pool_for(&table, &"name".to_string(), true, 3), None);
}

#[test]
fn choose_pool_without_chaos_goes_by_the_kind() {
    let mut rng = StdRng::seed_from_u64(8);
    let table = table();
    for _ in 0..50 {
        assert_eq!(choose_pool(&mut rng, 0, &table, &"name".to_string()), Some(1));
        assert_eq!(choose_pool(&mut rng, 0, &table, &"+".to_string()), None);
    }
}

#[test]
fn choose_pool_under_chaos_takes_any_pool() {
    let mut rng = StdRng::seed_from_u64(9);
    let table = table();
    let mut seen = [false; 3];
    let mut none = false;
    for _ in 0..200 {
        match choose_pool(&mut rng, 100, &table, &"+".to_string()) {
            Some(at) => seen[at] = true,
            None => none = true,
        }
    }
    assert_eq!(seen, [true, true, false]);
    assert!(none);
    assert_eq!(choose_pool(&mut rng, 100, &Branches::empty(), &"+".to_string()), None);
}

#[test]
fn keeps_a_fragment_that_is_not_the_text_of_the_node() {
    let fragments = vec![b"a".to_vec(), b"b".to_vec()];
    assert!(keeps(&fragments, 0, b"b"));
    assert!(keeps(&fragments, 1, b"a"));
    assert!(keeps(&fragments, 0, b"ab"));
    assert!(keeps(&fragments, 1, b""));
}

#[test]
fn keeps_not_the_text_of_the_node_where_there_are_others() {
    let fragments = vec![b"a".to_vec(), b"b".to_vec()];
    assert!(!keeps(&fragments, 0, b"a"));
    assert!(!keeps(&fragments, 1, b"b"));
}

#[test]
fn keeps_the_only_fragment_whatever_it_is() {
    assert!(keeps(&vec![b"a".to_vec()], 0, b"a"));
    assert!(keeps(&vec![b"a".to_vec()], 0, b"b"));
}

#[test]
fn choose_pool_under_full_chaos_finds_a_pool_where_each_has_a_choice() {
    let mut rng = StdRng::seed_from_u64(16);
    let mut table = Branches::empty();
    for kind in ["a", "b", "c"] {
        table.insert(&kind.to_string(), b"one".to_vec());
        table.insert(&kind.to_string(), b"other".to_vec());
    }
    let mut seen = [false; 3];
    for _ in 0..200 {
        seen[choose_pool(&mut rng, 100, &table, &"none".to_string()).unwrap()] = true;
    }
    assert_eq!(seen, [true, true, true]);
}

#[test]
fn splice_node_under_full_chaos_has_an_edit_where_each_pool_has_a_choice() {
    let mut rng = StdRng::seed_from_u64(17);
    let mut table = Branches::empty();
    table.insert(&"other".to_string(), b"x".to_vec());
    table.insert(&"other".to_string(), b"y".to_vec());
    let shape = sum();
    for _ in 0..100 {
        let edit = splice_node(&mut rng, 100, &table, b"a+b", &shape).unwrap();
        assert!(edit.node >= 1 && edit.node <= 3);
        assert!(edit.bytes == b"x" || edit.bytes == b"y");
    }
}

#[test]
fn pick_fragment_avoids_the_text_of_the_node() {
    let mut rng = StdRng::seed_from_u64(10);
    let fragments = vec![b"a".to_vec(), b"b".to_vec()];
    for _ in 0..100 {
        assert_eq!(pick_fragment(&mut rng, &fragments, b"a"), 1);
        assert_eq!(pick_fragment(&mut rng, &fragments, b"b"), 0);
    }
    let mut seen = [false; 2];
    for _ in 0..100 {
        seen[pick_fragment(&mut rng, &fragments, b"c")] = true;
    }
    assert_eq!(seen, [true, true]);
}

#[test]
fn pick_fragment_takes_the_only_fragment() {
    let mut rng = StdRng::seed_from_u64(10);
    assert_eq!(pick_fragment(&mut rng, &vec![b"a".to_vec()], b"a"), 0);
}

#[test]
fn splice_node_without_chaos_keeps_to_the_kind() {
    let mut rng = StdRng::seed_from_u64(11);
    let table = table();
    let shape = sum();
    let mut seen = [false; 4];
    for _ in 0..200 {
        let edit = splice_node(&mut rng, 0, &table, b"a+b", &shape).unwrap();
        seen[edit.node] = true;
        match edit.node {
            1 => assert!(edit.bytes == b"b" || edit.bytes == b"c"),
            3 => assert!(edit.bytes == b"a" || edit.bytes == b"c"),
            other => panic!("node {other} has no fragments to choose from"),
        }
    }
    assert_eq!(seen, [false, true, false, true]);
}

#[test]
fn splice_node_under_chaos_takes_from_any_pool_with_a_choice() {
    let mut rng = StdRng::seed_from_u64(12);
    let table = table();
    let shape = sum();
    let mut nodes = [false; 4];
    let mut sums = false;
    for _ in 0..300 {
        let edit = splice_node(&mut rng, 100, &table, b"a+b", &shape).unwrap();
        nodes[edit.node] = true;
        let known: [&[u8]; 5] = [b"a+b", b"c+a", b"a", b"b", b"c"];
        assert!(known.contains(&edit.bytes.as_slice()));
        sums = sums || edit.bytes.len() == 3;
    }
    assert_eq!(nodes, [false, true, true, true]);
    assert!(sums);
}

#[test]
fn splice_node_finds_nothing_in_a_table_without_a_choice() {
    let mut rng = StdRng::seed_from_u64(13);
    let shape = sum();
    let table = Branches::new(&vec![("a+a".as_bytes(), &shape)]);
    assert!(splice_node(&mut rng, 0, &table, b"a+a", &shape).is_none());
    assert!(splice_node(&mut rng, 100, &table, b"a+a", &shape).is_none());
    assert!(splice_node(&mut rng, 50, &Branches::empty(), b"a+a", &shape).is_none());
}

#[test]
fn splice_node_without_chaos_finds_nothing_for_kinds_that_were_not_seen() {
    let mut rng = StdRng::seed_from_u64(14);
    let shape = Snapshot {
        nodes: vec![record(1, "sum", 0, 3, vec![1]), record(2, "number", 0, 1, vec![])],
    };
    assert!(splice_node(&mut rng, 0, &table(), b"1+2", &shape).is_none());
}

#[test]
fn splice_node_works_on_a_root_alone() {
    let mut rng = StdRng::seed_from_u64(15);
    let shape = Snapshot { nodes: vec![record(1, "sum", 0, 3, vec![])] };
    let edit = splice_node(&mut rng, 0, &table(), b"a+b", &shape).unwrap();
    assert_eq!(edit.node, 0);
    assert_eq!(edit.bytes, b"c+a");
}
