use rowstore::{BTree, Location, ValueStruct};

fn loc(a: i64, b: i64) -> Location {
    Location { byte_range_start: a, byte_range_stop: b }
}

fn entry(key: i64, locs: Vec<Location>) -> ValueStruct {
    ValueStruct { value: key, location: locs }
}

fn collect_in_order(t: &BTree, out: &mut Vec<i64>) {
    if t.leaf {
        for v in &t.values {
            out.push(v.value);
        }
    } else {
        for i in 0..t.children.len() {
            collect_in_order(&t.children[i], out);
            if i < t.values.len() {
                out.push(t.values[i].value);
            }
        }
    }
}

fn check_widths(t: &BTree) {
    assert!(t.values.len() >= 1 && t.values.len() <= 2);
    if t.leaf {
        assert_eq!(t.children.len(), 0);
    } else {
        assert_eq!(t.children.len(), t.values.len() + 1);
        for c in &t.children {
            check_widths(c);
        }
    }
}

#[test]
fn search_empty_returns_empty() {
    let tree = BTree::new();
    let hits = tree.search_tree(7).unwrap();
    assert!(hits.is_empty());
}

#[test]
fn insert_distinct_search_exact() {
    let mut tree = BTree::new();
    for k in [3i64, 1, 4, 15, 9, 2, 6, 5, 35, 8] {
        BTree::insert_into_tree(&mut tree, entry(k, vec![loc(k * 10, k * 10 + 1)])).unwrap();
    }
    for k in [3i64, 1, 4, 15, 9, 2, 6, 5, 35, 8] {
        let hits = tree.search_tree(k).unwrap();
        assert_eq!(hits, vec![loc(k * 10, k * 10 + 1)]);
    }
    assert!(tree.search_tree(100).unwrap().is_empty());
}

#[test]
fn reinsert_appends_in_order() {
    let mut tree = BTree::new();
    BTree::insert_into_tree(&mut tree, entry(7, vec![loc(1, 2)])).unwrap();
    BTree::insert_into_tree(&mut tree, entry(9, vec![loc(90, 91)])).unwrap();
    BTree::insert_into_tree(&mut tree, entry(7, vec![loc(3, 4), loc(5, 6)])).unwrap();
    BTree::insert_into_tree(&mut tree, entry(7, vec![loc(7, 8)])).unwrap();
    let hits = tree.search_tree(7).unwrap();
    assert_eq!(hits, vec![loc(1, 2), loc(3, 4), loc(5, 6), loc(7, 8)]);
    assert_eq!(tree.search_tree(9).unwrap(), vec![loc(90, 91)]);
}

#[test]
fn node_widths_after_many_inserts() {
    let mut tree = BTree::new();
    for k in 0..50i64 {
        BTree::insert_into_tree(&mut tree, entry(k, vec![loc(k, k + 1)])).unwrap();
    }
    check_widths(&tree);
}

#[test]
fn in_order_keys_sorted_after_scrambled_inserts() {
    let mut tree = BTree::new();
    let keys = [13i64, 2, 29, 5, 31, 1, 23, 17, 3, 11, 19, 7];
    for k in keys {
        BTree::insert_into_tree(&mut tree, entry(k, vec![loc(k, k)])).unwrap();
    }
    let mut seen = Vec::new();
    collect_in_order(&tree, &mut seen);
    assert_eq!(seen.len(), keys.len());
    for w in seen.windows(2) {
        assert!(w[0] < w[1]);
    }
}

#[test]
fn split_scenario_ten_five_twenty() {
    let mut tree = BTree::new();
    BTree::insert_into_tree(&mut tree, entry(10, vec![loc(12, 15)])).unwrap();
    BTree::insert_into_tree(&mut tree, entry(5, vec![loc(1, 2)])).unwrap();
    BTree::insert_into_tree(&mut tree, entry(20, vec![loc(100, 200)])).unwrap();

    // the third insert split the leaf: root {10} with children {5} and {20}
    assert!(!tree.leaf);
    assert_eq!(tree.values.len(), 1);
    assert_eq!(tree.values[0].value, 10);
    assert_eq!(tree.children.len(), 2);
    assert!(tree.children[0].leaf && tree.children[1].leaf);
    assert_eq!(tree.children[0].values.len(), 1);
    assert_eq!(tree.children[0].values[0].value, 5);
    assert_eq!(tree.children[1].values.len(), 1);
    assert_eq!(tree.children[1].values[0].value, 20);

    // a duplicate insert appends to the root's entry, no structural change
    BTree::insert_into_tree(&mut tree, entry(10, vec![loc(30, 40)])).unwrap();
    assert!(!tree.leaf);
    assert_eq!(tree.values.len(), 1);
    assert_eq!(tree.children.len(), 2);

    assert_eq!(tree.search_tree(10).unwrap(), vec![loc(12, 15), loc(30, 40)]);
    assert_eq!(tree.search_tree(5).unwrap(), vec![loc(1, 2)]);
    assert_eq!(tree.search_tree(20).unwrap(), vec![loc(100, 200)]);
    assert!(tree.search_tree(99).unwrap().is_empty());
}

#[test]
fn splits_propagate_and_keep_all_keys() {
    let mut tree = BTree::new();
    for k in (0..40i64).rev() {
        BTree::insert_into_tree(&mut tree, entry(k, vec![loc(k, k + 1)])).unwrap();
    }
    check_widths(&tree);
    let mut seen = Vec::new();
    collect_in_order(&tree, &mut seen);
    let expected: Vec<i64> = (0..40).collect();
    assert_eq!(seen, expected);
    for k in 0..40i64 {
        assert_eq!(tree.search_tree(k).unwrap(), vec![loc(k, k + 1)]);
    }
}

#[test]
fn malformed_node_width_is_reported_not_assumed() {
    // an internal node whose child count does not match its key count
    let bad = BTree {
        values: vec![entry(1, vec![]), entry(2, vec![])],
        children: vec![Box::new(BTree { values: vec![entry(0, vec![])], children: vec![], leaf: true })],
        leaf: false,
    };
    assert_eq!(bad.search_tree(5).unwrap_err(), rowstore::DbError::StructuralCorruption);

    // a node holding more than two keys is rejected by the child router
    let wide = BTree {
        values: vec![entry(1, vec![]), entry(2, vec![]), entry(3, vec![])],
        children: vec![],
        leaf: true,
    };
    assert_eq!(wide.child_index_for(9).unwrap_err(), rowstore::DbError::StructuralCorruption);
}
