use symboltables::balancedtree::BalancedTree;

fn make_tree() -> BalancedTree<String, u32> {
    let mut tree = BalancedTree::<String, u32>::new();

    // The numbers in brackets give the node count of each subtree:
    //
    //             S(10)
    //            /     \
    //          E(8)    X(1)
    //         /    \
    //       A(2)   R(5)
    //          \   /
    //       C(1)  H(4)
    //              \
    //              M(3)
    //             /   \
    //           L(1)  P(1)
    //
    tree.put("S".into(), 0);
    tree.put("X".into(), 0);
    tree.put("E".into(), 0);
    tree.put("A".into(), 0);
    tree.put("C".into(), 0);
    tree.put("R".into(), 0);
    tree.put("H".into(), 0);
    tree.put("M".into(), 0);
    tree.put("L".into(), 0);
    tree.put("P".into(), 0);

    tree
}

#[test]
fn test_put() {
    let mut tree = make_tree();

    // update the value of node C
    tree.put("C".into(), 42);

    assert_eq!(tree.root.as_ref().unwrap().n, 10);
}

#[test]
fn test_min_max() {
    let tree = make_tree();
    let min = tree.min();
    assert_eq!("A", min);

    let max = tree.max();
    assert_eq!("X", max);
}

#[test]
fn test_floor() {
    let mut tree = BalancedTree::<String, u32>::new();

    tree.put("S".into(), 0);
    tree.put("E".into(), 0);
    tree.put("X".into(), 0);
    tree.put("R".into(), 0);
    tree.put("A".into(), 0);
    tree.put("C".into(), 0);
    tree.put("H".into(), 0);
    tree.put("M".into(), 0);

    assert_eq!(tree.floor("G".to_string()), Some("E".to_string()));
}

#[test]
fn test_ceil() {
    let mut tree = BalancedTree::<String, u32>::new();

    tree.put("S".into(), 0);
    tree.put("E".into(), 0);
    tree.put("X".into(), 0);
    tree.put("R".into(), 0);
    tree.put("A".into(), 0);
    tree.put("C".into(), 0);
    tree.put("H".into(), 0);
    tree.put("M".into(), 0);

    assert_eq!(tree.ceiling("T".to_string()), Some("X".into()));
    assert_eq!(tree.ceiling("D".to_string()), Some("E".into()));
    assert_eq!(tree.ceiling("G".to_string()), Some("H".into()));
}

#[test]
fn test_select() {
    let tree = make_tree();
    tree.show();

    assert_eq!(tree.select(3), "H");
}

#[test]
fn test_scenario_sizes() {
    let tree = make_tree();
    assert_eq!(tree.size(), 10);
    assert_eq!(tree.min(), "A");
    assert_eq!(tree.max(), "X");
    assert_eq!(tree.root.as_ref().unwrap().n, 10);
}

#[test]
fn test_update_keeps_size() {
    let mut tree = make_tree();
    assert_eq!(tree.size(), 10);
    tree.put("C".into(), 42);
    assert_eq!(tree.size(), 10);
    assert_eq!(tree.get("C".into()), Some(42));
}

#[test]
fn test_put_twice_same_key() {
    let mut tree = BalancedTree::<String, u32>::new();
    tree.put("K".into(), 1);
    let size_after_first = tree.size();
    tree.put("K".into(), 2);
    assert_eq!(tree.size(), size_after_first);
    assert_eq!(tree.get("K".into()), Some(2));
}

#[test]
fn test_keys_ascending() {
    let tree = make_tree();
    let keys = tree.keys();
    let expected: Vec<String> = vec!["A", "C", "E", "H", "L", "M", "P", "R", "S", "X"]
        .into_iter()
        .map(|s| s.to_string())
        .collect();
    assert_eq!(keys, expected);
    for w in keys.windows(2) {
        assert!(w[0] < w[1]);
    }
}

#[test]
fn test_get_and_contains() {
    let mut tree = BalancedTree::<String, u32>::new();
    assert!(tree.is_empty());
    assert_eq!(tree.get("A".into()), None);
    tree.put("A".into(), 7);
    assert!(!tree.is_empty());
    assert!(tree.contains("A".into()));
    assert!(!tree.contains("B".into()));
    assert_eq!(tree.get("A".into()), Some(7));
}

#[test]
fn test_select_rank_inverse() {
    let tree = make_tree();
    for k in 0..tree.size() {
        let key = tree.select(k);
        assert_eq!(tree.rank(key), k);
    }
}

#[test]
fn test_rank_values() {
    let tree = make_tree();
    assert_eq!(tree.rank("A".into()), 0);
    assert_eq!(tree.rank("H".into()), 3);
    assert_eq!(tree.rank("X".into()), 9);
    assert_eq!(tree.rank("B".into()), 1);
    assert_eq!(tree.rank("Z".into()), 10);
}

#[test]
fn test_floor_ceiling_edges() {
    let tree = make_tree();
    // below the smallest key there is no floor, above the largest no ceiling
    assert_eq!(tree.floor("0".to_string()), None);
    assert_eq!(tree.ceiling("Z".to_string()), None);
    // exact hits come back unchanged
    assert_eq!(tree.floor("M".to_string()), Some("M".to_string()));
    assert_eq!(tree.ceiling("M".to_string()), Some("M".to_string()));
    // empty table has neither
    let empty = BalancedTree::<String, u32>::new();
    assert_eq!(empty.floor("A".to_string()), None);
    assert_eq!(empty.ceiling("A".to_string()), None);
}

#[test]
fn test_delete_min_max() {
    let mut tree = make_tree();
    tree.delete_min();
    assert_eq!(tree.min(), "C");
    assert_eq!(tree.size(), 9);
    tree.delete_max();
    assert_eq!(tree.max(), "S");
    assert_eq!(tree.size(), 8);
    assert_eq!(tree.root.as_ref().unwrap().n, 8);
}

#[test]
fn test_delete() {
    let mut tree = make_tree();
    // a node with two children
    tree.delete("E".into());
    assert!(!tree.contains("E".into()));
    assert_eq!(tree.size(), 9);
    let expected: Vec<String> = vec!["A", "C", "H", "L", "M", "P", "R", "S", "X"]
        .into_iter()
        .map(|s| s.to_string())
        .collect();
    assert_eq!(tree.keys(), expected);
    // a missing key leaves the table alone
    tree.delete("Q".into());
    assert_eq!(tree.size(), 9);
    // a leaf
    tree.delete("A".into());
    assert_eq!(tree.min(), "C");
    assert_eq!(tree.size(), 8);
    assert_eq!(tree.root.as_ref().unwrap().n, 8);
}

#[test]
fn test_keys_in_range() {
    let tree = make_tree();
    let expected: Vec<String> = vec!["E", "H", "L", "M", "P"]
        .into_iter()
        .map(|s| s.to_string())
        .collect();
    assert_eq!(tree.keys_in_range("D".into(), "P".into()), expected);
    assert_eq!(tree.size_in_range("D".into(), "P".into()), 5);
    assert_eq!(tree.size_in_range("A".into(), "X".into()), 10);
    assert_eq!(tree.size_in_range("Y".into(), "Z".into()), 0);
}

#[test]
fn test_show_entries() {
    let mut tree = BalancedTree::<String, u32>::new();
    tree.put("B".into(), 2);
    tree.put("A".into(), 1);
    tree.put("C".into(), 3);
    let entries = tree.show();
    assert_eq!(
        entries,
        vec![
            ("A".to_string(), 1),
            ("B".to_string(), 2),
            ("C".to_string(), 3)
        ]
    );
}

#[test]
fn test_integer_keys() {
    let mut tree = BalancedTree::<u64, u32>::new();
    for k in [5u64, 1, 9, 3, 7] {
        tree.put(k, (k * 10) as u32);
    }
    assert_eq!(tree.keys(), vec![1u64, 3, 5, 7, 9]);
    assert_eq!(tree.select(2), 5);
    assert_eq!(tree.rank(6), 3);
    assert_eq!(tree.get(7), Some(70));
    assert_eq!(tree.floor(6), Some(5));
    assert_eq!(tree.ceiling(6), Some(7));
}
