use btree::BTree;
use btree::Flow;
use btree::Node;

/// Largest key count of any node in the subtree.
fn max_keys(n: &Node) -> usize {
    let mut mx = n.keys.len();
    for c in &n.children {
        let v = max_keys(c);
        if v > mx {
            mx = v;
        }
    }
    mx
}

/// Every node is a leaf or has exactly one more child than keys.
fn fanout_ok(n: &Node) -> bool {
    if !n.children.is_empty() && n.children.len() != n.keys.len() + 1 {
        return false;
    }
    n.children.iter().all(fanout_ok)
}

/// Every node's own keys are strictly increasing.
fn keys_sorted(n: &Node) -> bool {
    n.keys.windows(2).all(|w| w[0] < w[1]) && n.children.iter().all(keys_sorted)
}

/// Depths of every leaf below `n`, at depth `d`.
fn leaf_depths(n: &Node, d: usize, out: &mut Vec<usize>) {
    if n.children.is_empty() {
        out.push(d);
    }
    for c in &n.children {
        leaf_depths(c, d + 1, out);
    }
}

#[test]
fn it_works() {
    let mut btree = BTree::new(3);
    match btree.insert(32) {
        Flow::Inserted => (),
        a => panic!("Expected Success, got {:?}", a),
    }
    assert_eq!(btree.in_order_keys(), vec![32]);
}

#[test]
fn fails_on_duplicate() {
    let mut btree = BTree::new(3);
    btree.insert(32);
    match btree.insert(32) {
        Flow::Duplicate => (),
        a => panic!("Expected Duplicate, got {:?}", a),
    }
    assert_eq!(btree.in_order_keys(), vec![32]);
}

#[test]
fn insert_10_keys() {
    let mut btree = BTree::new(3);
    for i in 1..10 {
        match btree.insert(i) {
            Flow::Inserted => (),
            a => panic!("Expected Success, got {:?}", a),
        }
    }
    assert_eq!(btree.in_order_keys(), vec![1, 2, 3, 4, 5, 6, 7, 8, 9]);
}

#[test]
fn empty_tree_has_no_keys() {
    let t = BTree::new(3);
    assert!(t.in_order_keys().is_empty());
    assert!(t.root.has_decendency(0));
    assert!(!t.root.has_children());
}

#[test]
fn sequential_inserts_stay_bounded_and_balanced() {
    let mut t = BTree::new(3);
    for i in 1..10 {
        match t.insert(i) {
            Flow::Inserted => (),
            a => panic!("Expected Success, got {:?}", a),
        }
    }
    assert_eq!(t.in_order_keys(), vec![1, 2, 3, 4, 5, 6, 7, 8, 9]);
    // the root is no longer a leaf: height grew at least once
    assert!(t.root.has_children());
    assert!(!t.root.has_decendency(0));
    // no node holds more than m - 1 = 2 keys
    assert!(max_keys(&t.root) <= 2);
    assert!(fanout_ok(&t.root));
    assert!(keys_sorted(&t.root));
    // every leaf sits at the same depth
    let mut ds: Vec<usize> = Vec::new();
    leaf_depths(&t.root, 0, &mut ds);
    assert!(!ds.is_empty());
    assert!(ds.iter().all(|d| *d == ds[0]));
}

#[test]
fn root_split_makes_two_leaf_children() {
    let mut t = BTree::new(3);
    assert!(matches!(t.insert(1), Flow::Inserted));
    assert!(matches!(t.insert(2), Flow::Inserted));
    // the root leaf holds 2 keys; the third insert splits it
    assert!(t.root.has_decendency(0));
    assert_eq!(t.root.keys, vec![1, 2]);
    assert!(matches!(t.insert(3), Flow::Inserted));
    assert_eq!(t.root.keys, vec![2]);
    assert_eq!(t.root.children.len(), 2);
    assert!(t.root.has_decendency(1));
    assert_eq!(t.root.children[0].keys, vec![1]);
    assert_eq!(t.root.children[1].keys, vec![3]);
    assert!(t.root.children[0].children.is_empty());
    assert!(t.root.children[1].children.is_empty());
}

#[test]
fn duplicate_leaves_deep_tree_unchanged() {
    let mut t = BTree::new(3);
    for i in 1..10 {
        t.insert(i);
    }
    let before = t.in_order_keys();
    match t.insert(5) {
        Flow::Duplicate => (),
        a => panic!("Expected Duplicate, got {:?}", a),
    }
    assert_eq!(t.in_order_keys(), before);
}

#[test]
fn shuffled_inserts_come_out_sorted() {
    let mut t = BTree::new(3);
    for k in [41, 7, -3, 19, 0, 88, 5, -100, 63, 2] {
        match t.insert(k) {
            Flow::Inserted => (),
            a => panic!("Expected Success, got {:?}", a),
        }
    }
    assert_eq!(t.in_order_keys(), vec![-100, -3, 0, 2, 5, 7, 19, 41, 63, 88]);
    assert!(max_keys(&t.root) <= 2);
    assert!(fanout_ok(&t.root));
    assert!(keys_sorted(&t.root));
}

#[test]
fn even_order_splits_at_lower_median() {
    let mut t = BTree::new(4);
    for k in [1, 2, 3] {
        assert!(matches!(t.insert(k), Flow::Inserted));
    }
    // the root leaf is full at 3 keys; the fourth insert splits it at
    // index m / 2 = 2: left [1, 2], promoted 3, right [4]
    assert!(t.root.has_decendency(0));
    assert!(matches!(t.insert(4), Flow::Inserted));
    assert_eq!(t.root.keys, vec![3]);
    assert_eq!(t.root.children.len(), 2);
    assert_eq!(t.root.children[0].keys, vec![1, 2]);
    assert_eq!(t.root.children[1].keys, vec![4]);
}

#[test]
fn wider_order_holds_more_keys_per_node() {
    let mut t = BTree::new(5);
    for i in 0..30 {
        assert!(matches!(t.insert(i * 3), Flow::Inserted));
    }
    // duplicates are refused at any depth
    assert!(matches!(t.insert(27), Flow::Duplicate));
    let keys = t.in_order_keys();
    assert_eq!(keys.len(), 30);
    assert!(keys.windows(2).all(|w| w[0] < w[1]));
    assert!(max_keys(&t.root) <= 4);
    assert!(fanout_ok(&t.root));
    let mut ds: Vec<usize> = Vec::new();
    leaf_depths(&t.root, 0, &mut ds);
    assert!(ds.iter().all(|d| *d == ds[0]));
}

#[test]
fn height_grows_only_on_root_split() {
    let mut t = BTree::new(3);
    let mut height: usize = 0;
    for i in 1..50 {
        let was_full = t.root.keys.len() == 2;
        match t.insert(i) {
            Flow::Inserted => (),
            a => panic!("Expected Success, got {:?}", a),
        }
        if t.root.has_decendency(height) {
            continue;
        }
        // the height changed: by exactly one, and only off a full root
        height += 1;
        assert!(t.root.has_decendency(height));
        assert!(was_full);
    }
    assert!(height > 0);
}
