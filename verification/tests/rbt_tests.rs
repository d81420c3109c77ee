use balanced_bst::rbt::{Child, NodeColor, RBTree, TreeNode};

fn rb_is_black(t: &Child) -> bool {
    match t {
        None => true,
        Some(n) => n.color == NodeColor::Black,
    }
}

/// Checks the red-black coloring at every node and returns the Black count
/// of the paths below `t`.
fn rb_check(t: &Child) -> i32 {
    match t {
        None => 0,
        Some(n) => {
            let bl = rb_check(&n.left);
            let br = rb_check(&n.right);
            assert_eq!(bl, br, "unequal Black counts under key {}", n.key);
            if n.color == NodeColor::Red {
                assert!(
                    rb_is_black(&n.left) && rb_is_black(&n.right),
                    "red node {} has a red child",
                    n.key
                );
            }
            bl + if n.color == NodeColor::Black { 1 } else { 0 }
        }
    }
}

fn rb_check_tree(t: &RBTree) {
    assert!(rb_is_black(&t.root), "root is not Black");
    rb_check(&t.root);
}

fn assert_ascending_rb(v: &[i64]) {
    for w in v.windows(2) {
        assert!(w[0] < w[1], "inorder not strictly ascending: {:?}", v);
    }
}

#[test]
fn rbt_empty_tree() {
    let t = RBTree::new();
    assert!(t.is_empty());
    assert_eq!(t.count_leaves(), 0);
    assert_eq!(t.inorder_traversal(), Vec::<i64>::new());
    assert!(t.find(3).is_none());
    assert_eq!(RBTree::pretty_print(&t.root), "");
}

#[test]
fn rbt_five_key_insert_scenario() {
    let mut t = RBTree::new();
    for k in [10, 5, 1, 7, 6] {
        t.insert(k);
        rb_check_tree(&t);
    }
    assert!(rb_is_black(&t.root));
    assert_eq!(t.inorder_traversal(), vec![1, 5, 6, 7, 10]);
    assert_eq!(t.count_leaves(), 5);
}

#[test]
fn rbt_five_key_delete_scenario() {
    let mut t = RBTree::new();
    for k in [10, 5, 1, 7, 6] {
        t.insert(k);
    }
    t.delete(1);
    rb_check_tree(&t);
    t.delete(5);
    rb_check_tree(&t);
    assert_eq!(t.inorder_traversal(), vec![6, 7, 10]);
}

#[test]
fn rbt_find_returns_handle() {
    let mut t = RBTree::new();
    for k in [4, 2, 6, 1, 3, 5, 7] {
        t.insert(k);
    }
    let hit = t.find(5);
    assert!(hit.is_some());
    assert_eq!(hit.unwrap().key, 5);
    assert!(t.find(8).is_none());
}

#[test]
fn rbt_insert_duplicate_is_noop() {
    let mut t = RBTree::new();
    for k in [9, 4, 12, 4, 9] {
        t.insert(k);
    }
    assert_eq!(t.count_leaves(), 3);
    let before = t.inorder_traversal();
    t.insert(12);
    assert_eq!(t.inorder_traversal(), before);
    assert_eq!(t.count_leaves(), 3);
}

#[test]
fn rbt_delete_absent_is_noop() {
    let mut t = RBTree::new();
    for k in [9, 4, 12] {
        t.insert(k);
    }
    let before = t.inorder_traversal();
    t.delete(100);
    assert_eq!(t.inorder_traversal(), before);
    rb_check_tree(&t);
}

#[test]
fn rbt_insert_then_delete_round_trip() {
    let mut t = RBTree::new();
    for k in [50, 20, 80, 10, 30, 70, 90] {
        t.insert(k);
    }
    let before = t.inorder_traversal();
    t.insert(65);
    t.delete(65);
    assert_eq!(t.inorder_traversal(), before);
    assert_eq!(t.count_leaves(), 7);
    rb_check_tree(&t);
}

#[test]
fn rbt_delete_all_empties_the_tree() {
    let mut t = RBTree::new();
    for k in [10, 5, 1, 7, 6] {
        t.insert(k);
    }
    for k in [10, 5, 1, 7, 6] {
        t.delete(k);
        rb_check_tree(&t);
    }
    assert!(t.is_empty());
    assert_eq!(t.count_leaves(), 0);
}

#[test]
fn rbt_large_mixed_workload_keeps_invariants() {
    let mut t = RBTree::new();
    for i in 0..300i64 {
        t.insert((i * 53) % 127);
        rb_check_tree(&t);
    }
    assert_eq!(t.count_leaves(), 127);
    let v = t.inorder_traversal();
    assert_ascending_rb(&v);
    assert_eq!(v.len(), 127);
    for i in 0..127i64 {
        if i % 3 == 0 {
            t.delete(i);
            rb_check_tree(&t);
        }
    }
    let v = t.inorder_traversal();
    assert_ascending_rb(&v);
    assert!(v.iter().all(|k| k % 3 != 0));
    assert_eq!(t.count_leaves(), 84);
}

#[test]
fn rbt_node_helpers_count_and_traverse() {
    let mut t = RBTree::new();
    for k in [4, 2, 6, 1, 3] {
        t.insert(k);
    }
    let root = t.root.as_ref().unwrap();
    assert_eq!(root.count_leaves(), 5);
    assert_eq!(root.inorder_traversal(), vec![1, 2, 3, 4, 6]);
}

#[test]
fn rbt_tree_node_new_is_red_leaf() {
    let n = TreeNode::new(42);
    assert_eq!(n.key, 42);
    assert!(n.color == NodeColor::Red);
    assert!(n.left.is_none() && n.right.is_none());
}

#[test]
fn rbt_pretty_print_labels_colors() {
    let leaf: Child = Some(Box::new(TreeNode::new(5)));
    assert_eq!(RBTree::pretty_print(&leaf), "5R");

    let mut t = RBTree::new();
    t.insert(2);
    t.insert(1);
    t.insert(3);
    // the root is Black and both children stay Red
    assert_eq!(RBTree::pretty_print(&t.root), "2B\n└──3R\n├──1R");
}

#[test]
fn rbt_pretty_print_helper_appends() {
    let leaf: Child = Some(Box::new(TreeNode::new(-3)));
    let mut sb = String::from("top");
    RBTree::pretty_print_helper(&mut sb, "  ", "└──", &leaf, false);
    assert_eq!(sb, "top\n  └──-3R");
}

#[test]
fn rbt_rotations_preserve_order_and_colors() {
    // build   2            with Black nodes, rotate right about the root
    //        / \
    //       1   3
    let n1 = TreeNode {
        color: NodeColor::Black,
        key: 1,
        left: None,
        right: None,
    };
    let n3 = TreeNode {
        color: NodeColor::Black,
        key: 3,
        left: None,
        right: None,
    };
    let n2 = TreeNode {
        color: NodeColor::Black,
        key: 2,
        left: Some(Box::new(n1)),
        right: Some(Box::new(n3)),
    };
    let r = RBTree::right_rotation(Box::new(n2));
    assert_eq!(r.key, 1);
    assert!(r.color == NodeColor::Black);
    let inner = r.right.as_ref().unwrap();
    assert_eq!(inner.key, 2);
    assert_eq!(inner.right.as_ref().unwrap().key, 3);
    let back = RBTree::left_rotation(r);
    assert_eq!(back.key, 2);
    assert_eq!(back.left.as_ref().unwrap().key, 1);
    assert_eq!(back.right.as_ref().unwrap().key, 3);
}
