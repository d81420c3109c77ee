use balanced_bst::avl::{AVL, AVLNode, AVLTree};

/// Checks stored heights and the balance bound at every node and returns
/// the height of the subtree.
fn avl_check(t: &AVLTree) -> i32 {
    match t {
        None => 0,
        Some(n) => {
            let hl = avl_check(&n.left);
            let hr = avl_check(&n.right);
            assert!((hl - hr).abs() <= 1, "balance violated at key {}", n.key);
            let h = 1 + hl.max(hr);
            assert_eq!(n.height, h, "stored height wrong at key {}", n.key);
            h
        }
    }
}

fn assert_ascending(v: &[i64]) {
    for w in v.windows(2) {
        assert!(w[0] < w[1], "inorder not strictly ascending: {:?}", v);
    }
}

#[test]
fn avl_empty_tree() {
    let mut t = AVL::new();
    assert!(t.isEmpty());
    assert_eq!(t.count(), 0);
    assert_eq!(t.height(), 0);
    assert_eq!(t.inorder(), Vec::<i64>::new());
    assert_eq!(t.print(), "");
    assert!(!t.search(7));
}

#[test]
fn avl_ascending_inserts_balance() {
    let mut t = AVL::new();
    for k in 1..=8 {
        t.insert(k);
        avl_check(&t.root);
    }
    assert_eq!(t.height(), 4);
    assert_eq!(t.root.as_ref().unwrap().key, 4);
    assert_eq!(t.count(), 8);
    for k in 1..=8 {
        assert!(t.search(k));
    }
    assert!(!t.search(0));
    assert!(!t.search(9));
    assert_eq!(t.inorder(), vec![1, 2, 3, 4, 5, 6, 7, 8]);
}

#[test]
fn avl_delete_all_in_insertion_order() {
    let mut t = AVL::new();
    for k in 1..=8 {
        t.insert(k);
    }
    for k in 1..=8 {
        t.delete(k);
        avl_check(&t.root);
        assert!(!t.search(k));
    }
    assert!(t.isEmpty());
    assert_eq!(t.count(), 0);
}

#[test]
fn avl_inorder_sorted_after_mixed_operations() {
    let mut t = AVL::new();
    for k in [41, 13, 8, 70, 22, 5, 91, 34, 60, 2, 77, 18] {
        t.insert(k);
        avl_check(&t.root);
    }
    for k in [13, 91, 2, 60] {
        t.delete(k);
        avl_check(&t.root);
    }
    let v = t.inorder();
    assert_ascending(&v);
    assert_eq!(v, vec![5, 8, 18, 22, 34, 41, 70, 77]);
}

#[test]
fn avl_insert_duplicate_is_noop() {
    let mut t = AVL::new();
    for k in [5, 3, 8, 3, 5, 10] {
        t.insert(k);
    }
    assert_eq!(t.count(), 4);
    let before = t.inorder();
    t.insert(8);
    assert_eq!(t.count(), 4);
    assert_eq!(t.inorder(), before);
}

#[test]
fn avl_delete_absent_is_noop() {
    let mut t = AVL::new();
    for k in [5, 3, 8] {
        t.insert(k);
    }
    let before = t.inorder();
    t.delete(42);
    assert_eq!(t.inorder(), before);
    assert_eq!(t.count(), 3);
}

#[test]
fn avl_insert_then_delete_round_trip() {
    let mut t = AVL::new();
    for k in [20, 10, 30, 5, 15, 25, 35] {
        t.insert(k);
    }
    let before = t.inorder();
    t.insert(27);
    t.delete(27);
    assert_eq!(t.inorder(), before);
    assert_eq!(t.count(), 7);
    avl_check(&t.root);
}

#[test]
fn avl_two_child_delete_uses_successor() {
    let mut t = AVL::new();
    t.insert(2);
    t.insert(1);
    t.insert(3);
    t.delete(2);
    assert_eq!(t.inorder(), vec![1, 3]);
    assert_eq!(t.root.as_ref().unwrap().key, 3);
    avl_check(&t.root);
}

#[test]
fn avl_node_level_operations() {
    let mut root: AVLTree = None;
    for k in [7, 2, 9, 1, 5] {
        root = AVLNode::insert(root, k);
    }
    assert_eq!(AVLNode::height(&root), 3);
    assert_eq!(AVLNode::getMinVal(&root), 1);
    assert!(AVLNode::search(&root, 5));
    assert!(!AVLNode::search(&root, 4));
    assert_eq!(AVLNode::count(&root), 5);
    assert!(!AVLNode::isEmpty(&root));
    let bal = AVLNode::getBalance(&root);
    assert!((-1..=1).contains(&bal));
    root = AVLNode::delete(root, 7);
    assert_eq!(AVLNode::inorder(&root), vec![1, 2, 5, 9]);
    avl_check(&root);
}

#[test]
fn avl_rotations_preserve_order() {
    // a left-leaning chain forces a right rotation about the root
    let mut root: AVLTree = None;
    for k in [3, 2, 1] {
        root = AVLNode::insert(root, k);
    }
    assert_eq!(root.as_ref().unwrap().key, 2);
    assert_eq!(AVLNode::inorder(&root), vec![1, 2, 3]);
    // a right-leaning chain forces a left rotation about the root
    let mut root2: AVLTree = None;
    for k in [1, 2, 3] {
        root2 = AVLNode::insert(root2, k);
    }
    assert_eq!(root2.as_ref().unwrap().key, 2);
    assert_eq!(AVLNode::inorder(&root2), vec![1, 2, 3]);
}

#[test]
fn avl_pretty_print_small_trees() {
    let mut t = AVL::new();
    t.insert(2);
    t.insert(1);
    t.insert(3);
    assert_eq!(t.print(), "2\n└──3\n├──1");
    t.insert(4);
    assert_eq!(t.print(), "2\n└──3\n   └──4\n├──1");
    let mut single = AVL::new();
    single.insert(-7);
    assert_eq!(single.print(), "-7");
    let mut extreme = AVL::new();
    extreme.insert(i64::MIN);
    extreme.insert(i64::MAX);
    assert_eq!(
        extreme.print(),
        "-9223372036854775808\n└──9223372036854775807"
    );
}

#[test]
fn avl_pretty_print_helper_appends() {
    let mut root: AVLTree = None;
    root = AVLNode::insert(root, 5);
    let mut sb = String::from("x");
    AVLNode::prettyPrintHelper(&mut sb, " ", ">", &root, false);
    assert_eq!(sb, "x\n >5");
    assert_eq!(AVLNode::prettyPrint(&root), "5");
}

#[test]
fn avl_large_mixed_workload_keeps_invariants() {
    let mut t = AVL::new();
    for i in 0..200i64 {
        t.insert((i * 37) % 101);
        avl_check(&t.root);
    }
    assert_eq!(t.count(), 101);
    let v = t.inorder();
    assert_ascending(&v);
    assert_eq!(v.len(), 101);
    for i in 0..101i64 {
        if i % 2 == 0 {
            t.delete(i);
            avl_check(&t.root);
        }
    }
    assert_eq!(t.count(), 50);
    let v = t.inorder();
    assert_ascending(&v);
    assert!(v.iter().all(|k| k % 2 == 1));
}
