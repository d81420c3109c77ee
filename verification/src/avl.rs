//! A height-balanced (AVL) binary search tree over `i64` keys.
//!
//! Every subtree is owned by its parent: each mutating operation takes the
//! subtree it works on and returns the (possibly different) new subtree root.
//! The facade type [`AVL`] wraps the root slot and exposes the set-like
//! operations.

#![allow(non_snake_case)]

use vstd::prelude::*;

use crate::keystr::{dec_rep, key_to_string};
use crate::order::{lemma_sorted_unique, lists_exactly, strictly_sorted};
use vstd::string::StringExecFns;

verus! {

/// A node of the AVL tree: a key, the stored height of the subtree rooted
/// here (1 for a leaf), and the two owned child subtrees.
pub struct AVLNode {
    pub key: i64,
    pub height: i32,
    pub left: AVLTree,
    pub right: AVLTree,
}

/// A possibly absent AVL subtree.
pub type AVLTree = Option<Box<AVLNode>>;

/// The height of a subtree: 0 when absent, otherwise one more than the
/// taller child.
pub open spec fn height_of(t: AVLTree) -> nat
    decreases t,
{
    match t {
        None => 0,
        Some(n) => (1 + vstd::math::max(
            height_of(n.left) as int,
            height_of(n.right) as int,
        )) as nat,
    }
}

/// The set of keys held in a subtree.
pub open spec fn keys_of(t: AVLTree) -> Set<i64>
    decreases t,
{
    match t {
        None => Set::empty(),
        Some(n) => keys_of(n.left).union(keys_of(n.right)).insert(n.key),
    }
}

/// The keys of a subtree in ascending (in-order) sequence.
pub open spec fn inorder_of(t: AVLTree) -> Seq<i64>
    decreases t,
{
    match t {
        None => Seq::empty(),
        Some(n) => inorder_of(n.left) + seq![n.key] + inorder_of(n.right),
    }
}

/// The number of nodes in a subtree.
pub open spec fn size_of(t: AVLTree) -> nat
    decreases t,
{
    match t {
        None => 0,
        Some(n) => 1 + size_of(n.left) + size_of(n.right),
    }
}

/// The binary-search-tree ordering: at every node, all keys of the left
/// subtree are smaller than the node's key and all keys of the right subtree
/// are greater.
pub open spec fn ordered(t: AVLTree) -> bool
    decreases t,
{
    match t {
        None => true,
        Some(n) => {
            &&& ordered(n.left)
            &&& ordered(n.right)
            &&& forall|k: i64| keys_of(n.left).contains(k) ==> k < n.key
            &&& forall|k: i64| keys_of(n.right).contains(k) ==> k > n.key
        },
    }
}

/// Every stored height field equals the actual height of its subtree.
pub open spec fn heights_ok(t: AVLTree) -> bool
    decreases t,
{
    match t {
        None => true,
        Some(n) => {
            &&& heights_ok(n.left)
            &&& heights_ok(n.right)
            &&& n.height as int == 1 + vstd::math::max(
                height_of(n.left) as int,
                height_of(n.right) as int,
            )
        },
    }
}

/// The AVL balance condition: at every node the children's heights differ by
/// at most one.
pub open spec fn balanced(t: AVLTree) -> bool
    decreases t,
{
    match t {
        None => true,
        Some(n) => {
            &&& balanced(n.left)
            &&& balanced(n.right)
            &&& -1 <= height_of(n.left) as int - height_of(n.right) as int <= 1
        },
    }
}

/// A well-formed AVL subtree: ordered as a binary search tree, stored
/// heights correct, and balanced at every node.
pub open spec fn wf(t: AVLTree) -> bool {
    ordered(t) && heights_ok(t) && balanced(t)
}

impl AVLNode {
    /// Creates a single-node tree holding `data`.
    pub fn new(data: i64) -> (r: AVLTree)
        ensures
            wf(r),
            r.is_some(),
            keys_of(r) == Set::empty().insert(data),
            height_of(r) == 1,
    {
        let r: AVLTree = Some(
            Box::new(AVLNode { key: data, height: 1, left: None, right: None }),
        );
        proof {
            assert(keys_of(r.unwrap().left) =~= Set::empty());
            assert(keys_of(r.unwrap().right) =~= Set::empty());
            assert(height_of(r.unwrap().left) == 0);
            assert(height_of(r.unwrap().right) == 0);
            assert(ordered(r.unwrap().left) && ordered(r.unwrap().right));
            assert(heights_ok(r.unwrap().left) && heights_ok(r.unwrap().right));
            assert(balanced(r.unwrap().left) && balanced(r.unwrap().right));
            assert(keys_of(r) =~= Set::empty().insert(data));
        }
        r
    }

    /// The height of a subtree, 0 when it is absent.
    pub fn height(node: &AVLTree) -> (r: i32)
        requires
            heights_ok(*node),
        ensures
            r as int == height_of(*node),
    {
        match node {
            None => 0,
            Some(n) => n.height,
        }
    }

    /// The smallest key of a nonempty subtree: the key of its leftmost node.
    pub fn getMinVal(node: &AVLTree) -> (r: i64)
        requires
            node.is_some(),
            ordered(*node),
        ensures
            keys_of(*node).contains(r),
            forall|k: i64| keys_of(*node).contains(k) ==> r <= k,
        decreases *node,
    {
        let n = node.as_ref().unwrap();
        match &n.left {
            None => {
                proof {
                    assert(keys_of(n.left) =~= Set::empty());
                    assert(keys_of(*node).contains(n.key));
                    assert forall|k: i64| keys_of(*node).contains(k) implies n.key <= k by {
                        if keys_of(n.right).contains(k) {
                            assert(k > n.key);
                        }
                    }
                }
                n.key
            },
            Some(_) => {
                let r = Self::getMinVal(&n.left);
                proof {
                    assert(keys_of(n.left).contains(r));
                    assert(r < n.key);
                    assert forall|k: i64| keys_of(*node).contains(k) implies r <= k by {
                        if keys_of(n.right).contains(k) {
                            assert(k > n.key);
                        }
                    }
                }
                r
            },
        }
    }

    /// The balance factor of a subtree: the height of the left child minus
    /// the height of the right child, 0 when the subtree is absent.
    pub fn getBalance(node: &AVLTree) -> (r: i32)
        requires
            heights_ok(*node),
        ensures
            r as int == bal_of(*node),
    {
        match node {
            None => 0,
            Some(n) => Self::height(&n.left) - Self::height(&n.right),
        }
    }

    /// Whether `data` occurs in the subtree.
    pub fn search(root: &AVLTree, data: i64) -> (r: bool)
        requires
            ordered(*root),
        ensures
            r == keys_of(*root).contains(data),
        decreases *root,
    {
        match root {
            None => false,
            Some(n) => {
                if data < n.key {
                    proof {
                        assert(!keys_of(n.right).contains(data));
                    }
                    Self::search(&n.left, data)
                } else if data > n.key {
                    proof {
                        assert(!keys_of(n.left).contains(data));
                    }
                    Self::search(&n.right, data)
                } else {
                    proof {
                        assert(keys_of(*root).contains(data));
                    }
                    true
                }
            },
        }
    }

    /// The number of nodes in the subtree.
    pub fn count(root: &AVLTree) -> (r: i32)
        requires
            size_of(*root) <= i32::MAX,
        ensures
            r as int == size_of(*root),
        decreases *root,
    {
        match root {
            None => 0,
            Some(n) => {
                let a = Self::count(&n.left);
                let b = Self::count(&n.right);
                1 + a + b
            },
        }
    }

    /// Whether the subtree is absent.
    pub fn isEmpty(root: &AVLTree) -> (r: bool)
        ensures
            r == (*root is None),
            r == (keys_of(*root) == Set::<i64>::empty()),
    {
        match root {
            None => true,
            Some(n) => {
                proof {
                    assert(keys_of(*root).contains(n.key));
                }
                false
            },
        }
    }

    /// The keys of the subtree in ascending order.
    pub fn inorder(root: &AVLTree) -> (v: Vec<i64>)
        ensures
            v@ == inorder_of(*root),
        decreases *root,
    {
        match root {
            None => Vec::new(),
            Some(n) => {
                let mut v = Self::inorder(&n.left);
                v.push(n.key);
                let mut rv = Self::inorder(&n.right);
                v.append(&mut rv);
                proof {
                    assert(v@ =~= inorder_of(*root));
                }
                v
            },
        }
    }
    /// Right rotation about `node`: promotes the left child to the root of
    /// the subtree, making the former root its right child; the stored
    /// heights of the two repositioned nodes are recomputed. The rotated
    /// subtree keeps its keys and its ordering.
    pub fn rightRotate(node: Box<AVLNode>) -> (r: Box<AVLNode>)
        requires
            node.left.is_some(),
            ordered(Some(node)),
            heights_ok(node.left),
            heights_ok(node.right),
            (height_of(node.left) as int) <= i32::MAX - 1,
            (height_of(node.right) as int) <= i32::MAX - 2,
        ensures
            r.key == node.left.unwrap().key,
            r.left == node.left.unwrap().left,
            r.right.is_some(),
            r.right.unwrap().key == node.key,
            r.right.unwrap().left == node.left.unwrap().right,
            r.right.unwrap().right == node.right,
            heights_ok(Some(r)),
            ordered(Some(r)),
            keys_of(Some(r)) == keys_of(Some(node)),
    {
        let ghost t0: AVLTree = Some(node);
        let ghost n0 = *node;
        let ghost l0 = *n0.left.unwrap();
        let AVLNode { key, height: _, left, right } = *node;
        let l = left.unwrap();
        let AVLNode { key: lkey, height: _, left: ll, right: lr } = *l;
        proof {
            assert(height_of(t0) as int == 1 + vstd::math::max(
                height_of(n0.left) as int,
                height_of(n0.right) as int,
            ));
            assert(height_of(n0.left) as int == 1 + vstd::math::max(
                height_of(l0.left) as int,
                height_of(l0.right) as int,
            ));
            assert(heights_ok(l0.left) && heights_ok(l0.right));
        }
        let hlr = Self::height(&lr);
        let hr = Self::height(&right);
        let m1: i32 = if hlr >= hr {
            hlr
        } else {
            hr
        };
        let inner = Box::new(AVLNode { key, height: 1 + m1, left: lr, right });
        let hll = Self::height(&ll);
        let ih = inner.height;
        let m2: i32 = if hll >= ih {
            hll
        } else {
            ih
        };
        let r = Box::new(
            AVLNode { key: lkey, height: 1 + m2, left: ll, right: Some(inner) },
        );
        proof {
            assert(height_of(r.right) as int == 1 + vstd::math::max(
                height_of(l0.right) as int,
                height_of(n0.right) as int,
            ));
            assert(heights_ok(r.right));
            assert(heights_ok(Some(r)));
            assert(ordered(n0.left) && ordered(n0.right));
            assert(ordered(l0.left) && ordered(l0.right));
            assert(keys_of(n0.left).contains(l0.key));
            assert(keys_of(r.right) =~= keys_of(l0.right).union(keys_of(n0.right)).insert(
                n0.key,
            ));
            assert forall|k: i64| keys_of(r.right).contains(k) implies k > l0.key by {
                if keys_of(l0.right).contains(k) {
                    assert(k > l0.key);
                } else if keys_of(n0.right).contains(k) {
                    assert(k > n0.key);
                    assert(l0.key < n0.key);
                } else {
                    assert(k == n0.key);
                    assert(l0.key < n0.key);
                }
            }
            assert forall|k: i64| keys_of(l0.right).contains(k) implies k < n0.key by {
                assert(keys_of(n0.left).contains(k));
            }
            assert(ordered(r.right));
            assert(ordered(Some(r)));
            assert(keys_of(Some(r)) =~= keys_of(t0));
        }
        r
    }

    /// Left rotation about `node`: the mirror image of `rightRotate`.
    pub fn leftRotate(node: Box<AVLNode>) -> (r: Box<AVLNode>)
        requires
            node.right.is_some(),
            ordered(Some(node)),
            heights_ok(node.left),
            heights_ok(node.right),
            (height_of(node.left) as int) <= i32::MAX - 2,
            (height_of(node.right) as int) <= i32::MAX - 1,
        ensures
            r.key == node.right.unwrap().key,
            r.right == node.right.unwrap().right,
            r.left.is_some(),
            r.left.unwrap().key == node.key,
            r.left.unwrap().right == node.right.unwrap().left,
            r.left.unwrap().left == node.left,
            heights_ok(Some(r)),
            ordered(Some(r)),
            keys_of(Some(r)) == keys_of(Some(node)),
    {
        let ghost t0: AVLTree = Some(node);
        let ghost n0 = *node;
        let ghost r0 = *n0.right.unwrap();
        let AVLNode { key, height: _, left, right } = *node;
        let rn = right.unwrap();
        let AVLNode { key: rkey, height: _, left: rl, right: rr } = *rn;
        proof {
            assert(height_of(t0) as int == 1 + vstd::math::max(
                height_of(n0.left) as int,
                height_of(n0.right) as int,
            ));
            assert(height_of(n0.right) as int == 1 + vstd::math::max(
                height_of(r0.left) as int,
                height_of(r0.right) as int,
            ));
            assert(heights_ok(r0.left) && heights_ok(r0.right));
        }
        let hrl = Self::height(&rl);
        let hl = Self::height(&left);
        let m1: i32 = if hl >= hrl {
            hl
        } else {
            hrl
        };
        let inner = Box::new(AVLNode { key, height: 1 + m1, left, right: rl });
        let hrr = Self::height(&rr);
        let ih = inner.height;
        let m2: i32 = if ih >= hrr {
            ih
        } else {
            hrr
        };
        let r = Box::new(
            AVLNode { key: rkey, height: 1 + m2, left: Some(inner), right: rr },
        );
        proof {
            assert(height_of(r.left) as int == 1 + vstd::math::max(
                height_of(n0.left) as int,
                height_of(r0.left) as int,
            ));
            assert(heights_ok(r.left));
            assert(heights_ok(Some(r)));
            assert(ordered(n0.left) && ordered(n0.right));
            assert(ordered(r0.left) && ordered(r0.right));
            assert(keys_of(n0.right).contains(r0.key));
            assert(keys_of(r.left) =~= keys_of(n0.left).union(keys_of(r0.left)).insert(
                n0.key,
            ));
            assert forall|k: i64| keys_of(r.left).contains(k) implies k < r0.key by {
                if keys_of(n0.left).contains(k) {
                    assert(k < n0.key);
                    assert(n0.key < r0.key);
                } else if keys_of(r0.left).contains(k) {
                    assert(k < r0.key);
                } else {
                    assert(k == n0.key);
                    assert(n0.key < r0.key);
                }
            }
            assert forall|k: i64| keys_of(r0.left).contains(k) implies k > n0.key by {
                assert(keys_of(n0.right).contains(k));
            }
            assert(ordered(r.left));
            assert(ordered(Some(r)));
            assert(keys_of(Some(r)) =~= keys_of(t0));
        }
        r
    }
}

/// The rotation chosen by the balancer for one unwinding step.
enum RotationCase {
    Nil,
    LL,
    RR,
    LR,
    RL,
}

impl AVLNode {
    /// Rebuilds the node `(left, key, right)` after one child changed height
    /// by at most one, restoring the balance invariant with at most one
    /// (possibly double) rotation, chosen by the balance factors.
    fn rebalance(key: i64, left: AVLTree, right: AVLTree) -> (r: AVLTree)
        requires
            wf(left),
            wf(right),
            forall|k: i64| keys_of(left).contains(k) ==> k < key,
            forall|k: i64| keys_of(right).contains(k) ==> k > key,
            -2 <= height_of(left) as int - height_of(right) as int <= 2,
            (height_of(left) as int) <= i32::MAX - 1,
            (height_of(right) as int) <= i32::MAX - 1,
        ensures
            wf(r),
            r.is_some(),
            keys_of(r) == keys_of(left).union(keys_of(right)).insert(key),
            vstd::math::max(height_of(left) as int, height_of(right) as int)
                <= height_of(r) as int <= 1 + vstd::math::max(
                height_of(left) as int,
                height_of(right) as int,
            ),
            -1 <= height_of(left) as int - height_of(right) as int <= 1
                ==> height_of(r) as int == 1 + vstd::math::max(
                height_of(left) as int,
                height_of(right) as int,
            ),
    {
        let ghost gl = left;
        let ghost gr = right;
        let bal = Self::height(&left) - Self::height(&right);
        let lbal = Self::getBalance(&left);
        let rbal = Self::getBalance(&right);
        let rcase: RotationCase = if bal > 1 && lbal >= 0 {
            RotationCase::LL
        } else if bal < -1 && rbal <= 0 {
            RotationCase::RR
        } else if bal > 1 {
            RotationCase::LR
        } else if bal < -1 {
            RotationCase::RL
        } else {
            RotationCase::Nil
        };
        let hl = Self::height(&left);
        let hr = Self::height(&right);
        let m: i32 = if hl >= hr {
            hl
        } else {
            hr
        };
        let node = Box::new(AVLNode { key, height: 1 + m, left, right });
        match rcase {
            RotationCase::Nil => {
                proof {
                    assert(heights_ok(Some(node)));
                    assert(balanced(Some(node)));
                    assert(ordered(Some(node)));
                    assert(keys_of(Some(node)) =~= keys_of(gl).union(keys_of(gr)).insert(
                        key,
                    ));
                }
                Some(node)
            },
            RotationCase::LL => {
                proof {
                    if node.left is None {
                        assert(height_of(node.left) == 0);
                    }
                    assert(ordered(Some(node)));
                    assert(height_of(gl) as int == 1 + vstd::math::max(
                        height_of(gl.unwrap().left) as int,
                        height_of(gl.unwrap().right) as int,
                    ));
                }
                let ghost gt: AVLTree = Some(node);
                let r = Self::rightRotate(node);
                proof {
                    let l0 = *gl.unwrap();
                    assert(balanced(l0.left) && balanced(l0.right));
                    assert(height_of(r.right) as int == 1 + vstd::math::max(
                        height_of(l0.right) as int,
                        height_of(gr) as int,
                    ));
                    assert(height_of(Some(r)) as int == 1 + vstd::math::max(
                        height_of(l0.left) as int,
                        height_of(r.right) as int,
                    ));
                    assert(balanced(r.right));
                    assert(balanced(Some(r)));
                    assert(keys_of(gt) =~= keys_of(gl).union(keys_of(gr)).insert(
                        key,
                    ));
                }
                Some(r)
            },
            RotationCase::RR => {
                proof {
                    if node.right is None {
                        assert(height_of(node.right) == 0);
                    }
                    assert(ordered(Some(node)));
                    assert(height_of(gr) as int == 1 + vstd::math::max(
                        height_of(gr.unwrap().left) as int,
                        height_of(gr.unwrap().right) as int,
                    ));
                }
                let ghost gt: AVLTree = Some(node);
                let r = Self::leftRotate(node);
                proof {
                    let r0 = *gr.unwrap();
                    assert(balanced(r0.left) && balanced(r0.right));
                    assert(height_of(r.left) as int == 1 + vstd::math::max(
                        height_of(gl) as int,
                        height_of(r0.left) as int,
                    ));
                    assert(height_of(Some(r)) as int == 1 + vstd::math::max(
                        height_of(r.left) as int,
                        height_of(r0.right) as int,
                    ));
                    assert(balanced(r.left));
                    assert(balanced(Some(r)));
                    assert(keys_of(gt) =~= keys_of(gl).union(keys_of(gr)).insert(
                        key,
                    ));
                }
                Some(r)
            },
            RotationCase::LR => {
                let AVLNode { key: k2, height: h2, left: l2, right: r2 } = *node;
                proof {
                    if l2 is None {
                        assert(height_of(l2) == 0);
                    }
                    assert(ordered(l2) && heights_ok(l2) && balanced(l2));
                    assert(heights_ok(l2.unwrap().left) && heights_ok(l2.unwrap().right));
                    if l2.unwrap().right is None {
                        assert(height_of(l2.unwrap().right) == 0);
                    }
                    assert(height_of(l2) as int == 1 + vstd::math::max(
                        height_of(l2.unwrap().left) as int,
                        height_of(l2.unwrap().right) as int,
                    ));
                    assert(height_of(l2.unwrap().right) as int == 1 + vstd::math::max(
                        height_of(l2.unwrap().right.unwrap().left) as int,
                        height_of(l2.unwrap().right.unwrap().right) as int,
                    ));
                }
                let ghost l0 = *l2.unwrap();
                let ghost lr0 = *l0.right.unwrap();
                let tmp = Self::leftRotate(l2.unwrap());
                let node2 = Box::new(
                    AVLNode { key: k2, height: h2, left: Some(tmp), right: r2 },
                );
                proof {
                    assert forall|k: i64| keys_of(node2.left).contains(k) implies k
                        < node2.key by {
                        assert(keys_of(gl).contains(k));
                    }
                    assert(ordered(Some(node2)));
                    assert(height_of(tmp.left) as int == 1 + vstd::math::max(
                        height_of(l0.left) as int,
                        height_of(lr0.left) as int,
                    ));
                    assert(height_of(Some(tmp)) as int == 1 + vstd::math::max(
                        height_of(tmp.left) as int,
                        height_of(lr0.right) as int,
                    ));
                }
                let ghost gt2: AVLTree = Some(node2);
                let r = Self::rightRotate(node2);
                proof {
                    assert(balanced(gl));
                    assert(balanced(l0.left) && balanced(l0.right));
                    assert(balanced(lr0.left) && balanced(lr0.right));
                    assert(balanced(gr));
                    assert(r.left == gt2.unwrap().left.unwrap().left);
                    assert(height_of(r.left) as int == 1 + vstd::math::max(
                        height_of(l0.left) as int,
                        height_of(lr0.left) as int,
                    ));
                    assert(height_of(r.right) as int == 1 + vstd::math::max(
                        height_of(lr0.right) as int,
                        height_of(gr) as int,
                    ));
                    assert(height_of(Some(r)) as int == 1 + vstd::math::max(
                        height_of(r.left) as int,
                        height_of(r.right) as int,
                    ));
                    assert(balanced(r.left));
                    assert(balanced(r.right));
                    assert(balanced(Some(r)));
                    assert(keys_of(gt2) =~= keys_of(Some(tmp)).union(
                        keys_of(gr),
                    ).insert(key));
                    assert(keys_of(Some(r)) =~= keys_of(gl).union(keys_of(gr)).insert(
                        key,
                    ));
                }
                Some(r)
            },
            RotationCase::RL => {
                let AVLNode { key: k2, height: h2, left: l2, right: r2 } = *node;
                proof {
                    if r2 is None {
                        assert(height_of(r2) == 0);
                    }
                    assert(ordered(r2) && heights_ok(r2) && balanced(r2));
                    assert(heights_ok(r2.unwrap().left) && heights_ok(r2.unwrap().right));
                    if r2.unwrap().left is None {
                        assert(height_of(r2.unwrap().left) == 0);
                    }
                    assert(height_of(r2) as int == 1 + vstd::math::max(
                        height_of(r2.unwrap().left) as int,
                        height_of(r2.unwrap().right) as int,
                    ));
                    assert(height_of(r2.unwrap().left) as int == 1 + vstd::math::max(
                        height_of(r2.unwrap().left.unwrap().left) as int,
                        height_of(r2.unwrap().left.unwrap().right) as int,
                    ));
                }
                let ghost r0 = *r2.unwrap();
                let ghost rl0 = *r0.left.unwrap();
                let tmp = Self::rightRotate(r2.unwrap());
                let node2 = Box::new(
                    AVLNode { key: k2, height: h2, left: l2, right: Some(tmp) },
                );
                proof {
                    assert forall|k: i64| keys_of(node2.right).contains(k) implies k
                        > node2.key by {
                        assert(keys_of(gr).contains(k));
                    }
                    assert(ordered(Some(node2)));
                    assert(height_of(tmp.right) as int == 1 + vstd::math::max(
                        height_of(rl0.right) as int,
                        height_of(r0.right) as int,
                    ));
                    assert(height_of(Some(tmp)) as int == 1 + vstd::math::max(
                        height_of(rl0.left) as int,
                        height_of(tmp.right) as int,
                    ));
                }
                let ghost gt2: AVLTree = Some(node2);
                let r = Self::leftRotate(node2);
                proof {
                    assert(balanced(gr));
                    assert(balanced(r0.left) && balanced(r0.right));
                    assert(balanced(rl0.left) && balanced(rl0.right));
                    assert(balanced(gl));
                    assert(r.right == gt2.unwrap().right.unwrap().right);
                    assert(height_of(r.right) as int == 1 + vstd::math::max(
                        height_of(rl0.right) as int,
                        height_of(r0.right) as int,
                    ));
                    assert(height_of(r.left) as int == 1 + vstd::math::max(
                        height_of(gl) as int,
                        height_of(rl0.left) as int,
                    ));
                    assert(height_of(Some(r)) as int == 1 + vstd::math::max(
                        height_of(r.left) as int,
                        height_of(r.right) as int,
                    ));
                    assert(balanced(r.left));
                    assert(balanced(r.right));
                    assert(balanced(Some(r)));
                    assert(keys_of(gt2) =~= keys_of(gl).union(
                        keys_of(Some(tmp)),
                    ).insert(key));
                    assert(keys_of(Some(r)) =~= keys_of(gl).union(keys_of(gr)).insert(
                        key,
                    ));
                }
                Some(r)
            },
        }
    }

    /// Inserts `data` into the subtree rooted at `node` and returns the new
    /// subtree root. Inserting a key that is already present leaves the tree
    /// unchanged.
    pub fn insert(node: AVLTree, data: i64) -> (r: AVLTree)
        requires
            wf(node),
            (height_of(node) as int) <= i32::MAX - 1,
        ensures
            wf(r),
            r.is_some(),
            keys_of(r) == keys_of(node).insert(data),
            height_of(node) <= height_of(r),
            height_of(r) <= height_of(node) + 1,
        decreases node,
    {
        let ghost t0 = node;
        match node {
            None => {
                let r = Self::new(data);
                proof {
                    assert(keys_of(t0) =~= Set::empty());
                    assert(keys_of(r) =~= keys_of(t0).insert(data));
                }
                r
            },
            Some(b) => {
                if data < b.key {
                    let AVLNode { key, height: _, left, right } = *b;
                    proof {
                        assert(ordered(left) && heights_ok(left) && balanced(left));
                        assert(ordered(right) && heights_ok(right) && balanced(right));
                        assert(height_of(t0) as int == 1 + vstd::math::max(
                            height_of(left) as int,
                            height_of(right) as int,
                        ));
                    }
                    let l2 = Self::insert(left, data);
                    proof {
                        assert forall|k: i64| keys_of(l2).contains(k) implies k < key by {
                            if keys_of(left).contains(k) {
                            } else {
                                assert(k == data);
                            }
                        }
                    }
                    let r = Self::rebalance(key, l2, right);
                    proof {
                        assert(keys_of(r) =~= keys_of(t0).insert(data));
                    }
                    r
                } else if data > b.key {
                    let AVLNode { key, height: _, left, right } = *b;
                    proof {
                        assert(ordered(left) && heights_ok(left) && balanced(left));
                        assert(ordered(right) && heights_ok(right) && balanced(right));
                        assert(height_of(t0) as int == 1 + vstd::math::max(
                            height_of(left) as int,
                            height_of(right) as int,
                        ));
                    }
                    let r2 = Self::insert(right, data);
                    proof {
                        assert forall|k: i64| keys_of(r2).contains(k) implies k > key by {
                            if keys_of(right).contains(k) {
                            } else {
                                assert(k == data);
                            }
                        }
                    }
                    let r = Self::rebalance(key, left, r2);
                    proof {
                        assert(keys_of(r) =~= keys_of(t0).insert(data));
                    }
                    r
                } else {
                    proof {
                        assert(keys_of(t0).contains(data));
                        assert(keys_of(t0).insert(data) =~= keys_of(t0));
                    }
                    Some(b)
                }
            },
        }
    }

    /// Deletes `data` from the subtree rooted at `root` and returns the new
    /// subtree root. Deleting an absent key leaves the tree unchanged; a
    /// node with two children is replaced by its in-order successor, the
    /// leftmost key of its right subtree.
    pub fn delete(root: AVLTree, data: i64) -> (r: AVLTree)
        requires
            wf(root),
        ensures
            wf(r),
            keys_of(r) == keys_of(root).remove(data),
            height_of(r) <= height_of(root),
            height_of(root) <= height_of(r) + 1,
        decreases root,
    {
        let ghost t0 = root;
        match root {
            None => {
                proof {
                    assert(keys_of(t0) =~= Set::empty());
                    assert(keys_of(t0).remove(data) =~= keys_of(t0));
                }
                None
            },
            Some(b) => {
                proof {
                    assert(height_of(t0) as int == 1 + vstd::math::max(
                        height_of(b.left) as int,
                        height_of(b.right) as int,
                    ));
                }
                if data < b.key {
                    let AVLNode { key, height: _, left, right } = *b;
                    proof {
                        assert(ordered(left) && heights_ok(left) && balanced(left));
                        assert(ordered(right) && heights_ok(right) && balanced(right));
                    }
                    let l2 = Self::delete(left, data);
                    proof {
                        assert forall|k: i64| keys_of(l2).contains(k) implies k < key by {
                            assert(keys_of(left).contains(k));
                        }
                        assert(!keys_of(right).contains(data));
                    }
                    let r = Self::rebalance(key, l2, right);
                    proof {
                        assert(keys_of(r) =~= keys_of(t0).remove(data));
                    }
                    r
                } else if data > b.key {
                    let AVLNode { key, height: _, left, right } = *b;
                    proof {
                        assert(ordered(left) && heights_ok(left) && balanced(left));
                        assert(ordered(right) && heights_ok(right) && balanced(right));
                    }
                    let r2 = Self::delete(right, data);
                    proof {
                        assert forall|k: i64| keys_of(r2).contains(k) implies k > key by {
                            assert(keys_of(right).contains(k));
                        }
                        assert(!keys_of(left).contains(data));
                    }
                    let r = Self::rebalance(key, left, r2);
                    proof {
                        assert(keys_of(r) =~= keys_of(t0).remove(data));
                    }
                    r
                } else {
                    let AVLNode { key, height: _, left, right } = *b;
                    proof {
                        assert(ordered(left) && heights_ok(left) && balanced(left));
                        assert(ordered(right) && heights_ok(right) && balanced(right));
                        assert(!keys_of(left).contains(data));
                        assert(!keys_of(right).contains(data));
                    }
                    if left.is_none() {
                        proof {
                            assert(keys_of(left) =~= Set::empty());
                            assert(height_of(left) == 0);
                            assert(keys_of(right) =~= keys_of(t0).remove(data));
                        }
                        right
                    } else if right.is_none() {
                        proof {
                            assert(keys_of(right) =~= Set::empty());
                            assert(height_of(right) == 0);
                            assert(keys_of(left) =~= keys_of(t0).remove(data));
                        }
                        left
                    } else {
                        let m = Self::getMinVal(&right);
                        proof {
                            assert(keys_of(right).contains(m));
                            assert(m > key);
                        }
                        let r2 = Self::delete(right, m);
                        proof {
                            assert forall|k: i64| keys_of(r2).contains(k) implies k > m by {
                                assert(keys_of(right).contains(k));
                                assert(m <= k);
                                assert(k != m);
                            }
                            assert forall|k: i64| keys_of(left).contains(k) implies k < m by {
                                assert(k < key);
                            }
                        }
                        let r = Self::rebalance(m, left, r2);
                        proof {
                            assert(keys_of(r) =~= keys_of(t0).remove(data));
                        }
                        r
                    }
                }
            },
        }
    }
}

/// The balance factor of a subtree, 0 when it is absent.
pub open spec fn bal_of(t: AVLTree) -> int {
    match t {
        None => 0,
        Some(n) => height_of(n.left) as int - height_of(n.right) as int,
    }
}

/// The diagram lines contributed by a subtree drawn below some ancestor:
/// for each node one line holding the indentation, a connector glyph and the
/// key, with the right subtree rendered above the left.
pub open spec fn pretty_helper_spec(
    padding: Seq<char>,
    pointer: Seq<char>,
    t: AVLTree,
    has_right: bool,
) -> Seq<char>
    decreases t,
{
    match t {
        None => Seq::empty(),
        Some(n) => {
            let line = "\n"@ + padding + pointer + dec_rep(n.key as int);
            let pad2 = padding + if has_right {
                "│  "@
            } else {
                "   "@
            };
            line + pretty_helper_spec(pad2, "└──"@, n.right, false)
                + pretty_helper_spec(
                pad2,
                if n.right is Some {
                    "├──"@
                } else {
                    "└──"@
                },
                n.left,
                n.right is Some,
            )
        },
    }
}

/// The text diagram of a tree: the root key on the first line, then the
/// right subtree above the left subtree, one line per node; empty for the
/// empty tree.
pub open spec fn pretty_spec(t: AVLTree) -> Seq<char> {
    match t {
        None => Seq::empty(),
        Some(n) => dec_rep(n.key as int) + pretty_helper_spec(""@, "└──"@, n.right, false)
            + pretty_helper_spec(
            ""@,
            if n.right is Some {
                "├──"@
            } else {
                "└──"@
            },
            n.left,
            n.right is Some,
        ),
    }
}

impl AVLNode {
    /// Renders the subtree as a text diagram, one line per node, the right
    /// subtree above the left, connected with box-drawing glyphs.
    pub fn prettyPrint(root: &AVLTree) -> (s: String)
        ensures
            s@ == pretty_spec(*root),
    {
        match root {
            None => {
                let s = String::new();
                proof {
                    assert(s@ =~= pretty_spec(*root));
                }
                s
            },
            Some(n) => {
                let mut sb = key_to_string(n.key);
                let pointer_left = if n.right.is_none() {
                    "└──"
                } else {
                    "├──"
                };
                Self::prettyPrintHelper(&mut sb, "", "└──", &n.right, false);
                Self::prettyPrintHelper(&mut sb, "", pointer_left, &n.left, n.right.is_some());
                proof {
                    reveal_strlit("");
                    assert(""@ =~= Seq::<char>::empty());
                    assert(sb@ =~= pretty_spec(*root));
                }
                sb
            },
        }
    }

    /// Appends to `sb` the diagram lines of `node`: its own line under the
    /// given padding and connector glyph, then, indented one level deeper,
    /// its right subtree above its left subtree.
    #[verifier::rlimit(50)]
    pub fn prettyPrintHelper(
        sb: &mut String,
        padding: &str,
        pointer: &str,
        node: &AVLTree,
        hasRight: bool,
    )
        ensures
            final(sb)@ == old(sb)@ + pretty_helper_spec(padding@, pointer@, *node, hasRight),
        decreases *node,
    {
        match node {
            None => {
                proof {
                    assert(old(sb)@ + pretty_helper_spec(padding@, pointer@, *node, hasRight)
                        =~= old(sb)@);
                }
            },
            Some(n) => {
                sb.append("\n");
                sb.append(padding);
                sb.append(pointer);
                let ks = key_to_string(n.key);
                sb.append(ks.as_str());
                let mut psb = String::from_str(padding);
                if hasRight {
                    psb.append("│  ");
                } else {
                    psb.append("   ");
                }
                let pointer_left = if n.right.is_none() {
                    "└──"
                } else {
                    "├──"
                };
                Self::prettyPrintHelper(sb, psb.as_str(), "└──", &n.right, false);
                Self::prettyPrintHelper(sb, psb.as_str(), pointer_left, &n.left, n.right.is_some());
                proof {
                    assert(final(sb)@ =~= old(sb)@ + pretty_helper_spec(
                        padding@,
                        pointer@,
                        *node,
                        hasRight,
                    ));
                }
            },
        }
    }
}

/// The facade: an AVL tree owning its root slot, seen abstractly as the set
/// of keys it holds.
pub struct AVL {
    pub root: AVLTree,
}

impl View for AVL {
    type V = Set<i64>;

    open spec fn view(&self) -> Set<i64> {
        keys_of(self.root)
    }
}

impl AVL {
    /// The facade invariant: the owned tree is well formed.
    pub open spec fn wf(&self) -> bool {
        wf(self.root)
    }

    /// The height of the owned tree.
    pub open spec fn spec_height(&self) -> nat {
        height_of(self.root)
    }

    /// The number of nodes of the owned tree.
    pub open spec fn spec_size(&self) -> nat {
        size_of(self.root)
    }

    /// The keys of the owned tree in ascending order.
    pub open spec fn spec_inorder(&self) -> Seq<i64> {
        inorder_of(self.root)
    }

    /// Creates an empty tree.
    pub fn new() -> (t: Self)
        ensures
            t.wf(),
            t@ == Set::<i64>::empty(),
            t.spec_height() == 0,
    {
        let t = AVL { root: None };
        proof {
            assert(t@ =~= Set::<i64>::empty());
        }
        t
    }

    /// Whether the tree holds no key.
    pub fn isEmpty(&mut self) -> (r: bool)
        ensures
            *final(self) == *old(self),
            r == (old(self)@ == Set::<i64>::empty()),
    {
        AVLNode::isEmpty(&self.root)
    }

    /// Inserts `data`; inserting a key already present is a no-op.
    pub fn insert(&mut self, data: i64)
        requires
            old(self).wf(),
            (old(self).spec_height() as int) <= i32::MAX - 1,
        ensures
            final(self).wf(),
            final(self)@ == old(self)@.insert(data),
            old(self).spec_height() <= final(self).spec_height(),
            final(self).spec_height() <= old(self).spec_height() + 1,
    {
        let root = self.root.take();
        self.root = AVLNode::insert(root, data);
    }

    /// Deletes `data`; deleting an absent key is a no-op.
    pub fn delete(&mut self, data: i64)
        requires
            old(self).wf(),
        ensures
            final(self).wf(),
            final(self)@ == old(self)@.remove(data),
            final(self).spec_height() <= old(self).spec_height(),
            old(self).spec_height() <= final(self).spec_height() + 1,
    {
        let root = self.root.take();
        self.root = AVLNode::delete(root, data);
    }

    /// The number of keys in the tree.
    pub fn count(&self) -> (r: i32)
        requires
            self.wf(),
            self@.len() <= i32::MAX,
        ensures
            r as int == self@.len(),
            r as int == self.spec_size(),
    {
        proof {
            lemma_count_is_cardinality(self.root);
        }
        AVLNode::count(&self.root)
    }

    /// The height of the tree, 0 when it is empty.
    pub fn height(&self) -> (r: i32)
        requires
            self.wf(),
        ensures
            r as int == self.spec_height(),
    {
        AVLNode::height(&self.root)
    }

    /// The keys in ascending order.
    pub fn inorder(&self) -> (v: Vec<i64>)
        requires
            self.wf(),
        ensures
            v@ == self.spec_inorder(),
            strictly_sorted(v@),
            lists_exactly(v@, self@),
    {
        proof {
            lemma_inorder_keys(self.root);
        }
        AVLNode::inorder(&self.root)
    }

    /// The text diagram of the tree.
    pub fn print(&self) -> (s: String)
        ensures
            s@ == pretty_spec(self.root),
    {
        AVLNode::prettyPrint(&self.root)
    }

    /// Whether `data` is held in the tree.
    pub fn search(&self, data: i64) -> (r: bool)
        requires
            self.wf(),
        ensures
            r == self@.contains(data),
    {
        AVLNode::search(&self.root, data)
    }
}

/// On an ordered subtree the in-order listing is strictly ascending, lists
/// exactly the subtree's keys, and has one entry per node.
pub proof fn lemma_inorder_keys(t: AVLTree)
    requires
        ordered(t),
    ensures
        strictly_sorted(inorder_of(t)),
        lists_exactly(inorder_of(t), keys_of(t)),
        inorder_of(t).len() == size_of(t),
    decreases t,
{
    match t {
        None => {
            assert(inorder_of(t) =~= Seq::<i64>::empty());
            assert(keys_of(t) =~= Set::<i64>::empty());
        },
        Some(n) => {
            lemma_inorder_keys(n.left);
            lemma_inorder_keys(n.right);
            let s = inorder_of(t);
            let sl = inorder_of(n.left);
            let sr = inorder_of(n.right);
            assert(s == sl + seq![n.key] + sr);
            assert(s.len() == sl.len() + 1 + sr.len());
            assert forall|i: int| 0 <= i < s.len() implies keys_of(t).contains(s[i]) by {
                if i < sl.len() {
                    assert(s[i] == sl[i]);
                    assert(keys_of(n.left).contains(sl[i]));
                } else if i == sl.len() {
                    assert(s[i] == n.key);
                } else {
                    assert(s[i] == sr[i - sl.len() - 1]);
                    assert(keys_of(n.right).contains(sr[i - sl.len() - 1]));
                }
            }
            assert forall|i: int, j: int| 0 <= i < j < s.len() implies s[i] < s[j] by {
                let li = sl.len() as int;
                if j < li {
                    assert(s[i] == sl[i] && s[j] == sl[j]);
                } else if i < li && j == li {
                    assert(keys_of(n.left).contains(sl[i]));
                } else if i < li && j > li {
                    assert(keys_of(n.left).contains(sl[i]));
                    assert(keys_of(n.right).contains(sr[j - li - 1]));
                } else if i == li && j > li {
                    assert(keys_of(n.right).contains(sr[j - li - 1]));
                } else {
                    assert(s[i] == sr[i - li - 1] && s[j] == sr[j - li - 1]);
                }
            }
            assert forall|k: i64| keys_of(t).contains(k) implies s.contains(k) by {
                let li = sl.len() as int;
                if keys_of(n.left).contains(k) {
                    assert(sl.contains(k));
                    let i = choose|i: int| 0 <= i < sl.len() && sl[i] == k;
                    assert(s[i] == k);
                } else if keys_of(n.right).contains(k) {
                    assert(sr.contains(k));
                    let i = choose|i: int| 0 <= i < sr.len() && sr[i] == k;
                    assert(s[li + 1 + i] == k);
                } else {
                    assert(k == n.key);
                    assert(s[li] == k);
                }
            }
        },
    }
}

/// Two ordered trees over the same key set have the same in-order listing:
/// the listing is determined by the key set alone.
pub proof fn lemma_same_keys_same_inorder(t1: AVLTree, t2: AVLTree)
    requires
        ordered(t1),
        ordered(t2),
        keys_of(t1) == keys_of(t2),
    ensures
        inorder_of(t1) == inorder_of(t2),
{
    lemma_inorder_keys(t1);
    lemma_inorder_keys(t2);
    lemma_sorted_unique(inorder_of(t1), inorder_of(t2), keys_of(t1));
}

/// Round trip: inserting a key that was absent and then deleting it again
/// restores the key set and the in-order listing. The two premises on the
/// key sets are exactly what `insert` and `delete` ensure.
pub proof fn lemma_insert_delete_round_trip(
    t0: AVLTree,
    t1: AVLTree,
    t2: AVLTree,
    data: i64,
)
    requires
        ordered(t0),
        ordered(t1),
        ordered(t2),
        !keys_of(t0).contains(data),
        keys_of(t1) == keys_of(t0).insert(data),
        keys_of(t2) == keys_of(t1).remove(data),
    ensures
        keys_of(t2) == keys_of(t0),
        inorder_of(t2) == inorder_of(t0),
{
    assert(keys_of(t2) =~= keys_of(t0));
    lemma_same_keys_same_inorder(t2, t0);
}

/// Inserting the same key a second time is a no-op on the key set and on
/// the in-order listing. The premises are what two runs of `insert` ensure.
pub proof fn lemma_insert_idempotent(t0: AVLTree, t1: AVLTree, t2: AVLTree, data: i64)
    requires
        ordered(t1),
        ordered(t2),
        keys_of(t1) == keys_of(t0).insert(data),
        keys_of(t2) == keys_of(t1).insert(data),
    ensures
        keys_of(t2) == keys_of(t1),
        inorder_of(t2) == inorder_of(t1),
{
    assert(keys_of(t2) =~= keys_of(t1));
    lemma_same_keys_same_inorder(t2, t1);
}

/// Deleting an absent key is a no-op on the key set and on the in-order
/// listing. The premise is what `delete` ensures.
pub proof fn lemma_delete_absent_noop(t0: AVLTree, t1: AVLTree, data: i64)
    requires
        ordered(t0),
        ordered(t1),
        !keys_of(t0).contains(data),
        keys_of(t1) == keys_of(t0).remove(data),
    ensures
        keys_of(t1) == keys_of(t0),
        inorder_of(t1) == inorder_of(t0),
{
    assert(keys_of(t1) =~= keys_of(t0));
    lemma_same_keys_same_inorder(t1, t0);
}

/// The node count of an ordered tree is the cardinality of its key set, and
/// only the empty tree has an empty key set.
pub proof fn lemma_count_is_cardinality(t: AVLTree)
    requires
        ordered(t),
    ensures
        keys_of(t).finite(),
        keys_of(t).len() == size_of(t),
        (keys_of(t) =~= Set::<i64>::empty()) <==> (t is None),
{
    broadcast use vstd::seq_lib::seq_to_set_is_finite;

    lemma_inorder_keys(t);
    let s = inorder_of(t);
    crate::order::lemma_strictly_sorted_no_duplicates(s);
    s.unique_seq_to_set();
    assert(keys_of(t) =~= s.to_set());
    match t {
        None => {
            assert(keys_of(t) =~= Set::<i64>::empty());
        },
        Some(n) => {
            assert(keys_of(t).contains(n.key));
        },
    }
}

} // verus!
