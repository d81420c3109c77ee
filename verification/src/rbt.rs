//! A color-balanced (red-black) binary search tree over `i64` keys.
//!
//! Every subtree is owned by its parent and each mutating operation takes
//! the subtree it works on and returns the new subtree root, so no parent
//! back-references are needed: the fix-up passes run on the unwind of the
//! recursive descent. The facade type [`RBTree`] wraps the root slot.

use vstd::prelude::*;

use crate::keystr::{dec_rep, key_to_string};
use vstd::string::StringExecFns;

verus! {

/// The color of a red-black tree node.
#[derive(Clone, Copy, PartialEq, Eq, Structural)]
pub enum NodeColor {
    Red,
    Black,
}

/// A node of the red-black tree: a color, a key and the two owned child
/// subtrees.
pub struct TreeNode {
    pub color: NodeColor,
    pub key: i64,
    pub left: Child,
    pub right: Child,
}

/// A possibly absent red-black subtree.
pub type Child = Option<Box<TreeNode>>;

/// Whether the subtree's root is Black; an absent subtree counts as Black.
pub open spec fn is_black(t: Child) -> bool {
    match t {
        None => true,
        Some(n) => n.color == NodeColor::Black,
    }
}

/// The number of Black nodes on the path from the root of `t` down its left
/// spine; on a valid tree this is the Black count of every root-to-leaf path.
pub open spec fn black_height(t: Child) -> nat
    decreases t,
{
    match t {
        None => 0,
        Some(n) => black_height(n.left) + if n.color == NodeColor::Black {
            1nat
        } else {
            0nat
        },
    }
}

/// The red-black coloring invariants of a subtree: both children are valid,
/// all paths carry the same Black count, and a Red node has Black children.
pub open spec fn rb_valid(t: Child) -> bool
    decreases t,
{
    match t {
        None => true,
        Some(n) => {
            &&& rb_valid(n.left)
            &&& rb_valid(n.right)
            &&& black_height(n.left) == black_height(n.right)
            &&& (n.color == NodeColor::Red ==> is_black(n.left) && is_black(n.right))
        },
    }
}

/// A subtree whose children are valid with equal Black counts, while the
/// root itself may be Red with a Red child, but with at most one: the shape
/// an insertion hands back before the fix-up at the next Black ancestor.
pub open spec fn almost_valid(t: Child) -> bool {
    match t {
        None => true,
        Some(n) => {
            &&& rb_valid(n.left)
            &&& rb_valid(n.right)
            &&& black_height(n.left) == black_height(n.right)
            &&& (n.color == NodeColor::Red ==> is_black(n.left) || is_black(n.right))
        },
    }
}

/// No Red node has a Red child anywhere in the subtree.
pub open spec fn no_red_red(t: Child) -> bool
    decreases t,
{
    match t {
        None => true,
        Some(n) => {
            &&& no_red_red(n.left)
            &&& no_red_red(n.right)
            &&& (n.color == NodeColor::Red ==> is_black(n.left) && is_black(n.right))
        },
    }
}

/// The set of keys held in a subtree.
pub open spec fn keys_of(t: Child) -> Set<i64>
    decreases t,
{
    match t {
        None => Set::empty(),
        Some(n) => keys_of(n.left).union(keys_of(n.right)).insert(n.key),
    }
}

/// The keys of a subtree in ascending (in-order) sequence.
pub open spec fn inorder_of(t: Child) -> Seq<i64>
    decreases t,
{
    match t {
        None => Seq::empty(),
        Some(n) => inorder_of(n.left) + seq![n.key] + inorder_of(n.right),
    }
}

/// The number of nodes in a subtree.
pub open spec fn size_of(t: Child) -> nat
    decreases t,
{
    match t {
        None => 0,
        Some(n) => 1 + size_of(n.left) + size_of(n.right),
    }
}

/// The binary-search-tree ordering: at every node, all keys of the left
/// subtree are smaller than the node's key and all keys of the right subtree
/// are greater.
pub open spec fn ordered(t: Child) -> bool
    decreases t,
{
    match t {
        None => true,
        Some(n) => {
            &&& ordered(n.left)
            &&& ordered(n.right)
            &&& forall|k: i64| keys_of(n.left).contains(k) ==> k < n.key
            &&& forall|k: i64| keys_of(n.right).contains(k) ==> k > n.key
        },
    }
}

/// Every downward path from the root of `t` to an absent child passes
/// exactly `c` Black nodes.
pub open spec fn every_path_black_count(t: Child, c: int) -> bool
    decreases t,
{
    match t {
        None => c == 0,
        Some(n) => {
            let below = c - if n.color == NodeColor::Black {
                1int
            } else {
                0int
            };
            every_path_black_count(n.left, below) && every_path_black_count(n.right, below)
        },
    }
}

/// On a valid tree every root-to-null path carries the same number of Black
/// nodes: the tree's Black height.
pub proof fn lemma_rb_valid_equal_path_counts(t: Child)
    requires
        rb_valid(t),
    ensures
        every_path_black_count(t, black_height(t) as int),
    decreases t,
{
    match t {
        None => {},
        Some(n) => {
            lemma_rb_valid_equal_path_counts(n.left);
            lemma_rb_valid_equal_path_counts(n.right);
        },
    }
}

/// A valid coloring never stacks two Reds.
pub proof fn lemma_rb_valid_no_red_red(t: Child)
    requires
        rb_valid(t),
    ensures
        no_red_red(t),
    decreases t,
{
    match t {
        None => {},
        Some(n) => {
            lemma_rb_valid_no_red_red(n.left);
            lemma_rb_valid_no_red_red(n.right);
        },
    }
}

impl TreeNode {
    /// Creates a fresh Red node holding `key` and no children.
    pub fn new(key: i64) -> (r: TreeNode)
        ensures
            r.color == NodeColor::Red,
            r.key == key,
            r.left is None,
            r.right is None,
    {
        TreeNode { color: NodeColor::Red, key, left: None, right: None }
    }
}

/// The facade: a red-black tree owning its root slot, seen abstractly as
/// the set of keys it holds.
pub struct RBTree {
    pub root: Child,
}

impl RBTree {
    /// Whether the subtree's root carries the Red color.
    fn is_red(t: &Child) -> (r: bool)
        ensures
            r == !is_black(*t),
    {
        match t {
            None => false,
            Some(n) => n.color == NodeColor::Red,
        }
    }

    /// Right rotation about `node`: promotes the left child to the root of
    /// the subtree, making the former root its right child. Colors travel
    /// with their nodes; the rotated subtree keeps its keys and ordering.
    pub fn right_rotation(node: Box<TreeNode>) -> (r: Box<TreeNode>)
        requires
            node.left.is_some(),
            ordered(Some(node)),
        ensures
            r.key == node.left.unwrap().key,
            r.color == node.left.unwrap().color,
            r.left == node.left.unwrap().left,
            r.right.is_some(),
            r.right.unwrap().key == node.key,
            r.right.unwrap().color == node.color,
            r.right.unwrap().left == node.left.unwrap().right,
            r.right.unwrap().right == node.right,
            ordered(Some(r)),
            keys_of(Some(r)) == keys_of(Some(node)),
    {
        let ghost t0: Child = Some(node);
        let ghost n0 = *node;
        let ghost l0 = *n0.left.unwrap();
        let TreeNode { color, key, left, right } = *node;
        let l = left.unwrap();
        let TreeNode { color: lcolor, key: lkey, left: ll, right: lr } = *l;
        let inner = Box::new(TreeNode { color, key, left: lr, right });
        let r = Box::new(TreeNode { color: lcolor, key: lkey, left: ll, right: Some(inner) });
        proof {
            assert(ordered(n0.left) && ordered(n0.right));
            assert(ordered(l0.left) && ordered(l0.right));
            assert(keys_of(n0.left).contains(l0.key));
            assert(keys_of(r.right) =~= keys_of(l0.right).union(keys_of(n0.right)).insert(
                n0.key,
            ));
            assert forall|k: i64| keys_of(r.right).contains(k) implies k > l0.key by {
                if keys_of(l0.right).contains(k) {
                    assert(k > l0.key);
                } else if keys_of(n0.right).contains(k) {
                    assert(k > n0.key);
                    assert(l0.key < n0.key);
                } else {
                    assert(k == n0.key);
                    assert(l0.key < n0.key);
                }
            }
            assert forall|k: i64| keys_of(l0.right).contains(k) implies k < n0.key by {
                assert(keys_of(n0.left).contains(k));
            }
            assert(ordered(r.right));
            assert(ordered(Some(r)));
            assert(keys_of(Some(r)) =~= keys_of(t0));
        }
        r
    }

    /// Left rotation about `node`: the mirror image of `right_rotation`.
    pub fn left_rotation(node: Box<TreeNode>) -> (r: Box<TreeNode>)
        requires
            node.right.is_some(),
            ordered(Some(node)),
        ensures
            r.key == node.right.unwrap().key,
            r.color == node.right.unwrap().color,
            r.right == node.right.unwrap().right,
            r.left.is_some(),
            r.left.unwrap().key == node.key,
            r.left.unwrap().color == node.color,
            r.left.unwrap().right == node.right.unwrap().left,
            r.left.unwrap().left == node.left,
            ordered(Some(r)),
            keys_of(Some(r)) == keys_of(Some(node)),
    {
        let ghost t0: Child = Some(node);
        let ghost n0 = *node;
        let ghost r0 = *n0.right.unwrap();
        let TreeNode { color, key, left, right } = *node;
        let rn = right.unwrap();
        let TreeNode { color: rcolor, key: rkey, left: rl, right: rr } = *rn;
        let inner = Box::new(TreeNode { color, key, left, right: rl });
        let r = Box::new(TreeNode { color: rcolor, key: rkey, left: Some(inner), right: rr });
        proof {
            assert(ordered(n0.left) && ordered(n0.right));
            assert(ordered(r0.left) && ordered(r0.right));
            assert(keys_of(n0.right).contains(r0.key));
            assert(keys_of(r.left) =~= keys_of(n0.left).union(keys_of(r0.left)).insert(
                n0.key,
            ));
            assert forall|k: i64| keys_of(r.left).contains(k) implies k < r0.key by {
                if keys_of(n0.left).contains(k) {
                    assert(k < n0.key);
                    assert(n0.key < r0.key);
                } else if keys_of(r0.left).contains(k) {
                    assert(k < r0.key);
                } else {
                    assert(k == n0.key);
                    assert(n0.key < r0.key);
                }
            }
            assert forall|k: i64| keys_of(r0.left).contains(k) implies k > n0.key by {
                assert(keys_of(n0.right).contains(k));
            }
            assert(ordered(r.left));
            assert(ordered(Some(r)));
            assert(keys_of(Some(r)) =~= keys_of(t0));
        }
        r
    }

    /// The insertion fix-up at a Black node: each child subtree is valid or
    /// carries one Red-Red violation directly below its Red root, at most
    /// one of them does, and both carry the same Black count. One recoloring
    /// or one (possibly double) rotation rebuilds a fully valid subtree with
    /// one more Black on every path than either child had.
    pub fn check_property(node: Box<TreeNode>) -> (r: Child)
        requires
            node.color == NodeColor::Black,
            almost_valid(node.left),
            almost_valid(node.right),
            rb_valid(node.left) || rb_valid(node.right),
            black_height(node.left) == black_height(node.right),
            ordered(Some(node)),
        ensures
            r.is_some(),
            rb_valid(r),
            ordered(r),
            keys_of(r) == keys_of(Some(node)),
            black_height(r) == black_height(node.left) + 1,
    {
        let ghost t0: Child = Some(node);
        let TreeNode { color: _, key, left, right } = *node;
        let ghost h = black_height(left);
        let mut left_viol = false;
        match &left {
            None => {},
            Some(l) => {
                if l.color == NodeColor::Red && (Self::is_red(&l.left) || Self::is_red(&l.right)) {
                    left_viol = true;
                }
            },
        }
        let mut right_viol = false;
        match &right {
            None => {},
            Some(rn) => {
                if rn.color == NodeColor::Red && (Self::is_red(&rn.left) || Self::is_red(
                    &rn.right,
                )) {
                    right_viol = true;
                }
            },
        }
        proof {
            assert(ordered(left) && ordered(right));
        }
        if left_viol {
            let l = left.unwrap();
            if Self::is_red(&right) {
                // the uncle is Red: recolor both children Black and this
                // node Red; the violation moves to this node's own parent.
                let rn = right.unwrap();
                let TreeNode { color: _, key: lk, left: la, right: lb } = *l;
                let TreeNode { color: _, key: rk, left: ra, right: rb } = *rn;
                let l2 = Box::new(TreeNode { color: NodeColor::Black, key: lk, left: la, right: lb });
                let r2 = Box::new(TreeNode { color: NodeColor::Black, key: rk, left: ra, right: rb });
                let res: Child = Some(
                    Box::new(
                        TreeNode {
                            color: NodeColor::Red,
                            key,
                            left: Some(l2),
                            right: Some(r2),
                        },
                    ),
                );
                proof {
                    assert(rb_valid(Some(l2)));
                    assert(rb_valid(Some(r2)));
                    assert(black_height(Some(l2)) == h + 1);
                    assert(black_height(Some(r2)) == h + 1);
                    assert(rb_valid(res));
                    assert(black_height(res) == h + 1);
                    assert(ordered(Some(l2)) && ordered(Some(r2)));
                    assert(keys_of(Some(l2)) =~= keys_of(left));
                    assert(keys_of(Some(r2)) =~= keys_of(right));
                    assert(ordered(res));
                    assert(keys_of(res) =~= keys_of(t0));
                }
                res
            } else {
                // the uncle is Black: straighten a zig-zag if needed, then
                // recolor and rotate about this node.
                let straight = !Self::is_red(&l.left);
                let lx = if straight {
                    proof {
                        assert(l.right.unwrap().color == NodeColor::Red);
                    }
                    Self::left_rotation(l)
                } else {
                    l
                };
                proof {
                    assert(lx.color == NodeColor::Red);
                    assert(lx.left.is_some() && lx.left.unwrap().color == NodeColor::Red);
                    assert(rb_valid(lx.left) && rb_valid(lx.right));
                    assert(is_black(lx.right));
                    assert(black_height(lx.left) == h && black_height(lx.right) == h);
                    assert(ordered(Some(lx)));
                    assert(keys_of(Some(lx)) =~= keys_of(left));
                }
                let TreeNode { color: _, key: lxk, left: lxl, right: lxr } = *lx;
                let l4 = Box::new(TreeNode { color: NodeColor::Black, key: lxk, left: lxl, right: lxr });
                let node2 = Box::new(
                    TreeNode { color: NodeColor::Red, key, left: Some(l4), right },
                );
                proof {
                    assert(keys_of(Some(l4)) =~= keys_of(left));
                    assert forall|k: i64| keys_of(node2.left).contains(k) implies k
                        < node2.key by {
                        assert(keys_of(left).contains(k));
                    }
                    assert(ordered(Some(l4)));
                    assert(ordered(Some(node2)));
                }
                let r = Self::right_rotation(node2);
                let res: Child = Some(r);
                proof {
                    assert(r.right.unwrap().color == NodeColor::Red);
                    assert(rb_valid(r.left));
                    assert(black_height(r.left) == h);
                    assert(rb_valid(r.right));
                    assert(black_height(r.right) == h);
                    assert(rb_valid(res));
                    assert(black_height(res) == h + 1);
                    assert(keys_of(res) =~= keys_of(t0));
                }
                res
            }
        } else if right_viol {
            let rn = right.unwrap();
            if Self::is_red(&left) {
                let l = left.unwrap();
                let TreeNode { color: _, key: lk, left: la, right: lb } = *l;
                let TreeNode { color: _, key: rk, left: ra, right: rb } = *rn;
                let l2 = Box::new(TreeNode { color: NodeColor::Black, key: lk, left: la, right: lb });
                let r2 = Box::new(TreeNode { color: NodeColor::Black, key: rk, left: ra, right: rb });
                let res: Child = Some(
                    Box::new(
                        TreeNode {
                            color: NodeColor::Red,
                            key,
                            left: Some(l2),
                            right: Some(r2),
                        },
                    ),
                );
                proof {
                    assert(rb_valid(Some(l2)));
                    assert(rb_valid(Some(r2)));
                    assert(black_height(Some(l2)) == h + 1);
                    assert(black_height(Some(r2)) == h + 1);
                    assert(rb_valid(res));
                    assert(black_height(res) == h + 1);
                    assert(ordered(Some(l2)) && ordered(Some(r2)));
                    assert(keys_of(Some(l2)) =~= keys_of(left));
                    assert(keys_of(Some(r2)) =~= keys_of(right));
                    assert(ordered(res));
                    assert(keys_of(res) =~= keys_of(t0));
                }
                res
            } else {
                let straight = !Self::is_red(&rn.right);
                let rx = if straight {
                    proof {
                        assert(rn.left.unwrap().color == NodeColor::Red);
                    }
                    Self::right_rotation(rn)
                } else {
                    rn
                };
                proof {
                    assert(rx.color == NodeColor::Red);
                    assert(rx.right.is_some() && rx.right.unwrap().color == NodeColor::Red);
                    assert(rb_valid(rx.left) && rb_valid(rx.right));
                    assert(is_black(rx.left));
                    assert(black_height(rx.left) == h && black_height(rx.right) == h);
                    assert(ordered(Some(rx)));
                    assert(keys_of(Some(rx)) =~= keys_of(right));
                }
                let TreeNode { color: _, key: rxk, left: rxl, right: rxr } = *rx;
                let r4 = Box::new(TreeNode { color: NodeColor::Black, key: rxk, left: rxl, right: rxr });
                let node2 = Box::new(
                    TreeNode { color: NodeColor::Red, key, left, right: Some(r4) },
                );
                proof {
                    assert(keys_of(Some(r4)) =~= keys_of(right));
                    assert forall|k: i64| keys_of(node2.right).contains(k) implies k
                        > node2.key by {
                        assert(keys_of(right).contains(k));
                    }
                    assert(ordered(Some(r4)));
                    assert(ordered(Some(node2)));
                }
                let r = Self::left_rotation(node2);
                let res: Child = Some(r);
                proof {
                    assert(r.left.unwrap().color == NodeColor::Red);
                    assert(rb_valid(r.right));
                    assert(black_height(r.right) == h);
                    assert(rb_valid(r.left));
                    assert(black_height(r.left) == h);
                    assert(rb_valid(res));
                    assert(black_height(res) == h + 1);
                    assert(keys_of(res) =~= keys_of(t0));
                }
                res
            }
        } else {
            let res: Child = Some(Box::new(TreeNode { color: NodeColor::Black, key, left, right }));
            proof {
                assert(rb_valid(left));
                assert(rb_valid(right));
                assert(rb_valid(res));
                assert(black_height(res) == h + 1);
                assert(ordered(res));
                assert(keys_of(res) =~= keys_of(t0));
            }
            res
        }
    }

    /// Inserts `key` below `t` and returns the new subtree root: a fresh
    /// Red leaf is attached at the search position and the fix-up runs at
    /// each Black node on the unwind. The result is valid except possibly
    /// for a Red root with one Red child when `t` itself was Red-rooted.
    fn ins(t: Child, key: i64) -> (r: Child)
        requires
            ordered(t),
            rb_valid(t),
        ensures
            r.is_some(),
            ordered(r),
            almost_valid(r),
            is_black(t) ==> rb_valid(r),
            black_height(r) == black_height(t),
            keys_of(r) == keys_of(t).insert(key),
        decreases t,
    {
        let ghost t0 = t;
        match t {
            None => {
                let r: Child = Some(Box::new(TreeNode::new(key)));
                proof {
                    assert(rb_valid(r.unwrap().left) && rb_valid(r.unwrap().right));
                    assert(black_height(r.unwrap().left) == 0);
                    assert(black_height(r.unwrap().right) == 0);
                    assert(is_black(r.unwrap().left) && is_black(r.unwrap().right));
                    assert(ordered(r.unwrap().left) && ordered(r.unwrap().right));
                    assert(keys_of(r.unwrap().left) =~= Set::empty());
                    assert(keys_of(r.unwrap().right) =~= Set::empty());
                    assert(keys_of(r) =~= keys_of(t0).insert(key));
                    assert(black_height(r) == 0);
                }
                r
            },
            Some(b) => {
                if key < b.key {
                    let TreeNode { color, key: k0, left, right } = *b;
                    proof {
                        assert(ordered(left) && ordered(right));
                        assert(rb_valid(left) && rb_valid(right));
                    }
                    let l2 = Self::ins(left, key);
                    proof {
                        assert forall|k: i64| keys_of(l2).contains(k) implies k < k0 by {
                            if keys_of(left).contains(k) {
                            } else {
                                assert(k == key);
                            }
                        }
                    }
                    if color == NodeColor::Black {
                        let node2 = Box::new(
                            TreeNode { color: NodeColor::Black, key: k0, left: l2, right },
                        );
                        proof {
                            assert(almost_valid(right));
                            assert(ordered(Some(node2)));
                        }
                        let r = Self::check_property(node2);
                        proof {
                            assert(almost_valid(r));
                            assert(keys_of(r) =~= keys_of(t0).insert(key));
                        }
                        r
                    } else {
                        let r: Child = Some(
                            Box::new(TreeNode { color, key: k0, left: l2, right }),
                        );
                        proof {
                            assert(rb_valid(l2));
                            assert(almost_valid(r));
                            assert(keys_of(r) =~= keys_of(t0).insert(key));
                        }
                        r
                    }
                } else if key > b.key {
                    let TreeNode { color, key: k0, left, right } = *b;
                    proof {
                        assert(ordered(left) && ordered(right));
                        assert(rb_valid(left) && rb_valid(right));
                    }
                    let r2 = Self::ins(right, key);
                    proof {
                        assert forall|k: i64| keys_of(r2).contains(k) implies k > k0 by {
                            if keys_of(right).contains(k) {
                            } else {
                                assert(k == key);
                            }
                        }
                    }
                    if color == NodeColor::Black {
                        let node2 = Box::new(
                            TreeNode { color: NodeColor::Black, key: k0, left, right: r2 },
                        );
                        proof {
                            assert(almost_valid(left));
                            assert(ordered(Some(node2)));
                        }
                        let r = Self::check_property(node2);
                        proof {
                            assert(almost_valid(r));
                            assert(keys_of(r) =~= keys_of(t0).insert(key));
                        }
                        r
                    } else {
                        let r: Child = Some(
                            Box::new(TreeNode { color, key: k0, left, right: r2 }),
                        );
                        proof {
                            assert(rb_valid(r2));
                            assert(almost_valid(r));
                            assert(keys_of(r) =~= keys_of(t0).insert(key));
                        }
                        r
                    }
                } else {
                    proof {
                        assert(keys_of(t0).contains(key));
                        assert(keys_of(t0).insert(key) =~= keys_of(t0));
                        assert(almost_valid(t0));
                    }
                    Some(b)
                }
            },
        }
    }

    /// Creates a new empty tree.
    pub fn new() -> (t: Self)
        ensures
            t.wf(),
            t@ == Set::<i64>::empty(),
    {
        let t = RBTree { root: None };
        proof {
            assert(t@ =~= Set::<i64>::empty());
        }
        t
    }

    /// The facade invariant: the owned tree is ordered, carries the
    /// red-black coloring invariants, and has a Black root.
    pub open spec fn wf(&self) -> bool {
        ordered(self.root) && rb_valid(self.root) && is_black(self.root)
    }

    /// Inserts `key`; inserting a key already present is a no-op.
    pub fn insert(&mut self, key: i64)
        requires
            old(self).wf(),
        ensures
            final(self).wf(),
            final(self)@ == old(self)@.insert(key),
    {
        let root = self.root.take();
        let r = Self::ins(root, key);
        let b = r.unwrap();
        let TreeNode { color: _, key: k2, left, right } = *b;
        let newroot: Child = Some(
            Box::new(TreeNode { color: NodeColor::Black, key: k2, left, right }),
        );
        proof {
            assert(rb_valid(newroot));
            assert(ordered(newroot));
            assert(keys_of(newroot) =~= keys_of(r));
        }
        self.root = newroot;
    }
}

impl View for RBTree {
    type V = Set<i64>;

    open spec fn view(&self) -> Set<i64> {
        keys_of(self.root)
    }
}

impl RBTree {
    /// The smallest key of a nonempty subtree: the key of its leftmost node.
    fn min_key(node: &Child) -> (r: i64)
        requires
            node.is_some(),
            ordered(*node),
        ensures
            keys_of(*node).contains(r),
            forall|k: i64| keys_of(*node).contains(k) ==> r <= k,
        decreases *node,
    {
        let n = node.as_ref().unwrap();
        match &n.left {
            None => {
                proof {
                    assert(keys_of(n.left) =~= Set::empty());
                    assert(keys_of(*node).contains(n.key));
                    assert forall|k: i64| keys_of(*node).contains(k) implies n.key <= k by {
                        if keys_of(n.right).contains(k) {
                            assert(k > n.key);
                        }
                    }
                }
                n.key
            },
            Some(_) => {
                let r = Self::min_key(&n.left);
                proof {
                    assert(keys_of(n.left).contains(r));
                    assert(r < n.key);
                    assert forall|k: i64| keys_of(*node).contains(k) implies r <= k by {
                        if keys_of(n.right).contains(k) {
                            assert(k > n.key);
                        }
                    }
                }
                r
            },
        }
    }

    /// Rebuilds `(l, key, s)` where the left side is one Black short and the
    /// sibling `s` is Black with a Red right child: one left rotation and a
    /// recoloring restore the Black count, with nothing to propagate.
    fn fix_far_right(color: NodeColor, l: Child, key: i64, s: Box<TreeNode>) -> (res: Child)
        requires
            rb_valid(l),
            is_black(l),
            rb_valid(Some(s)),
            s.color == NodeColor::Black,
            s.right.is_some(),
            s.right.unwrap().color == NodeColor::Red,
            black_height(Some(s)) == black_height(l) + 1,
            ordered(l),
            ordered(Some(s)),
            forall|k: i64| keys_of(l).contains(k) ==> k < key,
            forall|k: i64| keys_of(Some(s)).contains(k) ==> k > key,
        ensures
            res.is_some(),
            rb_valid(res),
            ordered(res),
            keys_of(res) == keys_of(l).union(keys_of(Some(s))).insert(key),
            black_height(res) == black_height(l) + 1 + (if color == NodeColor::Black {
                1nat
            } else {
                0nat
            }),
            res.unwrap().color == color,
    {
        let ghost h = black_height(l);
        let ghost gs: Child = Some(s);
        let ghost s0 = *s;
        let TreeNode { color: _, key: skey, left: sl, right: sr } = *s;
        let srn = sr.unwrap();
        let TreeNode { color: _, key: srk, left: sra, right: srb } = *srn;
        let sr2 = Box::new(TreeNode { color: NodeColor::Black, key: srk, left: sra, right: srb });
        let inner = Box::new(TreeNode { color, key: skey, left: sl, right: Some(sr2) });
        let q = Box::new(TreeNode { color: NodeColor::Black, key, left: l, right: Some(inner) });
        proof {
            assert(ordered(sl) && ordered(s0.right));
            assert(ordered(sra) && ordered(srb));
            assert(rb_valid(sl) && rb_valid(s0.right));
            assert(rb_valid(sra) && rb_valid(srb));
            assert(is_black(sra) && is_black(srb));
            assert(black_height(sl) == h && black_height(s0.right) == h);
            assert(black_height(sra) == h && black_height(srb) == h);
            assert(keys_of(Some(sr2)) =~= keys_of(s0.right));
            assert(ordered(Some(sr2)));
            assert(keys_of(Some(inner)) =~= keys_of(gs));
            assert(ordered(Some(inner)));
            assert forall|k: i64| keys_of(Some(inner)).contains(k) implies k > key by {
                assert(keys_of(gs).contains(k));
            }
            assert(ordered(Some(q)));
        }
        let root = Self::left_rotation(q);
        proof {
            assert(root.left.unwrap().color == NodeColor::Black);
            assert(rb_valid(root.left));
            assert(black_height(root.left) == h + 1);
            assert(rb_valid(Some(sr2)));
            assert(black_height(Some(sr2)) == h + 1);
            assert(rb_valid(Some(root)));
            assert(keys_of(Some(root)) =~= keys_of(l).union(keys_of(gs)).insert(key));
        }
        Some(root)
    }

    /// Mirror image of `fix_far_right`: the right side is one Black short
    /// and the sibling `s` is Black with a Red left child.
    fn fix_far_left(color: NodeColor, s: Box<TreeNode>, key: i64, r: Child) -> (res: Child)
        requires
            rb_valid(r),
            is_black(r),
            rb_valid(Some(s)),
            s.color == NodeColor::Black,
            s.left.is_some(),
            s.left.unwrap().color == NodeColor::Red,
            black_height(Some(s)) == black_height(r) + 1,
            ordered(r),
            ordered(Some(s)),
            forall|k: i64| keys_of(r).contains(k) ==> k > key,
            forall|k: i64| keys_of(Some(s)).contains(k) ==> k < key,
        ensures
            res.is_some(),
            rb_valid(res),
            ordered(res),
            keys_of(res) == keys_of(Some(s)).union(keys_of(r)).insert(key),
            black_height(res) == black_height(r) + 1 + (if color == NodeColor::Black {
                1nat
            } else {
                0nat
            }),
            res.unwrap().color == color,
    {
        let ghost h = black_height(r);
        let ghost gs: Child = Some(s);
        let ghost s0 = *s;
        let TreeNode { color: _, key: skey, left: sl, right: sr } = *s;
        let sln = sl.unwrap();
        let TreeNode { color: _, key: slk, left: sla, right: slb } = *sln;
        let sl2 = Box::new(TreeNode { color: NodeColor::Black, key: slk, left: sla, right: slb });
        let inner = Box::new(TreeNode { color, key: skey, left: Some(sl2), right: sr });
        let q = Box::new(TreeNode { color: NodeColor::Black, key, left: Some(inner), right: r });
        proof {
            assert(ordered(s0.left) && ordered(sr));
            assert(ordered(sla) && ordered(slb));
            assert(rb_valid(s0.left) && rb_valid(sr));
            assert(rb_valid(sla) && rb_valid(slb));
            assert(is_black(sla) && is_black(slb));
            assert(black_height(s0.left) == h && black_height(sr) == h);
            assert(black_height(sla) == h && black_height(slb) == h);
            assert(keys_of(Some(sl2)) =~= keys_of(s0.left));
            assert(ordered(Some(sl2)));
            assert(keys_of(Some(inner)) =~= keys_of(gs));
            assert(ordered(Some(inner)));
            assert forall|k: i64| keys_of(Some(inner)).contains(k) implies k < key by {
                assert(keys_of(gs).contains(k));
            }
            assert(ordered(Some(q)));
        }
        let root = Self::right_rotation(q);
        proof {
            assert(root.right.unwrap().color == NodeColor::Black);
            assert(rb_valid(root.right));
            assert(black_height(root.right) == h + 1);
            assert(rb_valid(Some(sl2)));
            assert(black_height(Some(sl2)) == h + 1);
            assert(rb_valid(Some(root)));
            assert(keys_of(Some(root)) =~= keys_of(gs).union(keys_of(r)).insert(key));
        }
        Some(root)
    }

    /// Deletion fix-up for a Black deficit on the left: every path through
    /// `l` carries one Black fewer than every path through `r`. Rebuilds the
    /// node `(l, key, r)` with the four sibling cases; the flag reports
    /// whether the deficit is still unresolved one level up.
    pub fn fix_delete(color: NodeColor, l: Child, key: i64, r: Child) -> (res: (Child, bool))
        requires
            rb_valid(l),
            rb_valid(r),
            is_black(l),
            black_height(r) == black_height(l) + 1,
            color == NodeColor::Red ==> is_black(r),
            ordered(l),
            ordered(r),
            forall|k: i64| keys_of(l).contains(k) ==> k < key,
            forall|k: i64| keys_of(r).contains(k) ==> k > key,
        ensures
            res.0.is_some(),
            rb_valid(res.0),
            ordered(res.0),
            keys_of(res.0) == keys_of(l).union(keys_of(r)).insert(key),
            !res.1 ==> black_height(res.0) == black_height(r) + (if color == NodeColor::Black {
                1nat
            } else {
                0nat
            }),
            res.1 ==> black_height(res.0) == black_height(r) && color == NodeColor::Black
                && is_black(res.0),
            color == NodeColor::Black ==> is_black(res.0),
        decreases r,
    {
        let ghost h = black_height(l);
        let ghost gr = r;
        proof {
            if r is None {
                assert(black_height(r) == 0);
            }
        }
        let s = r.unwrap();
        if s.color == NodeColor::Red {
            // Red sibling: the parent must be Black; rebuild with the near
            // nephew as the new sibling and resolve below a Red parent,
            // which always absorbs the deficit.
            proof {
                assert(color == NodeColor::Black);
                assert(rb_valid(s.left) && rb_valid(s.right));
                assert(is_black(s.left) && is_black(s.right));
                assert(black_height(s.left) == h + 1);
                assert(black_height(s.right) == h + 1);
                if s.left is None {
                    assert(black_height(s.left) == 0);
                }
            }
            let TreeNode { color: _, key: skey, left: sl, right: sr } = *s;
            proof {
                assert(ordered(sl) && ordered(sr));
                assert forall|k: i64| keys_of(sl).contains(k) implies k > key by {
                    assert(keys_of(gr).contains(k));
                }
            }
            let (inner, d1) = Self::fix_delete(NodeColor::Red, l, key, sl);
            let res: Child = Some(
                Box::new(TreeNode { color: NodeColor::Black, key: skey, left: inner, right: sr }),
            );
            proof {
                assert(!d1);
                assert(black_height(inner) == h + 1);
                assert(rb_valid(res));
                assert(black_height(res) == h + 2);
                assert(keys_of(gr).contains(skey));
                assert forall|k: i64| keys_of(inner).contains(k) implies k < skey by {
                    if keys_of(l).contains(k) {
                        assert(k < key);
                        assert(skey > key);
                    } else if keys_of(sl).contains(k) {
                        assert(k < skey);
                    } else {
                        assert(k == key);
                        assert(skey > key);
                    }
                }
                assert(ordered(res));
                assert(keys_of(res) =~= keys_of(l).union(keys_of(gr)).insert(key));
            }
            (res, false)
        } else {
            let TreeNode { color: _, key: skey, left: sl, right: sr } = *s;
            if Self::is_red(&sr) {
                // far nephew Red: one rotation finishes.
                let s2 = Box::new(TreeNode { color: NodeColor::Black, key: skey, left: sl, right: sr });
                proof {
                    assert(Some(s2) == gr);
                }
                let res = Self::fix_far_right(color, l, key, s2);
                (res, false)
            } else if Self::is_red(&sl) {
                // near nephew Red: rotate the sibling to make the far
                // nephew Red, then as above.
                let sln = sl.unwrap();
                let TreeNode { color: _, key: slk, left: sla, right: slb } = *sln;
                let sl2 = Box::new(TreeNode { color: NodeColor::Black, key: slk, left: sla, right: slb });
                let sprime = Box::new(
                    TreeNode { color: NodeColor::Red, key: skey, left: Some(sl2), right: sr },
                );
                proof {
                    let gsl = gr.unwrap().left;
                    assert(ordered(gsl) && ordered(sr));
                    assert(rb_valid(gsl) && rb_valid(sr));
                    assert(ordered(sla) && ordered(slb));
                    assert(rb_valid(sla) && rb_valid(slb));
                    assert(is_black(sla) && is_black(slb));
                    assert(black_height(gsl) == h && black_height(sr) == h);
                    assert(black_height(sla) == h && black_height(slb) == h);
                    assert(keys_of(Some(sl2)) =~= keys_of(gsl));
                    assert(ordered(Some(sl2)));
                    assert(keys_of(Some(sprime)) =~= keys_of(gr));
                    assert(ordered(Some(sprime)));
                }
                let s2 = Self::right_rotation(sprime);
                proof {
                    assert(s2.color == NodeColor::Black);
                    assert(s2.right.is_some() && s2.right.unwrap().color == NodeColor::Red);
                    assert(rb_valid(s2.right));
                    assert(black_height(s2.right) == h);
                    assert(rb_valid(Some(s2)));
                    assert(black_height(Some(s2)) == h + 1);
                    assert(keys_of(Some(s2)) =~= keys_of(gr));
                    assert forall|k: i64| keys_of(Some(s2)).contains(k) implies k > key by {
                        assert(keys_of(gr).contains(k));
                    }
                }
                let res = Self::fix_far_right(color, l, key, s2);
                proof {
                    assert(keys_of(res) =~= keys_of(l).union(keys_of(gr)).insert(key));
                }
                (res, false)
            } else {
                // both nephews Black: recolor the sibling Red; the subtree
                // as a whole is now one Black short unless this node was
                // Red and can be painted Black.
                let s2 = Box::new(TreeNode { color: NodeColor::Red, key: skey, left: sl, right: sr });
                let res: Child = Some(
                    Box::new(TreeNode { color: NodeColor::Black, key, left: l, right: Some(s2) }),
                );
                let d = color == NodeColor::Black;
                proof {
                    assert(rb_valid(Some(s2)));
                    assert(black_height(Some(s2)) == h);
                    assert(rb_valid(res));
                    assert(black_height(res) == h + 1);
                    assert(keys_of(Some(s2)) =~= keys_of(gr));
                    assert(ordered(Some(s2)));
                    assert(ordered(res));
                    assert(keys_of(res) =~= keys_of(l).union(keys_of(gr)).insert(key));
                }
                (res, d)
            }
        }
    }

    /// Mirror image of `fix_delete`: the Black deficit lies in the right
    /// subtree and the sibling is on the left.
    pub fn fix_delete_right(color: NodeColor, l: Child, key: i64, r: Child) -> (res: (
        Child,
        bool,
    ))
        requires
            rb_valid(l),
            rb_valid(r),
            is_black(r),
            black_height(l) == black_height(r) + 1,
            color == NodeColor::Red ==> is_black(l),
            ordered(l),
            ordered(r),
            forall|k: i64| keys_of(l).contains(k) ==> k < key,
            forall|k: i64| keys_of(r).contains(k) ==> k > key,
        ensures
            res.0.is_some(),
            rb_valid(res.0),
            ordered(res.0),
            keys_of(res.0) == keys_of(l).union(keys_of(r)).insert(key),
            !res.1 ==> black_height(res.0) == black_height(l) + (if color == NodeColor::Black {
                1nat
            } else {
                0nat
            }),
            res.1 ==> black_height(res.0) == black_height(l) && color == NodeColor::Black
                && is_black(res.0),
            color == NodeColor::Black ==> is_black(res.0),
        decreases l,
    {
        let ghost h = black_height(r);
        let ghost gl = l;
        proof {
            if l is None {
                assert(black_height(l) == 0);
            }
        }
        let s = l.unwrap();
        if s.color == NodeColor::Red {
            proof {
                assert(color == NodeColor::Black);
                assert(rb_valid(s.left) && rb_valid(s.right));
                assert(is_black(s.left) && is_black(s.right));
                assert(black_height(s.left) == h + 1);
                assert(black_height(s.right) == h + 1);
                if s.right is None {
                    assert(black_height(s.right) == 0);
                }
            }
            let TreeNode { color: _, key: skey, left: sl, right: sr } = *s;
            proof {
                assert(ordered(sl) && ordered(sr));
                assert forall|k: i64| keys_of(sr).contains(k) implies k < key by {
                    assert(keys_of(gl).contains(k));
                }
            }
            let (inner, d1) = Self::fix_delete_right(NodeColor::Red, sr, key, r);
            let res: Child = Some(
                Box::new(TreeNode { color: NodeColor::Black, key: skey, left: sl, right: inner }),
            );
            proof {
                assert(!d1);
                assert(black_height(inner) == h + 1);
                assert(rb_valid(res));
                assert(black_height(res) == h + 2);
                assert(keys_of(gl).contains(skey));
                assert forall|k: i64| keys_of(inner).contains(k) implies k > skey by {
                    if keys_of(r).contains(k) {
                        assert(k > key);
                        assert(skey < key);
                    } else if keys_of(sr).contains(k) {
                        assert(k > skey);
                    } else {
                        assert(k == key);
                        assert(skey < key);
                    }
                }
                assert(ordered(res));
                assert(keys_of(res) =~= keys_of(gl).union(keys_of(r)).insert(key));
            }
            (res, false)
        } else {
            let TreeNode { color: _, key: skey, left: sl, right: sr } = *s;
            if Self::is_red(&sl) {
                let s2 = Box::new(TreeNode { color: NodeColor::Black, key: skey, left: sl, right: sr });
                proof {
                    assert(Some(s2) == gl);
                }
                let res = Self::fix_far_left(color, s2, key, r);
                (res, false)
            } else if Self::is_red(&sr) {
                let srn = sr.unwrap();
                let TreeNode { color: _, key: srk, left: sra, right: srb } = *srn;
                let sr2 = Box::new(TreeNode { color: NodeColor::Black, key: srk, left: sra, right: srb });
                let sprime = Box::new(
                    TreeNode { color: NodeColor::Red, key: skey, left: sl, right: Some(sr2) },
                );
                proof {
                    let gsr = gl.unwrap().right;
                    assert(ordered(gsr) && ordered(sl));
                    assert(rb_valid(gsr) && rb_valid(sl));
                    assert(ordered(sra) && ordered(srb));
                    assert(rb_valid(sra) && rb_valid(srb));
                    assert(is_black(sra) && is_black(srb));
                    assert(black_height(gsr) == h && black_height(sl) == h);
                    assert(black_height(sra) == h && black_height(srb) == h);
                    assert(keys_of(Some(sr2)) =~= keys_of(gsr));
                    assert(ordered(Some(sr2)));
                    assert(keys_of(Some(sprime)) =~= keys_of(gl));
                    assert(ordered(Some(sprime)));
                }
                let s2 = Self::left_rotation(sprime);
                proof {
                    assert(s2.color == NodeColor::Black);
                    assert(s2.left.is_some() && s2.left.unwrap().color == NodeColor::Red);
                    assert(rb_valid(s2.left));
                    assert(black_height(s2.left) == h);
                    assert(rb_valid(Some(s2)));
                    assert(black_height(Some(s2)) == h + 1);
                    assert(keys_of(Some(s2)) =~= keys_of(gl));
                    assert forall|k: i64| keys_of(Some(s2)).contains(k) implies k < key by {
                        assert(keys_of(gl).contains(k));
                    }
                }
                let res = Self::fix_far_left(color, s2, key, r);
                proof {
                    assert(keys_of(res) =~= keys_of(gl).union(keys_of(r)).insert(key));
                }
                (res, false)
            } else {
                let s2 = Box::new(TreeNode { color: NodeColor::Red, key: skey, left: sl, right: sr });
                let res: Child = Some(
                    Box::new(TreeNode { color: NodeColor::Black, key, left: Some(s2), right: r }),
                );
                let d = color == NodeColor::Black;
                proof {
                    assert(rb_valid(Some(s2)));
                    assert(black_height(Some(s2)) == h);
                    assert(rb_valid(res));
                    assert(black_height(res) == h + 1);
                    assert(keys_of(Some(s2)) =~= keys_of(gl));
                    assert(ordered(Some(s2)));
                    assert(ordered(res));
                    assert(keys_of(res) =~= keys_of(gl).union(keys_of(r)).insert(key));
                }
                (res, d)
            }
        }
    }

    /// Deletes `key` below `t` and returns the new subtree root together
    /// with a flag telling whether the subtree is one Black short of what
    /// it was. A node with two children is replaced by its in-order
    /// successor, the leftmost key of its right subtree.
    fn del(t: Child, key: i64) -> (res: (Child, bool))
        requires
            ordered(t),
            rb_valid(t),
        ensures
            ordered(res.0),
            rb_valid(res.0),
            keys_of(res.0) == keys_of(t).remove(key),
            !res.1 ==> black_height(res.0) == black_height(t),
            res.1 ==> black_height(res.0) + 1 == black_height(t) && is_black(res.0),
            is_black(t) && !res.1 ==> is_black(res.0),
        decreases t,
    {
        let ghost t0 = t;
        match t {
            None => {
                proof {
                    assert(keys_of(t0) =~= Set::empty());
                    assert(keys_of(t0).remove(key) =~= keys_of(t0));
                }
                (None, false)
            },
            Some(b) => {
                if key < b.key {
                    let TreeNode { color, key: k0, left, right } = *b;
                    proof {
                        assert(ordered(left) && ordered(right));
                        assert(rb_valid(left) && rb_valid(right));
                        assert(!keys_of(right).contains(key));
                    }
                    let (l2, d) = Self::del(left, key);
                    proof {
                        assert forall|k: i64| keys_of(l2).contains(k) implies k < k0 by {
                            assert(keys_of(left).contains(k));
                        }
                    }
                    if d {
                        let (r2, d2) = Self::fix_delete(color, l2, k0, right);
                        proof {
                            assert(keys_of(r2) =~= keys_of(t0).remove(key));
                        }
                        (r2, d2)
                    } else {
                        let r2: Child = Some(
                            Box::new(TreeNode { color, key: k0, left: l2, right }),
                        );
                        proof {
                            assert(rb_valid(r2));
                            assert(ordered(r2));
                            assert(keys_of(r2) =~= keys_of(t0).remove(key));
                        }
                        (r2, false)
                    }
                } else if key > b.key {
                    let TreeNode { color, key: k0, left, right } = *b;
                    proof {
                        assert(ordered(left) && ordered(right));
                        assert(rb_valid(left) && rb_valid(right));
                        assert(!keys_of(left).contains(key));
                    }
                    let (r2, d) = Self::del(right, key);
                    proof {
                        assert forall|k: i64| keys_of(r2).contains(k) implies k > k0 by {
                            assert(keys_of(right).contains(k));
                        }
                    }
                    if d {
                        let (r3, d3) = Self::fix_delete_right(color, left, k0, r2);
                        proof {
                            assert(keys_of(r3) =~= keys_of(t0).remove(key));
                        }
                        (r3, d3)
                    } else {
                        let r3: Child = Some(
                            Box::new(TreeNode { color, key: k0, left, right: r2 }),
                        );
                        proof {
                            assert(rb_valid(r3));
                            assert(ordered(r3));
                            assert(keys_of(r3) =~= keys_of(t0).remove(key));
                        }
                        (r3, false)
                    }
                } else {
                    let TreeNode { color, key: k0, left, right } = *b;
                    proof {
                        assert(ordered(left) && ordered(right));
                        assert(rb_valid(left) && rb_valid(right));
                        assert(!keys_of(left).contains(key));
                        assert(!keys_of(right).contains(key));
                    }
                    if left.is_none() && right.is_none() {
                        proof {
                            assert(keys_of(left) =~= Set::empty());
                            assert(keys_of(right) =~= Set::empty());
                            assert(keys_of(t0).remove(key) =~= Set::empty());
                            assert(keys_of(None::<Box<TreeNode>>) =~= Set::empty());
                            assert(black_height(left) == 0);
                        }
                        if color == NodeColor::Black {
                            (None, true)
                        } else {
                            (None, false)
                        }
                    } else if left.is_none() {
                        // the spliced-up child must be a Red-rooted subtree
                        // under a Black node: repaint it Black.
                        proof {
                            assert(keys_of(left) =~= Set::empty());
                            assert(black_height(left) == 0);
                            if is_black(right) {
                                if right is Some {
                                    assert(black_height(right) == black_height(
                                        right.unwrap().left,
                                    ) + 1);
                                }
                            }
                            assert(!is_black(right));
                            assert(color == NodeColor::Black);
                        }
                        let rn = right.unwrap();
                        let TreeNode { color: _, key: rk, left: rl, right: rr } = *rn;
                        let r2: Child = Some(
                            Box::new(TreeNode { color: NodeColor::Black, key: rk, left: rl, right: rr }),
                        );
                        proof {
                            assert(rb_valid(r2));
                            assert(black_height(r2) == 1);
                            assert(black_height(t0) == 1);
                            assert(ordered(r2));
                            assert(keys_of(r2) =~= keys_of(right));
                            assert(keys_of(r2) =~= keys_of(t0).remove(key));
                        }
                        (r2, false)
                    } else if right.is_none() {
                        proof {
                            assert(keys_of(right) =~= Set::empty());
                            assert(black_height(right) == 0);
                            assert(black_height(left) == 0);
                            if is_black(left) {
                                if left is Some {
                                    assert(black_height(left) == black_height(
                                        left.unwrap().left,
                                    ) + 1);
                                }
                            }
                            assert(!is_black(left));
                            assert(color == NodeColor::Black);
                        }
                        let ln = left.unwrap();
                        let TreeNode { color: _, key: lk, left: la, right: lb } = *ln;
                        let r2: Child = Some(
                            Box::new(TreeNode { color: NodeColor::Black, key: lk, left: la, right: lb }),
                        );
                        proof {
                            assert(rb_valid(r2));
                            assert(black_height(r2) == 1);
                            assert(black_height(t0) == 1);
                            assert(ordered(r2));
                            assert(keys_of(r2) =~= keys_of(left));
                            assert(keys_of(r2) =~= keys_of(t0).remove(key));
                        }
                        (r2, false)
                    } else {
                        let m = Self::min_key(&right);
                        proof {
                            assert(keys_of(right).contains(m));
                            assert(m > k0);
                        }
                        let (r2, d) = Self::del(right, m);
                        proof {
                            assert forall|k: i64| keys_of(r2).contains(k) implies k > m by {
                                assert(keys_of(right).contains(k));
                                assert(m <= k);
                                assert(k != m);
                            }
                            assert forall|k: i64| keys_of(left).contains(k) implies k < m by {
                                assert(k < k0);
                            }
                        }
                        if d {
                            let (r3, d3) = Self::fix_delete_right(color, left, m, r2);
                            proof {
                                assert(keys_of(r3) =~= keys_of(t0).remove(key));
                            }
                            (r3, d3)
                        } else {
                            let r3: Child = Some(
                                Box::new(TreeNode { color, key: m, left, right: r2 }),
                            );
                            proof {
                                assert(rb_valid(r3));
                                assert(ordered(r3));
                                assert(keys_of(r3) =~= keys_of(t0).remove(key));
                            }
                            (r3, false)
                        }
                    }
                }
            },
        }
    }

    /// Deletes `key`; deleting an absent key is a no-op.
    pub fn delete(&mut self, key: i64)
        requires
            old(self).wf(),
        ensures
            final(self).wf(),
            final(self)@ == old(self)@.remove(key),
    {
        let root = self.root.take();
        let (r, _) = Self::del(root, key);
        self.root = r;
    }

    /// Finds the node holding `key` within `t`, if there is one.
    fn find_in<'a>(t: &'a Child, key: i64) -> (r: Option<&'a TreeNode>)
        requires
            ordered(*t),
        ensures
            r.is_some() == keys_of(*t).contains(key),
            r matches Some(n) ==> n.key == key,
        decreases *t,
    {
        match t {
            None => None,
            Some(n) => {
                if key < n.key {
                    proof {
                        assert(!keys_of(n.right).contains(key));
                    }
                    Self::find_in(&n.left, key)
                } else if key > n.key {
                    proof {
                        assert(!keys_of(n.left).contains(key));
                    }
                    Self::find_in(&n.right, key)
                } else {
                    proof {
                        assert(keys_of(*t).contains(key));
                    }
                    Some(&**n)
                }
            },
        }
    }

    /// Finds the node holding `key`, if the tree has one.
    pub fn find(&self, key: i64) -> (r: Option<&TreeNode>)
        requires
            self.wf(),
        ensures
            r.is_some() == self@.contains(key),
            r matches Some(n) ==> n.key == key,
    {
        Self::find_in(&self.root, key)
    }

    /// Whether the tree holds no key.
    pub fn is_empty(&self) -> (r: bool)
        ensures
            r == (self.root is None),
            r == (self@ == Set::<i64>::empty()),
    {
        match &self.root {
            None => {
                proof {
                    assert(self@ =~= Set::<i64>::empty());
                }
                true
            },
            Some(n) => {
                proof {
                    assert(self@.contains(n.key));
                }
                false
            },
        }
    }

    /// The number of nodes in the tree.
    pub fn count_leaves(&self) -> (r: i32)
        requires
            self.wf(),
            self@.len() <= i32::MAX,
        ensures
            r as int == self@.len(),
            r as int == size_of(self.root),
    {
        proof {
            lemma_count_is_cardinality(self.root);
        }
        match &self.root {
            None => 0,
            Some(n) => {
                proof {
                    assert(size_of(self.root) == node_size(**n));
                }
                n.count_leaves()
            },
        }
    }

    /// The keys of the tree in ascending order.
    pub fn inorder_traversal(&self) -> (v: Vec<i64>)
        requires
            self.wf(),
        ensures
            v@ == inorder_of(self.root),
            crate::order::strictly_sorted(v@),
            crate::order::lists_exactly(v@, self@),
    {
        proof {
            lemma_inorder_keys(self.root);
        }
        match &self.root {
            None => {
                let v = Vec::new();
                proof {
                    assert(v@ =~= inorder_of(self.root));
                }
                v
            },
            Some(n) => {
                proof {
                    assert(inorder_of(self.root) == node_inorder(**n));
                }
                n.inorder_traversal()
            },
        }
    }

    /// Renders the subtree as a text diagram, one line per node, the right
    /// subtree above the left, each key followed by its one-character color
    /// tag.
    pub fn pretty_print(root: &Child) -> (s: String)
        ensures
            s@ == pretty_spec(*root),
    {
        match root {
            None => {
                let s = String::new();
                proof {
                    assert(s@ =~= pretty_spec(*root));
                }
                s
            },
            Some(n) => {
                let mut sb = key_to_string(n.key);
                match n.color {
                    NodeColor::Red => sb.append("R"),
                    NodeColor::Black => sb.append("B"),
                }
                let pointer_left = if n.right.is_none() {
                    "└──"
                } else {
                    "├──"
                };
                Self::pretty_print_helper(&mut sb, "", "└──", &n.right, false);
                Self::pretty_print_helper(&mut sb, "", pointer_left, &n.left, n.right.is_some());
                proof {
                    assert(sb@ =~= pretty_spec(*root));
                }
                sb
            },
        }
    }

    /// Appends to `sb` the diagram lines of `node`: its own labeled line
    /// under the given padding and connector glyph, then, one level deeper,
    /// its right subtree above its left subtree.
    #[verifier::rlimit(50)]
    pub fn pretty_print_helper(
        sb: &mut String,
        padding: &str,
        pointer: &str,
        node: &Child,
        has_right: bool,
    )
        ensures
            final(sb)@ == old(sb)@ + pretty_helper_spec(padding@, pointer@, *node, has_right),
        decreases *node,
    {
        match node {
            None => {
                proof {
                    assert(old(sb)@ + pretty_helper_spec(padding@, pointer@, *node, has_right)
                        =~= old(sb)@);
                }
            },
            Some(n) => {
                sb.append("\n");
                sb.append(padding);
                sb.append(pointer);
                let ks = key_to_string(n.key);
                sb.append(ks.as_str());
                match n.color {
                    NodeColor::Red => sb.append("R"),
                    NodeColor::Black => sb.append("B"),
                }
                let mut psb = String::from_str(padding);
                if has_right {
                    psb.append("│  ");
                } else {
                    psb.append("   ");
                }
                let pointer_left = if n.right.is_none() {
                    "└──"
                } else {
                    "├──"
                };
                Self::pretty_print_helper(sb, psb.as_str(), "└──", &n.right, false);
                Self::pretty_print_helper(sb, psb.as_str(), pointer_left, &n.left, n.right.is_some());
                proof {
                    assert(final(sb)@ =~= old(sb)@ + pretty_helper_spec(
                        padding@,
                        pointer@,
                        *node,
                        has_right,
                    ));
                }
            },
        }
    }
}

/// The number of nodes in the subtree rooted at a node.
pub open spec fn node_size(n: TreeNode) -> nat {
    1 + size_of(n.left) + size_of(n.right)
}

/// The in-order key sequence of the subtree rooted at a node.
pub open spec fn node_inorder(n: TreeNode) -> Seq<i64> {
    inorder_of(n.left) + seq![n.key] + inorder_of(n.right)
}

impl TreeNode {
    /// The number of nodes in the subtree rooted at this node.
    pub fn count_leaves(&self) -> (r: i32)
        requires
            node_size(*self) <= i32::MAX,
        ensures
            r as int == node_size(*self),
        decreases *self,
    {
        let mut n: i32 = 1;
        match &self.left {
            None => {
                proof {
                    assert(size_of(self.left) == 0);
                }
            },
            Some(l) => {
                proof {
                    assert(size_of(self.left) == node_size(**l));
                }
                n = n + l.count_leaves();
            },
        }
        match &self.right {
            None => {
                proof {
                    assert(size_of(self.right) == 0);
                }
            },
            Some(rn) => {
                proof {
                    assert(size_of(self.right) == node_size(**rn));
                }
                n = n + rn.count_leaves();
            },
        }
        n
    }

    /// The keys of the subtree rooted at this node, in ascending order.
    pub fn inorder_traversal(&self) -> (v: Vec<i64>)
        ensures
            v@ == node_inorder(*self),
        decreases *self,
    {
        let mut v: Vec<i64> = Vec::new();
        match &self.left {
            None => {
                proof {
                    assert(inorder_of(self.left) =~= Seq::<i64>::empty());
                }
            },
            Some(l) => {
                proof {
                    assert(inorder_of(self.left) == node_inorder(**l));
                }
                let mut lv = l.inorder_traversal();
                v.append(&mut lv);
            },
        }
        v.push(self.key);
        match &self.right {
            None => {
                proof {
                    assert(inorder_of(self.right) =~= Seq::<i64>::empty());
                }
            },
            Some(rn) => {
                proof {
                    assert(inorder_of(self.right) == node_inorder(**rn));
                }
                let mut rv = rn.inorder_traversal();
                v.append(&mut rv);
            },
        }
        proof {
            assert(v@ =~= node_inorder(*self));
        }
        v
    }
}

/// The one-character color tag appended to a key's label in the diagram.
pub open spec fn color_tag(c: NodeColor) -> Seq<char> {
    match c {
        NodeColor::Red => "R"@,
        NodeColor::Black => "B"@,
    }
}

/// The diagram lines contributed by a subtree drawn below some ancestor:
/// for each node one line holding the indentation, a connector glyph, the
/// key and its color tag, with the right subtree rendered above the left.
pub open spec fn pretty_helper_spec(
    padding: Seq<char>,
    pointer: Seq<char>,
    t: Child,
    has_right: bool,
) -> Seq<char>
    decreases t,
{
    match t {
        None => Seq::empty(),
        Some(n) => {
            let line = "\n"@ + padding + pointer + dec_rep(n.key as int) + color_tag(n.color);
            let pad2 = padding + if has_right {
                "│  "@
            } else {
                "   "@
            };
            line + pretty_helper_spec(pad2, "└──"@, n.right, false)
                + pretty_helper_spec(
                pad2,
                if n.right is Some {
                    "├──"@
                } else {
                    "└──"@
                },
                n.left,
                n.right is Some,
            )
        },
    }
}

/// The text diagram of a tree: the root's label on the first line, then the
/// right subtree above the left subtree, one line per node; empty for the
/// empty tree.
pub open spec fn pretty_spec(t: Child) -> Seq<char> {
    match t {
        None => Seq::empty(),
        Some(n) => dec_rep(n.key as int) + color_tag(n.color) + pretty_helper_spec(
            ""@,
            "└──"@,
            n.right,
            false,
        ) + pretty_helper_spec(
            ""@,
            if n.right is Some {
                "├──"@
            } else {
                "└──"@
            },
            n.left,
            n.right is Some,
        ),
    }
}

/// On an ordered subtree the in-order listing is strictly ascending, lists
/// exactly the subtree's keys, and has one entry per node.
pub proof fn lemma_inorder_keys(t: Child)
    requires
        ordered(t),
    ensures
        crate::order::strictly_sorted(inorder_of(t)),
        crate::order::lists_exactly(inorder_of(t), keys_of(t)),
        inorder_of(t).len() == size_of(t),
    decreases t,
{
    match t {
        None => {
            assert(inorder_of(t) =~= Seq::<i64>::empty());
            assert(keys_of(t) =~= Set::<i64>::empty());
        },
        Some(n) => {
            lemma_inorder_keys(n.left);
            lemma_inorder_keys(n.right);
            let s = inorder_of(t);
            let sl = inorder_of(n.left);
            let sr = inorder_of(n.right);
            assert(s == sl + seq![n.key] + sr);
            assert(s.len() == sl.len() + 1 + sr.len());
            assert forall|i: int| 0 <= i < s.len() implies keys_of(t).contains(s[i]) by {
                if i < sl.len() {
                    assert(s[i] == sl[i]);
                    assert(keys_of(n.left).contains(sl[i]));
                } else if i == sl.len() {
                    assert(s[i] == n.key);
                } else {
                    assert(s[i] == sr[i - sl.len() - 1]);
                    assert(keys_of(n.right).contains(sr[i - sl.len() - 1]));
                }
            }
            assert forall|i: int, j: int| 0 <= i < j < s.len() implies s[i] < s[j] by {
                let li = sl.len() as int;
                if j < li {
                    assert(s[i] == sl[i] && s[j] == sl[j]);
                } else if i < li && j == li {
                    assert(keys_of(n.left).contains(sl[i]));
                } else if i < li && j > li {
                    assert(keys_of(n.left).contains(sl[i]));
                    assert(keys_of(n.right).contains(sr[j - li - 1]));
                } else if i == li && j > li {
                    assert(keys_of(n.right).contains(sr[j - li - 1]));
                } else {
                    assert(s[i] == sr[i - li - 1] && s[j] == sr[j - li - 1]);
                }
            }
            assert forall|k: i64| keys_of(t).contains(k) implies s.contains(k) by {
                let li = sl.len() as int;
                if keys_of(n.left).contains(k) {
                    assert(sl.contains(k));
                    let i = choose|i: int| 0 <= i < sl.len() && sl[i] == k;
                    assert(s[i] == k);
                } else if keys_of(n.right).contains(k) {
                    assert(sr.contains(k));
                    let i = choose|i: int| 0 <= i < sr.len() && sr[i] == k;
                    assert(s[li + 1 + i] == k);
                } else {
                    assert(k == n.key);
                    assert(s[li] == k);
                }
            }
        },
    }
}

/// Two ordered trees over the same key set have the same in-order listing:
/// the listing is determined by the key set alone.
pub proof fn lemma_same_keys_same_inorder(t1: Child, t2: Child)
    requires
        ordered(t1),
        ordered(t2),
        keys_of(t1) == keys_of(t2),
    ensures
        inorder_of(t1) == inorder_of(t2),
{
    lemma_inorder_keys(t1);
    lemma_inorder_keys(t2);
    crate::order::lemma_sorted_unique(inorder_of(t1), inorder_of(t2), keys_of(t1));
}

/// Round trip: inserting a key that was absent and then deleting it again
/// restores the key set and the in-order listing. The two premises on the
/// key sets are exactly what `insert` and `delete` ensure.
pub proof fn lemma_insert_delete_round_trip(t0: Child, t1: Child, t2: Child, key: i64)
    requires
        ordered(t0),
        ordered(t1),
        ordered(t2),
        !keys_of(t0).contains(key),
        keys_of(t1) == keys_of(t0).insert(key),
        keys_of(t2) == keys_of(t1).remove(key),
    ensures
        keys_of(t2) == keys_of(t0),
        inorder_of(t2) == inorder_of(t0),
{
    assert(keys_of(t2) =~= keys_of(t0));
    lemma_same_keys_same_inorder(t2, t0);
}

/// Inserting the same key a second time is a no-op on the key set and on
/// the in-order listing. The premises are what two runs of `insert` ensure.
pub proof fn lemma_insert_idempotent(t0: Child, t1: Child, t2: Child, key: i64)
    requires
        ordered(t1),
        ordered(t2),
        keys_of(t1) == keys_of(t0).insert(key),
        keys_of(t2) == keys_of(t1).insert(key),
    ensures
        keys_of(t2) == keys_of(t1),
        inorder_of(t2) == inorder_of(t1),
{
    assert(keys_of(t2) =~= keys_of(t1));
    lemma_same_keys_same_inorder(t2, t1);
}

/// Deleting an absent key is a no-op on the key set and on the in-order
/// listing. The premise is what `delete` ensures.
pub proof fn lemma_delete_absent_noop(t0: Child, t1: Child, key: i64)
    requires
        ordered(t0),
        ordered(t1),
        !keys_of(t0).contains(key),
        keys_of(t1) == keys_of(t0).remove(key),
    ensures
        keys_of(t1) == keys_of(t0),
        inorder_of(t1) == inorder_of(t0),
{
    assert(keys_of(t1) =~= keys_of(t0));
    lemma_same_keys_same_inorder(t1, t0);
}

/// The node count of an ordered tree is the cardinality of its key set, and
/// only the empty tree has an empty key set.
pub proof fn lemma_count_is_cardinality(t: Child)
    requires
        ordered(t),
    ensures
        keys_of(t).finite(),
        keys_of(t).len() == size_of(t),
        (keys_of(t) =~= Set::<i64>::empty()) <==> (t is None),
{
    broadcast use vstd::seq_lib::seq_to_set_is_finite;

    lemma_inorder_keys(t);
    let s = inorder_of(t);
    crate::order::lemma_strictly_sorted_no_duplicates(s);
    s.unique_seq_to_set();
    assert(keys_of(t) =~= s.to_set());
    match t {
        None => {
            assert(keys_of(t) =~= Set::<i64>::empty());
        },
        Some(n) => {
            assert(keys_of(t).contains(n.key));
        },
    }
}

} // verus!
