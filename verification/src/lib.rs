//! Self-balancing ordered-set engines over `i64` keys: a height-balanced
//! (AVL) binary search tree and a color-balanced (red-black) binary search
//! tree, together with the shared ordering lemmas and the key renderer that
//! the tree printers use.

pub mod avl;
pub mod keystr;
pub mod order;
pub mod rbt;
