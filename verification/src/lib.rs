//! A red-black tree whose nodes live in a fixed-capacity arena and refer to
//! one another by `u32` index, with index `0` reserved as the empty link.

mod key_order;
pub mod laws;
mod node_allocator;
mod red_black_tree;

pub use key_order::{
    key_gt, key_le, key_lt, total_key_order, lemma_key_order, lemma_total_key_order_u64,
    lemma_total_key_order_u32, lemma_total_key_order_i64, lemma_total_key_order_i32,
    lemma_total_key_order_usize,
};
pub use node_allocator::{NodeAllocator, SENTINEL, NUM_REGISTERS};
pub use red_black_tree::{
    RedBlackTree, RedBlackTreeIterator, RedBlackTreeIteratorMut, RBNode, opposite, LEFT, RIGHT,
    PARENT, COLOR, BLACK, RED,
};
