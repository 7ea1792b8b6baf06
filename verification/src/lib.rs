pub mod key;
pub mod ordered;
pub mod vec;
pub mod rng;
pub mod redblacktree;
pub mod skiplist;
pub mod list;
pub mod hashmap;
pub mod maxheap;
pub mod quicksortbinarysearch;
pub mod tree;
pub mod bsttree;
