//! Sequential data structures (stacks, queues, a sorted list, AVL trees, a
//! B-tree and an adaptive radix tree) with the contracts that the concurrent
//! structures built on them rely on.
pub mod art;
pub mod avltree;
pub mod btree;
pub mod linkedlist;
pub mod laws;
pub mod lock;
pub mod map;
pub mod queue;
pub mod sequential;
pub mod stack;
pub mod tree;
pub mod util;
