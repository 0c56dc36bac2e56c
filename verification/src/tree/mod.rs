pub mod avl_tree;
