//! An AVL tree with set and map wrappers, an in-order traversal and a
//! read-only navigator that moves over the tree by an explicit ancestor
//! stack, together with the companions built around it: a flat layout of
//! a finished tree, two circular queues, and arithmetic expressions that
//! are tokenized, parsed, evaluated and compiled for a stack machine.

pub mod order;
pub mod avltree;
pub mod avlnavigator;
pub mod avlmap;
pub mod eytzinger;
pub mod circularqueue;
pub mod cq;
pub mod expr;
