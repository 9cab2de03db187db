//! Trees kept in flat arrays, and graphs kept as lists of links, with
//! proofs of what their operations do.
//!
//! The centre is [`avl_tree::AVLTree`], a balanced binary search tree whose
//! nodes lie in an array in which slot `i` has its children at `2i + 1` and
//! `2i + 2`: a rotation there moves whole subtrees from slot to slot.
//! [`binary_tree::BinaryTree`] is the search tree without balancing on the
//! same layout, [`b_tree::BTree`] a search tree of linked nodes that counts
//! what comes again, and [`graph::Graph`] a directed graph with walks in
//! depth and in breadth and the table of what can be reached from where.

pub mod avl_insert;
pub mod avl_moves;
pub mod avl_query;
pub mod avl_rotate;
pub mod avl_tree;
pub mod b_tree;
pub mod balance;
pub mod binary_remove;
pub mod binary_tree;
pub mod census;
pub mod decimal;
pub mod graph;
pub mod graph_levels;
pub mod graph_parse;
pub mod graph_reach;
pub mod graph_text;
pub mod graph_walk;
pub mod graph_words;
pub mod index;
pub mod laws;
pub mod lookup;
pub mod moves;
pub mod order;
pub mod removal;
pub mod retrace;
pub mod search;
pub mod settle;
pub mod shape;
pub mod slots;
pub mod steady;
pub mod transfer;
pub mod traverse;
