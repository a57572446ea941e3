//! Three realizations of a finite set over an ordered element type: an
//! unordered array, a sorted array searched by bisection, and a
//! height-balanced binary search tree.
//!
//! Every operation is specified by its effect on the mathematical set of the
//! elements held (`ElementSet`, `RemovableSet`), so the three kinds answer
//! alike. `order` states what is asked of the element type, `node` and
//! `tree_laws` hold the tree's shape and what is proved of it, `script` runs
//! sequences of operations against any kind of set, and `benchmark` holds
//! the workload that the insertion timings run.

pub mod benchmark;
pub mod element_set;
pub mod linked_binary_tree;
pub mod node;
pub mod order;
pub mod ordered_array;
pub mod script;
pub mod simple_array;
pub mod tree_laws;

pub use element_set::{ElementSet, RemovableSet};
pub use linked_binary_tree::LinkedBinaryTree;
pub use node::Node;
pub use ordered_array::OrderedArray;
pub use script::{run, run_growing, Answer, Op};
pub use simple_array::SimpleArray;
