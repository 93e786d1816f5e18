//! Symbolic regression by genetic programming over flat prefix-order expression trees.
//!
//! The library holds the structural part of the search: the genome encoding and its
//! subtree addressing, the random tree builders, the genetic operators, the population
//! and the generational loop. Numeric evaluation of a genome against a dataset is
//! supplied by the caller as a function that scores a node sequence.
mod random;

pub mod node;
pub mod tree;
pub mod individual;
pub mod genetics;
pub mod pop;
pub mod gp;
