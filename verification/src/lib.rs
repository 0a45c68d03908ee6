//! Transition-based dependency parsing: five transition systems over one
//! parser state, their static oracles, a greedy parser for single sentences
//! and for batches, and the collection of training instances.

pub mod config;
pub mod crossing;
pub mod dependency;
pub mod error;
pub mod features;
pub mod forest;
pub mod gold;
pub mod guide;
pub mod inorder;
pub mod laws;
pub mod layers;
pub mod model;
pub mod oracle;
pub mod parser;
pub mod paths;
pub mod projective;
pub mod scoring;
pub mod state;
pub mod swapping;
pub mod system;
pub mod table;
pub mod tensors;
pub mod train;
pub mod transition;
