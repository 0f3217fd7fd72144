//! Taxonomic tree pruning and Newick serialization.
//!
//! Two independent pipelines share this crate: an array-based taxonomy
//! ([`taxo::Taxonomy`]) with ancestor-preserving pruning and its Newick
//! encoder, and a relational adjacency view ([`tree::NodeRecord`] rows)
//! with leaf-driven recursive pruning and a second Newick encoder, fed by
//! an identifier classifier ([`generate`]).

pub mod errors;
pub mod generate;
pub mod gtdb;
pub mod strutil;
pub mod taxo;
pub mod tree;
