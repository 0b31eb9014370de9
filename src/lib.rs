//! Osrank: a trust score over a graph of projects and accounts, computed
//! from damped random walks over a transition relation.
//!
//! - `adjacency`: assembly of the transition matrix.
//! - `matrix`: sparse matrices stored row by row, with their kernels.
//! - `network`: the graph of projects and accounts.
//! - `importer`: indexing of imported records into nodes and matrices.
//! - `walk`: random walks, visit counts and the ranks derived from them.
//! - `types`: hyperparameters, annotators and drawing by frequency.

pub mod adjacency;
pub mod importer;
pub mod matrix;
pub mod network;
pub mod types;
pub mod walk;
