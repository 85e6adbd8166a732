//! Core engine of a Bayesian-network editor: a directed acyclic graph of
//! discrete random variables with conditional credence tables, a JSON
//! serialization of such graphs, and the bookkeeping that feeds a loopy
//! belief-propagation solver (topological compaction, iteration budget,
//! evidence collection).
//!
//! Numeric credence values are carried as validated decimal text tokens, so
//! the graph logic and the serialization stay exact; the floating-point
//! solver work happens outside this crate, on the plans this crate produces.

pub mod cred;
pub mod display;
pub mod graph;
pub mod json;
pub mod laws;
pub mod solver;
