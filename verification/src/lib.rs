//! Least-cost paths between labelled vertices of a static, weighted, directed graph.
//!
//! [`path`] holds the mathematical model that every contract speaks of. [`route`] and
//! [`frontier`] hold the data that one search works on, and [`graph`] the adjacency
//! structure and the search itself. [`search`] describes what the search computes and
//! states what holds of its answer; [`soundness`] and [`termination`] hold the argument.

pub mod path;
pub mod route;
pub mod frontier;
pub mod graph;
pub mod search;
pub mod soundness;
pub mod termination;
