//! Change-coupling analysis: a weighted co-change graph of file paths and the
//! shortest-path searches that betweenness centrality is accumulated from.

pub mod analyser;
pub mod coupling;
pub mod error;
pub mod git2graph;
pub mod git_graph;
pub mod grafting;
pub mod laws;
pub mod names;
pub mod neighbourhood;
pub mod store;
