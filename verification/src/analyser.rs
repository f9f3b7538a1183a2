//! Graph analyses over the co-change graph.

pub mod centrality;
pub mod paths;
pub mod properties;
