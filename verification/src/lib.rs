//! Analysis of a text-encoded directed node graph: the input text is
//! validated, an incidence structure is built from it, the graph is checked
//! for cycles, breadth-first depths are labeled from node 0, and three
//! aggregate statistics are computed over the result.

pub mod builder;
pub mod cycle;
pub mod depth;
pub mod graph;
pub mod parse;
pub mod pipeline;
pub mod stats;
pub mod validate;
