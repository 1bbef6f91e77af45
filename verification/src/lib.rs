//! Snarl decomposition of sequence variation graphs.
//!
//! A bidirected sequence graph is held as a biedged graph: every sequence
//! node is a black edge between its two endpoints, every link a gray edge.
//! Contracting the gray edges and merging the 3-edge-connected components of
//! what is left gives a cactus graph, whose cycles and bridges bound the
//! snarls that the index in [`snarls`] catalogues.

pub mod biedged_to_cactus;
pub mod biedgedgraph;
pub mod connectivity;
pub mod cycles;
pub mod edge_sums;
pub mod fxmap;
pub mod projection;
pub mod search;
pub mod seq_facts;
pub mod snarls;
pub mod tec;
