//! Multi-objective community detection on undirected, unweighted graphs.
//!
//! A partition of a graph's nodes into communities is scored by two loss
//! terms, the intra-community and the inter-community loss, and the search
//! looks for partitions that no other partition beats on both terms at once.

pub mod error;
pub mod evolutionary;
pub mod fx;
pub mod fitness;
pub mod graph;
pub mod hypergrid;
pub mod mocd_nsga_ii;
pub mod mocd_pesa_ii;
pub mod model_selection;
pub mod operators;
pub mod partition;
pub mod rank_crowding;
pub mod rng;
pub mod search;
pub mod selection;
pub mod solution;
pub mod standing;

pub use mocd_nsga_ii::MocdNsgaII;
pub use mocd_pesa_ii::MocdPesaII;
