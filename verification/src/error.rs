//! The faults for which an input is turned away.

use vstd::prelude::*;

verus! {

/// Why an input was turned away before any work was done on it.
#[derive(Debug, Clone, Copy, PartialEq, Eq, Structural)]
pub enum InputError {
    /// The graph has no node.
    EmptyGraph,
    /// The graph has more nodes than there are labels.
    TooManyNodes,
    /// The graph has more than `MAX_EDGES` edges.
    TooManyEdges,
    /// Some node of the graph has no label in the partition.
    UncoveredNode,
    /// The population size is zero.
    ZeroPopulation,
    /// A rate lies above one.
    RateOutOfRange,
}

} // verus!
