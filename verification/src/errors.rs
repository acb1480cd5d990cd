use vstd::prelude::*;

verus! {

/// Everything that can go wrong while ingesting a road-network document or
/// starting a traversal. Malformed input is fatal: no partial graph is usable.
#[derive(Clone, Copy, Debug, PartialEq, Eq, Structural)]
pub enum GraphError {
    /// The document text is not valid JSON.
    InvalidJson,
    /// The document lacks the top-level array of link records.
    MissingObjects,
    /// A record lacks one of its required string fields.
    MissingField,
    /// A linestring does not begin with a recognised format prefix
    /// (or is too short to hold the prefix and the closing character).
    MissingPrefix,
    /// A coordinate token did not split into 2 or 3 components.
    MalformedToken,
    /// A traversal was started on a graph with fewer than two nodes.
    TooFewNodes,
}

} // verus!
