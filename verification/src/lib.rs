//! A small in-memory graph library: graphs are built from an explicit vertex
//! count (or a textual edge-list description), queried for adjacency, and
//! consumed by single-source traversals with path reconstruction and by a
//! cycle detector for both directed and undirected graphs.

pub mod graph;
pub mod graphs;

use vstd::prelude::*;

verus! {

/// The failures a caller can see: a malformed textual description, a vertex
/// id outside the graph, or an operation the orientation does not allow.
#[derive(Clone, Copy, Debug, PartialEq, Eq, Structural)]
pub enum GraphError {
    /// The textual description violates the edge-list format.
    MalformedInput,
    /// A vertex id lies outside `[0, vertex_count)`.
    InvalidArgument,
    /// The operation is undefined for the graph's orientation.
    InvalidOperation,
}

} // verus!
