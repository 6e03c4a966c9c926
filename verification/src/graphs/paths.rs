//! Depth-first single-source traversal over the undirected graph type, with
//! the same marking discipline and queries as the oriented traversal.

use vstd::prelude::*;
use crate::GraphError;
use crate::graphs::undirected::Undirected;

verus! {

/// A depth-first traversal result over an undirected graph.
pub struct Path {
    pub inner: crate::graphs::path::Path,
}

impl Path {
    pub open spec fn wf(&self) -> bool {
        self.inner.wf()
    }

    pub open spec fn limit(&self) -> int {
        self.inner.limit()
    }

    pub open spec fn source_of(&self) -> usize {
        self.inner.source_of()
    }

    pub open spec fn visited(&self, v: usize) -> bool {
        self.inner.visited(v)
    }

    /// Traverse `graph` from `source` in depth-first order.
    pub fn new(graph: &Undirected, source: usize) -> (r: Result<Path, GraphError>)
        requires
            graph.wf(),
        ensures
            match r {
                Ok(p) => {
                    &&& source < graph.vertex_count()
                    &&& p.wf()
                    &&& p.source_of() == source
                    &&& p.limit() == graph.vertex_count()
                    &&& p.inner.respects(&graph.inner)
                    &&& p.inner.visits_exactly_reachable(&graph.inner, source)
                },
                Err(e) => e == GraphError::InvalidArgument && source >= graph.vertex_count(),
            },
    {
        match crate::graphs::path::Path::new_using_depth(&graph.inner, source) {
            Ok(inner) => Ok(Path { inner }),
            Err(e) => Err(e),
        }
    }

    /// Whether `vertex` was reached, or `InvalidArgument` exactly when
    /// `vertex` is out of range.
    pub fn has_path_to(&self, vertex: usize) -> (r: Result<bool, GraphError>)
        requires
            self.wf(),
        ensures
            match r {
                Ok(b) => vertex < self.limit() && b == self.visited(vertex),
                Err(e) => e == GraphError::InvalidArgument && vertex >= self.limit(),
            },
    {
        self.inner.has_path_to(vertex)
    }

    /// The discovery route from the source to `vertex`: `None` when `vertex`
    /// was not reached, the parent chain from the source when it was, and
    /// `InvalidArgument` exactly when `vertex` is out of range.
    pub fn path_to(&self, vertex: usize) -> (r: Result<Option<Vec<usize>>, GraphError>)
        requires
            self.wf(),
        ensures
            match r {
                Ok(Some(route)) => vertex < self.limit() && self.visited(vertex)
                    && self.inner.is_route_to(route@, vertex),
                Ok(None) => vertex < self.limit() && !self.visited(vertex),
                Err(e) => e == GraphError::InvalidArgument && vertex >= self.limit(),
            },
    {
        self.inner.path_to(vertex)
    }
}

} // verus!
