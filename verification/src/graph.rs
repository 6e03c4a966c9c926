//! The plain undirected graph of the library's smallest interface: vertex
//! count, edge count, symmetric edge insertion, and adjacency lookup.

use vstd::prelude::*;
use crate::GraphError;
use crate::graphs::oriented_insert;

verus! {

/// An undirected graph; every accepted edge enters both endpoint rows.
pub struct Graph {
    pub inner: crate::graphs::Graph,
}

impl Graph {
    pub open spec fn wf(&self) -> bool {
        self.inner.wf() && !self.inner.is_directed()
    }

    pub open spec fn vertex_count(&self) -> int {
        self.inner.vertex_count()
    }

    pub open spec fn edge_total(&self) -> int {
        self.inner.edge_total()
    }

    pub open spec fn adj_seqs(&self) -> Seq<Seq<usize>> {
        self.inner.adj_seqs()
    }

    pub open spec fn adj_of(&self, v: int) -> Seq<usize> {
        self.inner.adj_of(v)
    }

    /// An empty undirected graph over `vertices` vertices.
    pub fn new(vertices: usize) -> (g: Graph)
        ensures
            g.wf(),
            g.vertex_count() == vertices,
            g.edge_total() == 0,
            forall|v: int| 0 <= v < vertices ==> (#[trigger] g.adj_of(v)).len() == 0,
    {
        Graph { inner: crate::graphs::Graph::new_undirected(vertices) }
    }

    /// The vertex count.
    pub fn vertices(&self) -> (n: usize)
        ensures
            n == self.vertex_count(),
    {
        self.inner.vertices()
    }

    /// The number of accepted edge insertions.
    pub fn edges(&self) -> (m: usize)
        ensures
            m == self.edge_total(),
    {
        self.inner.edges()
    }

    /// Insert the undirected edge `(from, to)` into both endpoint rows and
    /// count it once, or reject an out-of-range endpoint with
    /// `InvalidArgument` and leave the graph unchanged.
    pub fn add_edge(&mut self, from: usize, to: usize) -> (r: Result<(), GraphError>)
        requires
            old(self).wf(),
            old(self).edge_total() < usize::MAX,
        ensures
            final(self).wf(),
            final(self).vertex_count() == old(self).vertex_count(),
            match r {
                Ok(()) => {
                    &&& from < old(self).vertex_count()
                    &&& to < old(self).vertex_count()
                    &&& final(self).edge_total() == old(self).edge_total() + 1
                    &&& final(self).adj_seqs() == oriented_insert(
                        old(self).adj_seqs(),
                        from,
                        to,
                        false,
                    )
                },
                Err(e) => {
                    &&& e == GraphError::InvalidArgument
                    &&& (from >= old(self).vertex_count() || to >= old(self).vertex_count())
                    &&& *final(self) == *old(self)
                },
            },
    {
        self.inner.add_edge(from, to)
    }

    /// The neighbor row of `vertex` in insertion order, or `InvalidArgument`
    /// exactly when `vertex` is out of range.
    pub fn adjacencies(&self, vertex: usize) -> (r: Result<&Vec<usize>, GraphError>)
        requires
            self.wf(),
        ensures
            match r {
                Ok(row) => vertex < self.vertex_count() && row@ == self.adj_of(vertex as int),
                Err(e) => e == GraphError::InvalidArgument && vertex >= self.vertex_count(),
            },
    {
        self.inner.adjacencies(vertex)
    }
}

} // verus!
