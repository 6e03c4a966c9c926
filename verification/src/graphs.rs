//! The oriented graph: a vertex count fixed at construction, an edge counter,
//! and one adjacency row per vertex in insertion order. Undirected graphs
//! store each edge in both endpoint rows; directed graphs store one arc.

pub mod cycle;
pub mod path;
pub mod paths;
pub mod undirected;

use vstd::prelude::*;
use crate::GraphError;

verus! {

/// Whether `add_edge(from, to)` inserts a symmetric pair of entries or a
/// single arc, and whether `reverse` is defined.
#[derive(Clone, Copy, Debug, PartialEq, Eq, Structural)]
pub enum Orientation {
    Undirected,
    Directed,
}

/// A graph over vertices `0 .. vertex_count`, with adjacency rows in edge
/// insertion order. Self-loops and parallel edges are kept verbatim.
pub struct Graph {
    pub orientation: Orientation,
    pub vertices: usize,
    pub edges: usize,
    pub adjacencies: Vec<Vec<usize>>,
}

/// Every id in `row` lies below `n`.
pub open spec fn in_range(row: Seq<usize>, n: int) -> bool {
    forall|i: int| 0 <= i < row.len() ==> (#[trigger] row[i]) < n
}

/// The number of adjacency entries summed over all rows.
pub open spec fn total_entries(adj: Seq<Seq<usize>>) -> int
    decreases adj.len(),
{
    if adj.len() == 0 {
        0
    } else {
        total_entries(adj.drop_last()) + adj.last().len()
    }
}

/// One directed insertion: append `to` to the row of `from`.
pub open spec fn directed_insert(adj: Seq<Seq<usize>>, from: usize, to: usize) -> Seq<Seq<usize>> {
    adj.update(from as int, adj[from as int].push(to))
}

/// What one accepted `add_edge(from, to)` does to the adjacency rows: a
/// single arc when directed, a symmetric pair of insertions when undirected
/// (a self-loop therefore enters its own row twice).
pub open spec fn oriented_insert(
    adj: Seq<Seq<usize>>,
    from: usize,
    to: usize,
    directed: bool,
) -> Seq<Seq<usize>> {
    if directed {
        directed_insert(adj, from, to)
    } else {
        directed_insert(directed_insert(adj, from, to), to, from)
    }
}

/// `k` copies of the vertex id `v`.
pub open spec fn repeat_of(v: usize, k: nat) -> Seq<usize> {
    Seq::new(k, |j: int| v)
}

/// How often `w` occurs in `row`.
pub open spec fn occurrences(row: Seq<usize>, w: usize) -> nat
    decreases row.len(),
{
    if row.len() == 0 {
        0
    } else {
        occurrences(row.drop_last(), w) + if row.last() == w { 1nat } else { 0nat }
    }
}

/// The adjacency row of `w` in the reversal of `adj`: every occurrence of `w`
/// in the row of `v` contributes one entry `v`, vertices in ascending order.
pub open spec fn rev_row(adj: Seq<Seq<usize>>, w: usize) -> Seq<usize>
    decreases adj.len(),
{
    if adj.len() == 0 {
        Seq::empty()
    } else {
        rev_row(adj.drop_last(), w) + repeat_of((adj.len() - 1) as usize, occurrences(adj.last(), w))
    }
}

impl Graph {
    /// The number of vertices; ids are `0 .. vertex_count()`.
    pub open spec fn vertex_count(&self) -> int {
        self.vertices as int
    }

    /// The number of accepted `add_edge` calls.
    pub open spec fn edge_total(&self) -> int {
        self.edges as int
    }

    pub open spec fn is_directed(&self) -> bool {
        self.orientation is Directed
    }

    /// The adjacency rows as mathematical sequences.
    pub open spec fn adj_seqs(&self) -> Seq<Seq<usize>> {
        self.adjacencies@.map_values(|row: Vec<usize>| row@)
    }

    /// The adjacency row of vertex `v`.
    pub open spec fn adj_of(&self, v: int) -> Seq<usize> {
        self.adj_seqs()[v]
    }

    /// Structural invariant: one row per vertex, every entry a valid vertex
    /// id, and the edge counter in step with the entries (each undirected
    /// edge appears in exactly two entries, each directed edge in one).
    pub open spec fn wf(&self) -> bool {
        &&& self.adj_seqs().len() == self.vertex_count()
        &&& forall|v: int|
            0 <= v < self.vertex_count() ==> in_range(
                #[trigger] self.adj_of(v),
                self.vertex_count(),
            )
        &&& total_entries(self.adj_seqs()) == if self.is_directed() {
            self.edge_total()
        } else {
            2 * self.edge_total()
        }
    }

    /// The row of `u` contains `w`.
    pub open spec fn has_edge(&self, u: usize, w: usize) -> bool {
        u < self.vertex_count() && self.adj_of(u as int).contains(w)
    }

    /// Step `k` of `walk` follows an edge.
    pub open spec fn step_ok(&self, walk: Seq<usize>, k: int) -> bool {
        self.has_edge(walk[k], walk[k + 1])
    }

    /// Every consecutive pair of `walk` is an edge of the graph.
    pub open spec fn links(&self, walk: Seq<usize>) -> bool {
        forall|k: int| 0 <= k < walk.len() - 1 ==> #[trigger] self.step_ok(walk, k)
    }

    /// `walk` leads from `s` to `t` along edges.
    pub open spec fn is_walk_between(&self, walk: Seq<usize>, s: usize, t: usize) -> bool {
        &&& walk.len() >= 1
        &&& walk.first() == s
        &&& walk.last() == t
        &&& s < self.vertex_count()
        &&& self.links(walk)
    }

    /// Some walk leads from `s` to `t`.
    pub open spec fn reaches(&self, s: usize, t: usize) -> bool {
        exists|walk: Seq<usize>| self.is_walk_between(walk, s, t)
    }

    /// `walk` returns to its first vertex along edges.
    pub open spec fn is_closed_walk(&self, walk: Seq<usize>) -> bool {
        &&& walk.len() >= 2
        &&& walk.first() == walk.last()
        &&& self.links(walk)
    }

    /// Some closed walk exists in the graph.
    pub open spec fn has_cycle(&self) -> bool {
        exists|walk: Seq<usize>| self.is_closed_walk(walk)
    }
}

/// The number of `false` entries, used as a termination measure by the
/// traversal loops: every newly visited vertex lowers it.
pub(crate) open spec fn count_false(s: Seq<bool>) -> nat
    decreases s.len(),
{
    if s.len() == 0 {
        0
    } else {
        count_false(s.drop_last()) + if s.last() {
            0nat
        } else {
            1nat
        }
    }
}

pub(crate) proof fn lemma_count_false_set_true(s: Seq<bool>, i: int)
    requires
        0 <= i < s.len(),
        !s[i],
    ensures
        count_false(s.update(i, true)) + 1 == count_false(s),
    decreases s.len(),
{
    let updated = s.update(i, true);
    if i == s.len() - 1 {
        assert(updated.drop_last() =~= s.drop_last());
    } else {
        assert(updated.drop_last() =~= s.drop_last().update(i, true));
        lemma_count_false_set_true(s.drop_last(), i);
        assert(updated.last() == s.last());
    }
}

/// The number of frontier entries whose vertex is already marked; a frontier
/// pop of a marked vertex lowers it while leaving the mark count unchanged.
pub(crate) open spec fn count_marked(fr: Seq<usize>, m: Seq<bool>) -> nat
    decreases fr.len(),
{
    if fr.len() == 0 {
        0
    } else {
        count_marked(fr.drop_last(), m) + if (fr.last() as int) < m.len() && m[fr.last() as int] {
            1nat
        } else {
            0nat
        }
    }
}

pub(crate) proof fn lemma_count_marked_drop_first(fr: Seq<usize>, m: Seq<bool>)
    requires
        fr.len() > 0,
    ensures
        count_marked(fr, m) == count_marked(fr.drop_first(), m) + if (fr.first() as int) < m.len()
            && m[fr.first() as int] {
            1nat
        } else {
            0nat
        },
    decreases fr.len(),
{
    if fr.len() == 1 {
        assert(fr.drop_first() =~= Seq::<usize>::empty());
        assert(fr.drop_last() =~= Seq::<usize>::empty());
        assert(fr.last() == fr.first());
    } else {
        assert(fr.drop_first().drop_last() =~= fr.drop_last().drop_first());
        lemma_count_marked_drop_first(fr.drop_last(), m);
        assert(fr.drop_first().last() == fr.last());
        assert(fr.drop_last().first() == fr.first());
    }
}

/// A one-vertex walk shows that every vertex reaches itself.
pub proof fn lemma_reaches_self(g: &Graph, s: usize)
    requires
        s < g.vertex_count(),
    ensures
        g.reaches(s, s),
{
    let walk = seq![s];
    assert(g.is_walk_between(walk, s, s));
}

/// Appending one edge to a walk extends reachability by one step.
pub proof fn lemma_reaches_step(g: &Graph, s: usize, u: usize, w: usize)
    requires
        g.reaches(s, u),
        g.has_edge(u, w),
    ensures
        g.reaches(s, w),
{
    let walk = choose|walk: Seq<usize>| g.is_walk_between(walk, s, u);
    let extended = walk.push(w);
    assert forall|k: int| 0 <= k < extended.len() - 1 implies #[trigger] g.step_ok(extended, k) by {
        if k < walk.len() - 1 {
            assert(g.step_ok(walk, k));
            assert(extended[k] == walk[k]);
            assert(extended[k + 1] == walk[k + 1]);
        } else {
            assert(extended[k] == u);
            assert(extended[k + 1] == w);
        }
    }
    assert(g.is_walk_between(extended, s, w));
}

/// A mark set closed under the edges of `g`.
pub(crate) open spec fn marked_closed(g: &Graph, m: Seq<bool>) -> bool {
    forall|u: usize, w: usize|
        #[trigger] g.has_edge(u, w) && (u as int) < m.len() && m[u as int] ==> (w as int) < m.len()
            && m[w as int]
}

pub(crate) proof fn lemma_walk_marked(g: &Graph, m: Seq<bool>, walk: Seq<usize>)
    requires
        g.wf(),
        m.len() == g.vertex_count(),
        marked_closed(g, m),
        walk.len() >= 1,
        g.links(walk),
        (walk.first() as int) < m.len(),
        m[walk.first() as int],
    ensures
        (walk.last() as int) < m.len(),
        m[walk.last() as int],
    decreases walk.len(),
{
    if walk.len() > 1 {
        assert(g.step_ok(walk, 0));
        assert(g.has_edge(walk[0], walk[1]));
        let rest = walk.drop_first();
        assert forall|k: int| 0 <= k < rest.len() - 1 implies #[trigger] g.step_ok(rest, k) by {
            assert(g.step_ok(walk, k + 1));
            assert(rest[k] == walk[k + 1]);
            assert(rest[k + 1] == walk[k + 2]);
        }
        assert(rest.first() == walk[1]);
        assert(rest.last() == walk.last());
        lemma_walk_marked(g, m, rest);
    }
}

/// Every vertex reachable from a marked vertex is marked, provided the mark
/// set is closed under edges.
pub(crate) proof fn lemma_reaches_marked(g: &Graph, m: Seq<bool>, s: usize, t: usize)
    requires
        g.wf(),
        m.len() == g.vertex_count(),
        marked_closed(g, m),
        (s as int) < m.len(),
        m[s as int],
        g.reaches(s, t),
    ensures
        (t as int) < m.len(),
        m[t as int],
{
    let walk = choose|walk: Seq<usize>| g.is_walk_between(walk, s, t);
    lemma_walk_marked(g, m, walk);
}

proof fn lemma_total_entries_all_empty(adj: Seq<Seq<usize>>)
    requires
        forall|j: int| 0 <= j < adj.len() ==> (#[trigger] adj[j]).len() == 0,
    ensures
        total_entries(adj) == 0,
    decreases adj.len(),
{
    if adj.len() > 0 {
        lemma_total_entries_all_empty(adj.drop_last());
    }
}

proof fn lemma_total_entries_push(adj: Seq<Seq<usize>>, i: int, x: usize)
    requires
        0 <= i < adj.len(),
    ensures
        total_entries(adj.update(i, adj[i].push(x))) == total_entries(adj) + 1,
    decreases adj.len(),
{
    let updated = adj.update(i, adj[i].push(x));
    if i == adj.len() - 1 {
        assert(updated.drop_last() =~= adj.drop_last());
        assert(updated.last() == adj[i].push(x));
    } else {
        assert(updated.drop_last() =~= adj.drop_last().update(i, adj.drop_last()[i].push(x)));
        lemma_total_entries_push(adj.drop_last(), i, x);
        assert(updated.last() == adj.last());
    }
}

proof fn lemma_total_entries_take_step(adj: Seq<Seq<usize>>, v: int)
    requires
        0 <= v < adj.len(),
    ensures
        total_entries(adj.take(v + 1)) == total_entries(adj.take(v)) + adj[v].len(),
{
    assert(adj.take(v + 1).drop_last() =~= adj.take(v));
    assert(adj.take(v + 1).last() == adj[v]);
}

proof fn lemma_total_entries_take_le(adj: Seq<Seq<usize>>, v: int)
    requires
        0 <= v <= adj.len(),
    ensures
        total_entries(adj.take(v)) <= total_entries(adj),
    decreases adj.len() - v,
{
    if v == adj.len() {
        assert(adj.take(v) =~= adj);
    } else {
        lemma_total_entries_take_step(adj, v);
        lemma_total_entries_take_le(adj, v + 1);
    }
}

impl Graph {
    fn new(orientation: Orientation, vertices: usize) -> (g: Graph)
        ensures
            g.wf(),
            g.vertex_count() == vertices,
            g.edge_total() == 0,
            g.is_directed() == (orientation is Directed),
            forall|v: int| 0 <= v < vertices ==> (#[trigger] g.adj_of(v)).len() == 0,
    {
        let mut adjacencies: Vec<Vec<usize>> = Vec::new();
        let mut i: usize = 0;
        while i < vertices
            invariant
                i <= vertices,
                adjacencies@.len() == i,
                forall|j: int| 0 <= j < i ==> (#[trigger] adjacencies@[j])@.len() == 0,
            decreases vertices - i,
        {
            adjacencies.push(Vec::new());
            i = i + 1;
        }
        let g = Graph { orientation, vertices, edges: 0, adjacencies };
        proof {
            lemma_total_entries_all_empty(g.adj_seqs());
        }
        g
    }

    /// An empty undirected graph over `vertices` vertices.
    pub fn new_undirected(vertices: usize) -> (g: Graph)
        ensures
            g.wf(),
            !g.is_directed(),
            g.vertex_count() == vertices,
            g.edge_total() == 0,
            forall|v: int| 0 <= v < vertices ==> (#[trigger] g.adj_of(v)).len() == 0,
    {
        Graph::new(Orientation::Undirected, vertices)
    }

    /// An empty directed graph over `vertices` vertices.
    pub fn new_directed(vertices: usize) -> (g: Graph)
        ensures
            g.wf(),
            g.is_directed(),
            g.vertex_count() == vertices,
            g.edge_total() == 0,
            forall|v: int| 0 <= v < vertices ==> (#[trigger] g.adj_of(v)).len() == 0,
    {
        Graph::new(Orientation::Directed, vertices)
    }

    /// The vertex count.
    pub fn vertices(&self) -> (n: usize)
        ensures
            n == self.vertex_count(),
    {
        self.vertices
    }

    /// The number of accepted edge insertions.
    pub fn edges(&self) -> (m: usize)
        ensures
            m == self.edge_total(),
    {
        self.edges
    }

    fn is_undirected(&self) -> (r: bool)
        ensures
            r == !self.is_directed(),
    {
        match self.orientation {
            Orientation::Undirected => true,
            Orientation::Directed => false,
        }
    }

    /// Direct access to one adjacency row, for callers that have already
    /// established that `v` is in range.
    pub(crate) fn row(&self, v: usize) -> (r: &Vec<usize>)
        requires
            self.wf(),
            v < self.vertex_count(),
        ensures
            r@ == self.adj_of(v as int),
    {
        &self.adjacencies[v]
    }

    /// The neighbor row of `vertex` in insertion order, or `InvalidArgument`
    /// exactly when `vertex` is out of range.
    pub fn adjacencies(&self, vertex: usize) -> (r: Result<&Vec<usize>, GraphError>)
        requires
            self.wf(),
        ensures
            match r {
                Ok(row) => vertex < self.vertex_count() && row@ == self.adj_of(vertex as int),
                Err(e) => e == GraphError::InvalidArgument && vertex >= self.vertex_count(),
            },
    {
        if vertex >= self.vertices {
            return Err(GraphError::InvalidArgument);
        }
        Ok(&self.adjacencies[vertex])
    }

    /// Unchecked insertion used once the endpoints are known to be in range.
    pub(crate) fn insert_edge(&mut self, from: usize, to: usize)
        requires
            old(self).wf(),
            from < old(self).vertex_count(),
            to < old(self).vertex_count(),
            old(self).edge_total() < usize::MAX,
        ensures
            final(self).wf(),
            final(self).vertex_count() == old(self).vertex_count(),
            final(self).is_directed() == old(self).is_directed(),
            final(self).edge_total() == old(self).edge_total() + 1,
            final(self).adj_seqs() == oriented_insert(
                old(self).adj_seqs(),
                from,
                to,
                old(self).is_directed(),
            ),
    {
        let ghost adj0 = self.adj_seqs();
        let undirected = self.is_undirected();
        self.adjacencies[from].push(to);
        proof {
            assert(self.adj_seqs() =~= directed_insert(adj0, from, to));
            lemma_total_entries_push(adj0, from as int, to);
        }
        let ghost adj1 = self.adj_seqs();
        if undirected {
            self.adjacencies[to].push(from);
            proof {
                assert(self.adj_seqs() =~= directed_insert(adj1, to, from));
                lemma_total_entries_push(adj1, to as int, from);
            }
        }
        self.edges = self.edges + 1;
        proof {
            assert(self.adj_seqs() =~= oriented_insert(adj0, from, to, old(self).is_directed()));
            assert forall|v: int|
                0 <= v < self.vertex_count() implies in_range(
                #[trigger] self.adj_of(v),
                self.vertex_count(),
            ) by {
                assert(in_range(old(self).adj_of(v), old(self).vertex_count()));
            }
        }
    }

    /// Insert the edge `(from, to)` as the orientation prescribes and count
    /// it once, or reject an out-of-range endpoint with `InvalidArgument`
    /// and leave the graph unchanged.
    pub fn add_edge(&mut self, from: usize, to: usize) -> (r: Result<(), GraphError>)
        requires
            old(self).wf(),
            old(self).edge_total() < usize::MAX,
        ensures
            final(self).wf(),
            final(self).vertex_count() == old(self).vertex_count(),
            final(self).is_directed() == old(self).is_directed(),
            match r {
                Ok(()) => {
                    &&& from < old(self).vertex_count()
                    &&& to < old(self).vertex_count()
                    &&& final(self).edge_total() == old(self).edge_total() + 1
                    &&& final(self).adj_seqs() == oriented_insert(
                        old(self).adj_seqs(),
                        from,
                        to,
                        old(self).is_directed(),
                    )
                },
                Err(e) => {
                    &&& e == GraphError::InvalidArgument
                    &&& (from >= old(self).vertex_count() || to >= old(self).vertex_count())
                    &&& *final(self) == *old(self)
                },
            },
    {
        if from >= self.vertices || to >= self.vertices {
            return Err(GraphError::InvalidArgument);
        }
        self.insert_edge(from, to);
        Ok(())
    }

    /// A new directed graph with every arc `(u, v)` replaced by `(v, u)`
    /// (vertex count unchanged, arcs grouped by source vertex in ascending
    /// order), or `InvalidOperation` exactly when the graph is undirected.
    pub fn reverse(&self) -> (r: Result<Graph, GraphError>)
        requires
            self.wf(),
        ensures
            match r {
                Ok(g) => {
                    &&& self.is_directed()
                    &&& g.wf()
                    &&& g.is_directed()
                    &&& g.vertex_count() == self.vertex_count()
                    &&& g.edge_total() == self.edge_total()
                    &&& forall|w: int|
                        0 <= w < self.vertex_count() ==> #[trigger] g.adj_of(w) == rev_row(
                            self.adj_seqs(),
                            w as usize,
                        )
                },
                Err(e) => e == GraphError::InvalidOperation && !self.is_directed(),
            },
    {
        if self.is_undirected() {
            return Err(GraphError::InvalidOperation);
        }
        let n = self.vertices;
        let ghost adj = self.adj_seqs();
        let mut reversed = Graph::new_directed(n);
        proof {
            assert forall|w: int| 0 <= w < n implies #[trigger] reversed.adj_of(w) == rev_row(
                adj.take(0),
                w as usize,
            ) by {
                assert(reversed.adj_of(w) =~= rev_row(adj.take(0), w as usize));
            }
        }
        let mut v: usize = 0;
        while v < n
            invariant
                self.wf(),
                self.is_directed(),
                n == self.vertex_count(),
                adj == self.adj_seqs(),
                v <= n,
                reversed.wf(),
                reversed.is_directed(),
                reversed.vertex_count() == n,
                reversed.edge_total() == total_entries(adj.take(v as int)),
                forall|w: int|
                    0 <= w < n ==> #[trigger] reversed.adj_of(w) == rev_row(
                        adj.take(v as int),
                        w as usize,
                    ),
            decreases n - v,
        {
            let ghost row = self.adj_of(v as int);
            let row_len = self.adjacencies[v].len();
            let mut i: usize = 0;
            proof {
                assert(row.take(0) =~= Seq::<usize>::empty());
                assert forall|w: int| 0 <= w < n implies #[trigger] reversed.adj_of(w) == rev_row(
                    adj.take(v as int),
                    w as usize,
                ) + repeat_of(v, occurrences(row.take(0), w as usize)) by {
                    assert(repeat_of(v, occurrences(row.take(0), w as usize)) =~= Seq::<
                        usize,
                    >::empty());
                    assert(rev_row(adj.take(v as int), w as usize) + Seq::<usize>::empty() =~= rev_row(
                        adj.take(v as int),
                        w as usize,
                    ));
                }
            }
            while i < row_len
                invariant
                    self.wf(),
                    self.is_directed(),
                    n == self.vertex_count(),
                    adj == self.adj_seqs(),
                    v < n,
                    row == self.adj_of(v as int),
                    row_len == row.len(),
                    i <= row_len,
                    reversed.wf(),
                    reversed.is_directed(),
                    reversed.vertex_count() == n,
                    reversed.edge_total() == total_entries(adj.take(v as int)) + i,
                    forall|w: int|
                        0 <= w < n ==> #[trigger] reversed.adj_of(w) == rev_row(
                            adj.take(v as int),
                            w as usize,
                        ) + repeat_of(v, occurrences(row.take(i as int), w as usize)),
                decreases row_len - i,
            {
                let a = self.adjacencies[v][i];
                proof {
                    assert(in_range(row, n as int));
                    assert(row[i as int] < n);
                    lemma_total_entries_take_step(adj, v as int);
                    lemma_total_entries_take_le(adj, v as int + 1);
                }
                let ghost prev = reversed;
                reversed.insert_edge(a, v);
                proof {
                    assert(reversed.adj_seqs() == directed_insert(prev.adj_seqs(), a, v));
                    assert forall|w: int| 0 <= w < n implies #[trigger] reversed.adj_of(w)
                        == rev_row(adj.take(v as int), w as usize) + repeat_of(
                        v,
                        occurrences(row.take(i as int + 1), w as usize),
                    ) by {
                        assert(row.take(i as int + 1).drop_last() =~= row.take(i as int));
                        assert(row.take(i as int + 1).last() == a);
                        let base = rev_row(adj.take(v as int), w as usize);
                        let occ_old = occurrences(row.take(i as int), w as usize);
                        if w == a as int {
                            assert(occurrences(row.take(i as int + 1), w as usize) == occ_old
                                + 1);
                            assert(reversed.adj_of(w) == prev.adj_of(w).push(v));
                            assert(repeat_of(v, occ_old + 1) =~= repeat_of(v, occ_old).push(v));
                            assert((base + repeat_of(v, occ_old)).push(v) =~= base + repeat_of(
                                v,
                                occ_old,
                            ).push(v));
                        } else {
                            assert(occurrences(row.take(i as int + 1), w as usize) == occ_old);
                            assert(reversed.adj_of(w) == prev.adj_of(w));
                        }
                    }
                }
                i = i + 1;
            }
            proof {
                lemma_total_entries_take_step(adj, v as int);
                assert forall|w: int| 0 <= w < n implies #[trigger] reversed.adj_of(w) == rev_row(
                    adj.take(v as int + 1),
                    w as usize,
                ) by {
                    assert(adj.take(v as int + 1).drop_last() =~= adj.take(v as int));
                    assert(adj.take(v as int + 1).last() == adj[v as int]);
                    assert(row.take(row_len as int) =~= row);
                    assert((adj.take(v as int + 1).len() - 1) as usize == v);
                }
            }
            v = v + 1;
        }
        proof {
            assert(adj.take(n as int) =~= adj);
        }
        Ok(reversed)
    }
}

/// Law: an accepted insertion makes `to` appear in the row of `from`; in an
/// undirected graph it also makes `from` appear in the row of `to`; in a
/// directed graph every row other than the row of `from` is unchanged.
pub proof fn lemma_add_edge_appearance(
    before: Graph,
    after: Graph,
    from: usize,
    to: usize,
)
    requires
        before.wf(),
        from < before.vertex_count(),
        to < before.vertex_count(),
        after.adj_seqs() == oriented_insert(before.adj_seqs(), from, to, before.is_directed()),
    ensures
        after.adj_of(from as int).contains(to),
        !before.is_directed() ==> after.adj_of(to as int).contains(from),
        before.is_directed() ==> forall|x: int|
            0 <= x < before.vertex_count() && x != from ==> #[trigger] after.adj_of(x)
                == before.adj_of(x),
{
    let row = before.adj_of(from as int);
    if before.is_directed() {
        assert(after.adj_of(from as int) == row.push(to));
        assert(row.push(to)[row.len() as int] == to);
    } else {
        let mid = directed_insert(before.adj_seqs(), from, to);
        assert(after.adj_of(to as int) == mid[to as int].push(from));
        assert(mid[to as int].push(from)[mid[to as int].len() as int] == from);
        if from == to {
            assert(after.adj_of(from as int).last() == from);
        } else {
            assert(after.adj_of(from as int) == row.push(to));
            assert(row.push(to)[row.len() as int] == to);
        }
    }
}

proof fn lemma_occ_concat(a: Seq<usize>, b: Seq<usize>, w: usize)
    ensures
        occurrences(a + b, w) == occurrences(a, w) + occurrences(b, w),
    decreases b.len(),
{
    if b.len() == 0 {
        assert(a + b =~= a);
    } else {
        assert((a + b).drop_last() =~= a + b.drop_last());
        assert((a + b).last() == b.last());
        lemma_occ_concat(a, b.drop_last(), w);
    }
}

proof fn lemma_occ_repeat(v: usize, k: nat, w: usize)
    ensures
        occurrences(repeat_of(v, k), w) == if v == w {
            k
        } else {
            0nat
        },
    decreases k,
{
    if k > 0 {
        assert(repeat_of(v, k).drop_last() =~= repeat_of(v, (k - 1) as nat));
        assert(repeat_of(v, k).last() == v);
        lemma_occ_repeat(v, (k - 1) as nat, w);
    }
}

proof fn lemma_occ_rev_row(adj: Seq<Seq<usize>>, v: usize, w: usize)
    requires
        adj.len() <= usize::MAX,
    ensures
        occurrences(rev_row(adj, w), v) == if (v as int) < adj.len() {
            occurrences(adj[v as int], w)
        } else {
            0nat
        },
    decreases adj.len(),
{
    if adj.len() > 0 {
        let shorter = adj.drop_last();
        let tail = repeat_of((adj.len() - 1) as usize, occurrences(adj.last(), w));
        lemma_occ_concat(rev_row(shorter, w), tail, v);
        lemma_occ_repeat((adj.len() - 1) as usize, occurrences(adj.last(), w), v);
        lemma_occ_rev_row(shorter, v, w);
        if (v as int) == adj.len() - 1 {
            assert(adj.last() == adj[v as int]);
        } else if (v as int) < adj.len() - 1 {
            assert(shorter[v as int] == adj[v as int]);
        }
    }
}

proof fn lemma_occ_count(row: Seq<usize>, w: usize)
    ensures
        occurrences(row, w) == row.to_multiset().count(w),
    decreases row.len(),
{
    broadcast use vstd::seq_lib::group_to_multiset_ensures;

    if row.len() == 0 {
        assert(!row.contains(w));
        assert(row.to_multiset().count(w) == 0);
    } else {
        lemma_occ_count(row.drop_last(), w);
        assert(row =~= row.drop_last().push(row.last()));
        assert(row.to_multiset() =~= row.drop_last().to_multiset().insert(row.last()));
    }
}

proof fn lemma_occ_zero_out_of_range(row: Seq<usize>, n: int, w: usize)
    requires
        in_range(row, n),
        w >= n,
    ensures
        occurrences(row, w) == 0,
{
    broadcast use vstd::seq_lib::group_to_multiset_ensures;

    assert(!row.contains(w));
    lemma_occ_count(row, w);
}

/// Law: reversing a directed graph twice yields, for every vertex, an
/// adjacency row with exactly the same entries as the original row, though
/// possibly in another order (equal adjacency multisets).
pub proof fn lemma_reverse_twice_multiset(g: Graph, r: Graph, rr: Graph)
    requires
        g.wf(),
        g.is_directed(),
        r.wf(),
        rr.wf(),
        r.vertex_count() == g.vertex_count(),
        rr.vertex_count() == g.vertex_count(),
        forall|w: int|
            0 <= w < g.vertex_count() ==> #[trigger] r.adj_of(w) == rev_row(
                g.adj_seqs(),
                w as usize,
            ),
        forall|w: int|
            0 <= w < g.vertex_count() ==> #[trigger] rr.adj_of(w) == rev_row(
                r.adj_seqs(),
                w as usize,
            ),
    ensures
        forall|v: int|
            0 <= v < g.vertex_count() ==> #[trigger] rr.adj_of(v).to_multiset() == g.adj_of(
                v,
            ).to_multiset(),
{
    let n = g.vertex_count();
    assert forall|v: int| 0 <= v < n implies #[trigger] rr.adj_of(v).to_multiset() == g.adj_of(
        v,
    ).to_multiset() by {
        assert forall|w: usize| true implies occurrences(rr.adj_of(v), w) == occurrences(
            g.adj_of(v),
            w,
        ) by {
            assert(r.adj_seqs().len() == n);
            assert(g.adj_seqs().len() == n);
            lemma_occ_rev_row(r.adj_seqs(), w, v as usize);
            if (w as int) < n {
                assert(r.adj_of(w as int) == rev_row(g.adj_seqs(), w));
                lemma_occ_rev_row(g.adj_seqs(), v as usize, w);
            } else {
                assert(in_range(g.adj_of(v), n));
                lemma_occ_zero_out_of_range(g.adj_of(v), n, w);
                assert(in_range(rr.adj_of(v), n));
                lemma_occ_zero_out_of_range(rr.adj_of(v), n, w);
            }
        }
        assert forall|w: usize| true implies rr.adj_of(v).to_multiset().count(w) == g.adj_of(
            v,
        ).to_multiset().count(w) by {
            lemma_occ_count(rr.adj_of(v), w);
            lemma_occ_count(g.adj_of(v), w);
        }
        assert(rr.adj_of(v).to_multiset() =~= g.adj_of(v).to_multiset());
    }
}

} // verus!
