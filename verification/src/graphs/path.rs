//! Single-source traversal: marks every vertex reachable from the source and
//! records, per visited vertex, the vertex it was first discovered from. The
//! frontier is popped from the back for depth-first order and from the front
//! for breadth-first order; a vertex is marked when popped, and the parent
//! entry of a vertex is never rewritten once the vertex is marked.

use vstd::prelude::*;
use std::collections::VecDeque;
use crate::GraphError;
use crate::graphs::Graph;
use crate::graphs::count_false;
use crate::graphs::count_marked;
use crate::graphs::lemma_count_false_set_true;
use crate::graphs::lemma_count_marked_drop_first;
use crate::graphs::lemma_reaches_marked;
use crate::graphs::lemma_reaches_self;
use crate::graphs::lemma_reaches_step;
use crate::graphs::marked_closed;

verus! {

#[derive(Clone, Copy)]
enum Traversal {
    Depth,
    Breadth,
}

/// The result of one single-source traversal: the visited set as one flag per
/// vertex, and a parent pointer for every visited vertex but the source.
pub struct Path {
    pub source: usize,
    pub marked: Vec<bool>,
    pub came_from: Vec<Option<usize>>,
    pub rank: Ghost<Seq<nat>>,
}

impl Path {
    /// The vertex count of the traversed graph.
    pub open spec fn limit(&self) -> int {
        self.marked@.len() as int
    }

    pub open spec fn source_of(&self) -> usize {
        self.source
    }

    /// `v` was reached by the traversal.
    pub open spec fn visited(&self, v: usize) -> bool {
        v < self.limit() && self.marked@[v as int]
    }

    /// Tree structure over the visited set: every visited vertex but the
    /// source has a visited parent, and parent ranks strictly decrease, so
    /// following parents terminates at the source.
    pub open spec fn wf(&self) -> bool {
        &&& self.came_from@.len() == self.marked@.len()
        &&& self.rank@.len() == self.marked@.len()
        &&& (self.source as int) < self.limit()
        &&& self.marked@[self.source as int]
        &&& self.came_from@[self.source as int] is None
        &&& forall|v: int|
            0 <= v < self.limit() && self.marked@[v] && v != self.source ==> {
                let parent = (#[trigger] self.came_from@[v])->Some_0;
                &&& self.came_from@[v] is Some
                &&& (parent as int) < self.limit()
                &&& self.marked@[parent as int]
                &&& self.rank@[parent as int] < self.rank@[v]
            }
    }

    /// Every recorded parent pointer follows an edge of `g`.
    pub open spec fn respects(&self, g: &Graph) -> bool {
        &&& self.limit() == g.vertex_count()
        &&& forall|v: int|
            0 <= v < self.limit() && (#[trigger] self.came_from@[v]) is Some ==> g.has_edge(
                self.came_from@[v]->Some_0,
                v as usize,
            )
    }

    /// The visited set is exactly the set of vertices reachable from `source`.
    pub open spec fn visits_exactly_reachable(&self, g: &Graph, source: usize) -> bool {
        forall|v: usize|
            v < g.vertex_count() ==> (#[trigger] self.visited(v) <==> g.reaches(source, v))
    }

    /// Step `k` of `route` follows a recorded parent pointer backwards.
    pub open spec fn parent_link(&self, route: Seq<usize>, k: int) -> bool {
        &&& (route[k + 1] as int) < self.limit()
        &&& self.came_from@[route[k + 1] as int] == Some(route[k])
    }

    /// `route` is a parent-pointer chain from the source to `vertex`.
    pub open spec fn is_route_to(&self, route: Seq<usize>, vertex: usize) -> bool {
        &&& route.len() >= 1
        &&& route.first() == self.source_of()
        &&& route.last() == vertex
        &&& forall|k: int| 0 <= k < route.len() - 1 ==> #[trigger] self.parent_link(route, k)
    }
}

impl Path {
    /// Traverse `graph` from `source` in depth-first order (most recently
    /// discovered vertex explored first).
    pub fn new_using_depth(graph: &Graph, source: usize) -> (r: Result<Path, GraphError>)
        requires
            graph.wf(),
        ensures
            match r {
                Ok(p) => {
                    &&& source < graph.vertex_count()
                    &&& p.wf()
                    &&& p.source_of() == source
                    &&& p.limit() == graph.vertex_count()
                    &&& p.respects(graph)
                    &&& p.visits_exactly_reachable(graph, source)
                },
                Err(e) => e == GraphError::InvalidArgument && source >= graph.vertex_count(),
            },
    {
        Path::new(graph, source, Traversal::Depth)
    }

    /// Traverse `graph` from `source` in breadth-first order (earliest
    /// discovered vertex explored first).
    pub fn new_using_breadth(graph: &Graph, source: usize) -> (r: Result<Path, GraphError>)
        requires
            graph.wf(),
        ensures
            match r {
                Ok(p) => {
                    &&& source < graph.vertex_count()
                    &&& p.wf()
                    &&& p.source_of() == source
                    &&& p.limit() == graph.vertex_count()
                    &&& p.respects(graph)
                    &&& p.visits_exactly_reachable(graph, source)
                },
                Err(e) => e == GraphError::InvalidArgument && source >= graph.vertex_count(),
            },
    {
        Path::new(graph, source, Traversal::Breadth)
    }

    #[verifier::loop_isolation(false)]
    fn new(graph: &Graph, source: usize, traversal: Traversal) -> (r: Result<Path, GraphError>)
        requires
            graph.wf(),
        ensures
            match r {
                Ok(p) => {
                    &&& source < graph.vertex_count()
                    &&& p.wf()
                    &&& p.source_of() == source
                    &&& p.limit() == graph.vertex_count()
                    &&& p.respects(graph)
                    &&& p.visits_exactly_reachable(graph, source)
                },
                Err(e) => e == GraphError::InvalidArgument && source >= graph.vertex_count(),
            },
    {
        let n = graph.vertices();
        if source >= n {
            return Err(GraphError::InvalidArgument);
        }
        let mut marked: Vec<bool> = vec![false; n];
        let mut came_from: Vec<Option<usize>> = vec![None; n];
        let ghost mut rank: Seq<nat> = Seq::new(n as nat, |j: int| 0nat);
        let ghost mut clock: nat = 1;
        let mut to_explore: VecDeque<usize> = VecDeque::new();
        to_explore.push_back(source);
        proof {
            lemma_reaches_self(graph, source);
        }
        while to_explore.len() > 0
            invariant
                marked@.len() == n,
                came_from@.len() == n,
                rank.len() == n,
                forall|j: int| 0 <= j < to_explore@.len() ==> (#[trigger] to_explore@[j]) < n,
                forall|j: int|
                    0 <= j < to_explore@.len() ==> (#[trigger] to_explore@[j] == source
                        || came_from@[to_explore@[j] as int] is Some),
                forall|v: int|
                    0 <= v < n && (#[trigger] came_from@[v]) is Some ==> {
                        let parent = came_from@[v]->Some_0;
                        &&& (parent as int) < n
                        &&& marked@[parent as int]
                        &&& graph.has_edge(parent, v as usize)
                        &&& rank[parent as int] < clock
                    },
                forall|v: int| 0 <= v < n && marked@[v] ==> #[trigger] rank[v] < clock,
                forall|v: int|
                    0 <= v < n && marked@[v] && v != source ==> {
                        let parent = (#[trigger] came_from@[v])->Some_0;
                        &&& came_from@[v] is Some
                        &&& rank[parent as int] < rank[v]
                    },
                came_from@[source as int] is None,
                marked@[source as int] || (to_explore@ =~= seq![source] && forall|v: int|
                    0 <= v < n ==> !(#[trigger] marked@[v])),
                forall|v: int|
                    0 <= v < n && #[trigger] marked@[v] ==> graph.reaches(source, v as usize),
                forall|j: int|
                    0 <= j < to_explore@.len() ==> graph.reaches(
                        source,
                        #[trigger] to_explore@[j],
                    ),
                forall|u: usize, w: usize|
                    #[trigger] graph.has_edge(u, w) && u < n && marked@[u as int] ==> (marked@[w
                        as int] || to_explore@.contains(w)),
            decreases count_false(marked@), count_marked(to_explore@, marked@),
        {
            let ghost fr0 = to_explore@;
            let ghost m0 = marked@;
            let popped = match traversal {
                Traversal::Depth => to_explore.pop_back(),
                Traversal::Breadth => to_explore.pop_front(),
            };
            let from = popped.unwrap();
            proof {
                match traversal {
                    Traversal::Depth => {
                        assert(fr0[fr0.len() - 1] == from);
                        assert(to_explore@ =~= fr0.drop_last());
                        assert(count_marked(fr0, m0) == count_marked(to_explore@, m0)
                            + if (fr0.last() as int) < m0.len() && m0[fr0.last() as int] {
                            1nat
                        } else {
                            0nat
                        });
                    },
                    Traversal::Breadth => {
                        assert(fr0[0] == from);
                        assert(to_explore@ =~= fr0.drop_first());
                        lemma_count_marked_drop_first(fr0, m0);
                    },
                }
                assert(from == source || came_from@[from as int] is Some);
            }
            let ghost was_marked = marked@[from as int];
            marked[from] = true;
            proof {
                if was_marked {
                    assert(marked@ =~= m0);
                } else {
                    lemma_count_false_set_true(m0, from as int);
                    rank = rank.update(from as int, clock);
                    clock = clock + 1;
                }
                if from == source {
                    lemma_reaches_self(graph, source);
                }
            }
            let ghost fr_mid = to_explore@;
            let ghost m_mid = marked@;
            let ghost rank_mid = rank;
            let ghost clock_mid = clock;
            proof {
                assert forall|u: usize, w: usize|
                    #[trigger] graph.has_edge(u, w) && u < n && marked@[u as int] && u != from
                    implies (marked@[w as int] || to_explore@.contains(w)) by {
                    if !marked@[w as int] {
                        assert(m0[u as int]);
                        assert(!m0[w as int]);
                        assert(w != from);
                        assert(fr0.contains(w));
                        let j = choose|j: int| 0 <= j < fr0.len() && fr0[j] == w;
                        match traversal {
                            Traversal::Depth => {
                                assert(fr0.last() == from);
                                assert(j < fr0.len() - 1);
                                assert(to_explore@[j] == w);
                            },
                            Traversal::Breadth => {
                                assert(fr0.first() == from);
                                assert(j > 0);
                                assert(to_explore@[j - 1] == w);
                            },
                        }
                    }
                }
                assert forall|v: int| 0 <= v < n && marked@[v] && v != source implies {
                    let parent = (#[trigger] came_from@[v])->Some_0;
                    &&& came_from@[v] is Some
                    &&& rank[parent as int] < rank[v]
                } by {
                    if v == from as int {
                        if !was_marked {
                            assert(came_from@[from as int] is Some);
                            let parent = came_from@[from as int]->Some_0;
                            assert(m0[parent as int]);
                            assert(parent != from);
                        }
                    } else {
                        assert(m0[v]);
                    }
                }
            }
            let row_len = graph.row(from).len();
            let mut i: usize = 0;
            while i < row_len
                invariant
                    i <= row_len,
                    marked@ == m_mid,
                    rank == rank_mid,
                    clock == clock_mid,
                    came_from@.len() == n,
                    count_marked(to_explore@, marked@) == count_marked(fr_mid, marked@),
                    forall|j: int| 0 <= j < to_explore@.len() ==> (#[trigger] to_explore@[j]) < n,
                    forall|j: int|
                        0 <= j < to_explore@.len() ==> (#[trigger] to_explore@[j] == source
                            || came_from@[to_explore@[j] as int] is Some),
                    forall|v: int|
                        0 <= v < n && (#[trigger] came_from@[v]) is Some ==> {
                            let parent = came_from@[v]->Some_0;
                            &&& (parent as int) < n
                            &&& marked@[parent as int]
                            &&& graph.has_edge(parent, v as usize)
                            &&& rank[parent as int] < clock
                        },
                    came_from@[source as int] is None,
                    forall|v: int|
                        0 <= v < n && marked@[v] && v != source ==> {
                            let parent = (#[trigger] came_from@[v])->Some_0;
                            &&& came_from@[v] is Some
                            &&& rank[parent as int] < rank[v]
                        },
                    forall|j: int|
                        0 <= j < to_explore@.len() ==> graph.reaches(
                            source,
                            #[trigger] to_explore@[j],
                        ),
                    forall|u: usize, w: usize|
                        #[trigger] graph.has_edge(u, w) && u < n && marked@[u as int] && u != from
                            ==> (marked@[w as int] || to_explore@.contains(w)),
                    forall|idx: int|
                        0 <= idx < i ==> {
                            let w = #[trigger] graph.adj_of(from as int)[idx];
                            marked@[w as int] || to_explore@.contains(w)
                        },
                decreases row_len - i,
            {
                let w = graph.row(from)[i];
                proof {
                    assert(graph.adj_of(from as int)[i as int] < n);
                }
                if !marked[w] {
                    came_from[w] = Some(from);
                    let ghost fr_before = to_explore@;
                    to_explore.push_back(w);
                    proof {
                        assert(to_explore@.drop_last() =~= fr_before);
                        assert(graph.has_edge(from, w)) by {
                            assert(graph.adj_of(from as int)[i as int] == w);
                        }
                        lemma_reaches_step(graph, source, from, w);
                        assert(to_explore@[to_explore@.len() - 1] == w);
                    }
                }
                proof {
                    assert(graph.adj_of(from as int)[i as int] == w);
                    if marked@[w as int] {
                    } else {
                        assert(to_explore@.contains(w)) by {
                            assert(to_explore@[to_explore@.len() - 1] == w);
                        }
                    }
                }
                i = i + 1;
            }
            proof {
                assert forall|u: usize, w: usize|
                    #[trigger] graph.has_edge(u, w) && u < n && marked@[u as int] implies (marked@[w
                    as int] || to_explore@.contains(w)) by {
                    if u == from {
                        let idx = choose|idx: int|
                            0 <= idx < graph.adj_of(from as int).len() && graph.adj_of(
                                from as int,
                            )[idx] == w;
                        assert(marked@[graph.adj_of(from as int)[idx] as int]
                            || to_explore@.contains(graph.adj_of(from as int)[idx]));
                    }
                }
            }
        }
        let path = Path { source, marked, came_from, rank: Ghost(rank) };
        proof {
            assert(marked_closed(graph, path.marked@));
            assert forall|v: usize| v < graph.vertex_count() implies (#[trigger] path.visited(v)
                <==> graph.reaches(source, v)) by {
                if graph.reaches(source, v) {
                    lemma_reaches_marked(graph, path.marked@, source, v);
                }
            }
        }
        Ok(path)
    }

    /// Whether `vertex` was reached, or `InvalidArgument` exactly when
    /// `vertex` is out of range.
    pub fn has_path_to(&self, vertex: usize) -> (r: Result<bool, GraphError>)
        requires
            self.wf(),
        ensures
            match r {
                Ok(b) => vertex < self.limit() && b == self.visited(vertex),
                Err(e) => e == GraphError::InvalidArgument && vertex >= self.limit(),
            },
    {
        if vertex >= self.marked.len() {
            return Err(GraphError::InvalidArgument);
        }
        Ok(self.marked[vertex])
    }

    /// The discovery route from the source to `vertex`: `None` when `vertex`
    /// was not reached, the parent-pointer chain beginning at the source and
    /// ending at `vertex` when it was, and `InvalidArgument` exactly when
    /// `vertex` is out of range.
    #[verifier::loop_isolation(false)]
    pub fn path_to(&self, vertex: usize) -> (r: Result<Option<Vec<usize>>, GraphError>)
        requires
            self.wf(),
        ensures
            match r {
                Ok(Some(route)) => vertex < self.limit() && self.visited(vertex)
                    && self.is_route_to(route@, vertex),
                Ok(None) => vertex < self.limit() && !self.visited(vertex),
                Err(e) => e == GraphError::InvalidArgument && vertex >= self.limit(),
            },
    {
        if vertex >= self.marked.len() {
            return Err(GraphError::InvalidArgument);
        }
        if !self.marked[vertex] {
            return Ok(None);
        }
        let mut collected: Vec<usize> = Vec::new();
        let mut traveler = vertex;
        while traveler != self.source
            invariant
                traveler < self.limit(),
                self.marked@[traveler as int],
                if collected@.len() == 0 {
                    traveler == vertex
                } else {
                    collected@[0] == vertex && self.came_from@[collected@.last() as int] == Some(
                        traveler,
                    )
                },
                forall|k: int|
                    0 <= k < collected@.len() - 1 ==> self.came_from@[(
                    #[trigger] collected@[k]) as int] == Some(collected@[k + 1]),
                forall|k: int|
                    0 <= k < collected@.len() ==> (#[trigger] collected@[k]) < self.limit()
                        && collected@[k] != self.source,
            decreases self.rank@[traveler as int],
        {
            collected.push(traveler);
            let next = self.came_from[traveler].unwrap();
            proof {
                assert(self.came_from@[traveler as int] is Some);
            }
            traveler = next;
        }
        collected.push(self.source);
        let ghost full = collected@;
        let mut route: Vec<usize> = Vec::new();
        let mut k = collected.len();
        while k > 0
            invariant
                k <= full.len(),
                collected@ == full,
                route@.len() == full.len() - k,
                forall|idx: int|
                    0 <= idx < route@.len() ==> #[trigger] route@[idx] == full[full.len() - 1
                        - idx],
            decreases k,
        {
            k = k - 1;
            route.push(collected[k]);
        }
        proof {
            assert(route@.first() == full.last());
            assert(route@.last() == full.first());
            assert forall|j: int| 0 <= j < route@.len() - 1 implies #[trigger] self.parent_link(
                route@,
                j,
            ) by {
                let a = full.len() - 2 - j;
                assert(route@[j + 1] == full[a]);
                assert(route@[j] == full[a + 1]);
                if a < full.len() - 2 {
                    assert(self.came_from@[full[a] as int] == Some(full[a + 1]));
                } else {
                    assert(full[a] == collected@[full.len() - 2]);
                }
            }
        }
        Ok(Some(route))
    }
}

/// Law: a route returned by `path_to` follows edges of the traversed graph;
/// with the traversal postconditions this is the guarantee that consecutive
/// route vertices are joined by graph edges.
pub proof fn lemma_route_follows_edges(g: &Graph, p: &Path, route: Seq<usize>, vertex: usize)
    requires
        p.respects(g),
        p.is_route_to(route, vertex),
    ensures
        forall|k: int| 0 <= k < route.len() - 1 ==> #[trigger] g.step_ok(route, k),
{
    assert forall|k: int| 0 <= k < route.len() - 1 implies #[trigger] g.step_ok(route, k) by {
        assert(p.parent_link(route, k));
        assert(g.has_edge(p.came_from@[route[k + 1] as int]->Some_0, route[k + 1]));
    }
}

/// Law: two traversals of the same graph from the same source visit exactly
/// the same vertices, whatever their exploration order.
pub proof fn lemma_traversals_agree(g: &Graph, a: &Path, b: &Path, source: usize)
    requires
        a.visits_exactly_reachable(g, source),
        b.visits_exactly_reachable(g, source),
    ensures
        forall|v: usize| v < g.vertex_count() ==> (#[trigger] a.visited(v) <==> b.visited(v)),
{
}

} // verus!
