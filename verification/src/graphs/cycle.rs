//! Cycle detection by iterative depth-first search with explicit on-path
//! tracking: every vertex is tried as a forest root in ascending order, the
//! exploration keeps one frame per open vertex (the vertex and how many of
//! its neighbors were already scanned), and an edge back to a vertex that is
//! still open closes a cycle, which is read off the recorded parents.

use vstd::prelude::*;
use crate::graphs::Graph;
use crate::graphs::in_range;
use crate::graphs::count_false;
use crate::graphs::lemma_count_false_set_true;

verus! {

/// The vertices of the exploration stack, bottom first.
pub(crate) open spec fn frame_verts(stack: Seq<(usize, usize)>) -> Seq<usize> {
    stack.map_values(|frame: (usize, usize)| frame.0)
}

/// Marked but no longer open: the vertex and its whole subtree are explored.
pub(crate) open spec fn is_done(m: Seq<bool>, o: Seq<bool>, v: int) -> bool {
    m[v] && !o[v]
}

/// Every neighbor of `v` is done and was closed strictly earlier than `v`.
pub(crate) open spec fn cert_entry(
    g: &Graph,
    m: Seq<bool>,
    o: Seq<bool>,
    gamma: Seq<int>,
    v: int,
) -> bool {
    forall|idx: int|
        0 <= idx < g.adj_of(v).len() ==> {
            let w = #[trigger] g.adj_of(v)[idx];
            &&& is_done(m, o, w as int)
            &&& gamma[w as int] < gamma[v]
        }
}

/// Close times witness that no edge leaves a finished vertex towards a
/// vertex finished later: the certificate that rules out cycles among the
/// finished vertices.
pub(crate) open spec fn cert_ok(
    g: &Graph,
    m: Seq<bool>,
    o: Seq<bool>,
    gamma: Seq<int>,
    clock: int,
) -> bool {
    forall|x: int|
        0 <= x < g.vertex_count() && #[trigger] is_done(m, o, x) ==> cert_entry(g, m, o, gamma, x)
            && gamma[x] < clock
}

/// The scan budget still open on the stack.
pub(crate) open spec fn pending(g: &Graph, stack: Seq<(usize, usize)>) -> int
    decreases stack.len(),
{
    if stack.len() == 0 {
        0
    } else {
        pending(g, stack.drop_last()) + g.adj_of(stack.last().0 as int).len() - stack.last().1
    }
}

pub(crate) proof fn lemma_pending_nonneg(g: &Graph, stack: Seq<(usize, usize)>)
    requires
        forall|j: int|
            0 <= j < stack.len() ==> (#[trigger] stack[j]).1 <= g.adj_of(stack[j].0 as int).len(),
    ensures
        pending(g, stack) >= 0,
    decreases stack.len(),
{
    if stack.len() > 0 {
        lemma_pending_nonneg(g, stack.drop_last());
    }
}

proof fn lemma_gamma_descends(
    g: &Graph,
    m: Seq<bool>,
    o: Seq<bool>,
    gamma: Seq<int>,
    clock: int,
    walk: Seq<usize>,
)
    requires
        g.wf(),
        m.len() == g.vertex_count(),
        o.len() == g.vertex_count(),
        gamma.len() == g.vertex_count(),
        forall|v: int| 0 <= v < g.vertex_count() ==> is_done(m, o, v),
        cert_ok(g, m, o, gamma, clock),
        walk.len() >= 2,
        g.links(walk),
    ensures
        gamma[walk.last() as int] < gamma[walk.first() as int],
    decreases walk.len(),
{
    assert(g.step_ok(walk, 0));
    assert(g.has_edge(walk[0], walk[1]));
    assert(is_done(m, o, walk[0] as int));
    let idx = choose|idx: int|
        0 <= idx < g.adj_of(walk[0] as int).len() && g.adj_of(walk[0] as int)[idx] == walk[1];
    assert(cert_entry(g, m, o, gamma, walk[0] as int));
    assert(gamma[g.adj_of(walk[0] as int)[idx] as int] < gamma[walk[0] as int]);
    if walk.len() > 2 {
        let rest = walk.drop_first();
        assert forall|k: int| 0 <= k < rest.len() - 1 implies #[trigger] g.step_ok(rest, k) by {
            assert(g.step_ok(walk, k + 1));
            assert(rest[k] == walk[k + 1]);
            assert(rest[k + 1] == walk[k + 2]);
        }
        lemma_gamma_descends(g, m, o, gamma, clock, rest);
        assert(rest.first() == walk[1]);
        assert(rest.last() == walk.last());
    }
}

/// The certificate survives any state change that leaves the set of done
/// vertices unchanged.
proof fn lemma_cert_transfer(
    graph: &Graph,
    m0: Seq<bool>,
    o0: Seq<bool>,
    m1: Seq<bool>,
    o1: Seq<bool>,
    gamma: Seq<int>,
    clock: int,
)
    requires
        graph.wf(),
        m0.len() == graph.vertex_count(),
        o0.len() == graph.vertex_count(),
        m1.len() == graph.vertex_count(),
        o1.len() == graph.vertex_count(),
        gamma.len() == graph.vertex_count(),
        forall|x: int|
            0 <= x < graph.vertex_count() ==> (is_done(m1, o1, x) <==> is_done(m0, o0, x)),
        cert_ok(graph, m0, o0, gamma, clock),
    ensures
        cert_ok(graph, m1, o1, gamma, clock),
{
    assert forall|x: int|
        0 <= x < graph.vertex_count() && #[trigger] is_done(m1, o1, x) implies cert_entry(
        graph,
        m1,
        o1,
        gamma,
        x,
    ) && gamma[x] < clock by {
        assert(is_done(m0, o0, x));
        assert(cert_entry(graph, m0, o0, gamma, x) && gamma[x] < clock);
        assert forall|idx: int| 0 <= idx < graph.adj_of(x).len() implies {
            let w = #[trigger] graph.adj_of(x)[idx];
            &&& is_done(m1, o1, w as int)
            &&& gamma[w as int] < gamma[x]
        } by {
            let w = graph.adj_of(x)[idx];
            assert(in_range(graph.adj_of(x), graph.vertex_count()));
            assert(is_done(m0, o0, w as int));
        }
    }
}

/// Closing an open vertex whose neighbors are all done, stamping it with the
/// current clock, keeps the certificate.
proof fn lemma_close_maintains_cert(
    graph: &Graph,
    m: Seq<bool>,
    o0: Seq<bool>,
    o1: Seq<bool>,
    g0: Seq<int>,
    g1: Seq<int>,
    clock0: int,
    v: int,
)
    requires
        graph.wf(),
        m.len() == graph.vertex_count(),
        o0.len() == graph.vertex_count(),
        g0.len() == graph.vertex_count(),
        0 <= v < graph.vertex_count(),
        m[v],
        o0[v],
        o1 == o0.update(v, false),
        g1 == g0.update(v, clock0),
        cert_ok(graph, m, o0, g0, clock0),
        forall|idx: int|
            0 <= idx < graph.adj_of(v).len() ==> is_done(
                m,
                o0,
                (#[trigger] graph.adj_of(v)[idx]) as int,
            ),
    ensures
        cert_ok(graph, m, o1, g1, clock0 + 1),
{
    assert forall|x: int|
        0 <= x < graph.vertex_count() && #[trigger] is_done(m, o1, x) implies cert_entry(
        graph,
        m,
        o1,
        g1,
        x,
    ) && g1[x] < clock0 + 1 by {
        if x == v {
            assert forall|idx: int| 0 <= idx < graph.adj_of(x).len() implies {
                let w = #[trigger] graph.adj_of(x)[idx];
                &&& is_done(m, o1, w as int)
                &&& g1[w as int] < g1[x]
            } by {
                let w = graph.adj_of(x)[idx];
                assert(in_range(graph.adj_of(x), graph.vertex_count()));
                assert(is_done(m, o0, w as int));
                assert(w != v);
                assert(cert_entry(graph, m, o0, g0, w as int) && g0[w as int] < clock0);
            }
        } else {
            assert(is_done(m, o0, x));
            assert(cert_entry(graph, m, o0, g0, x) && g0[x] < clock0);
            assert forall|idx: int| 0 <= idx < graph.adj_of(x).len() implies {
                let w = #[trigger] graph.adj_of(x)[idx];
                &&& is_done(m, o1, w as int)
                &&& g1[w as int] < g1[x]
            } by {
                let w = graph.adj_of(x)[idx];
                assert(in_range(graph.adj_of(x), graph.vertex_count()));
                assert(is_done(m, o0, w as int));
                assert(w != v);
            }
        }
    }
}


/// Read one cycle off the recorded parents: from the open vertex `v` at the
/// top of the stack back to its open ancestor `w`, closed by the edge
/// `(v, w)` that was just scanned.
fn rebuild_cycle(
    graph: &Graph,
    came_from: &Vec<Option<usize>>,
    stack: &Vec<(usize, usize)>,
    v: usize,
    w: usize,
    Ghost(jw): Ghost<int>,
) -> (found: Vec<usize>)
    requires
        graph.wf(),
        came_from@.len() == graph.vertex_count(),
        stack@.len() >= 1,
        forall|j: int| 0 <= j < stack@.len() ==> (#[trigger] stack@[j]).0 < graph.vertex_count(),
        forall|j: int, k: int|
            0 <= j < k < stack@.len() ==> (#[trigger] stack@[j]).0 != (#[trigger] stack@[k]).0,
        forall|j: int|
            1 <= j < stack@.len() ==> came_from@[(#[trigger] stack@[j]).0 as int] == Some(
                stack@[j - 1].0,
            ) && graph.has_edge(stack@[j - 1].0, stack@[j].0),
        0 <= jw < stack@.len(),
        stack@[jw].0 == w,
        stack@[stack@.len() - 1].0 == v,
        graph.has_edge(v, w),
    ensures
        graph.is_closed_walk(found@),
{
    let ghost top: int = stack@.len() - 1;
    proof {
        assert(jw <= top);
    }
    let mut collected: Vec<usize> = Vec::new();
    collected.push(w);
    let mut traveler = v;
    let ghost mut t: int = top;
    #[verifier::loop_isolation(false)]
    while traveler != w
        invariant
            jw <= t <= top,
            traveler == stack@[t].0,
            collected@.len() == 1 + (top - t),
            collected@[0] == w,
            forall|k: int|
                1 <= k < collected@.len() ==> #[trigger] collected@[k] == stack@[top - (k - 1)].0,
        decreases t,
    {
        proof {
            assert(t != jw);
            assert(t >= 1);
        }
        collected.push(traveler);
        let next = match came_from[traveler] {
            Some(p) => p,
            None => w,
        };
        proof {
            assert(came_from@[stack@[t].0 as int] == Some(stack@[t - 1].0));
            t = t - 1;
        }
        traveler = next;
    }
    proof {
        assert(stack@[t].0 == w);
        assert(stack@[jw].0 == w);
        assert(t == jw);
    }
    collected.push(w);
    let ghost full = collected@;
    let mut found: Vec<usize> = Vec::new();
    let mut k = collected.len();
    #[verifier::loop_isolation(false)]
    while k > 0
        invariant
            k <= full.len(),
            collected@ == full,
            found@.len() == full.len() - k,
            forall|idx: int|
                0 <= idx < found@.len() ==> #[trigger] found@[idx] == full[full.len() - 1 - idx],
        decreases k,
    {
        k = k - 1;
        found.push(collected[k]);
    }
    proof {
        let c = found@;
        let len = c.len() as int;
        assert(len == 2 + (top - jw));
        assert(c[0] == full[len - 1]);
        assert(c[len - 1] == full[0]);
        assert forall|q: int| 0 <= q < len - 1 implies #[trigger] graph.step_ok(c, q) by {
            assert(c[q] == full[len - 1 - q]);
            assert(c[q + 1] == full[len - 2 - q]);
            if q == len - 2 {
                assert(full[1] == v);
                assert(full[0] == w);
                assert(graph.has_edge(v, w));
            } else {
                let a = len - 1 - q;
                if a == len - 1 {
                    assert(full[a] == w);
                    assert(full[a - 1] == stack@[top - (a - 2)].0);
                    assert(top - (a - 2) == jw + 1);
                    assert(graph.has_edge(stack@[jw].0, stack@[jw + 1].0));
                } else {
                    assert(full[a] == stack@[top - (a - 1)].0);
                    assert(full[a - 1] == stack@[top - (a - 2)].0);
                    let j = top - (a - 1);
                    assert(graph.has_edge(stack@[j].0, stack@[j + 1].0));
                }
            }
        }
        assert(graph.is_closed_walk(found@));
    }
    found
}

/// One cycle of the graph as a closed walk (first and last vertex equal,
/// every consecutive pair an edge), or `None` exactly when the graph has no
/// closed walk at all. Roots are tried in ascending vertex order and
/// neighbors in insertion order.
#[verifier::rlimit(100)]
pub fn cycle(graph: &Graph) -> (r: Option<Vec<usize>>)
    requires
        graph.wf(),
    ensures
        match r {
            Some(found) => graph.is_closed_walk(found@),
            None => !graph.has_cycle(),
        },
{
    let n = graph.vertices();
    let mut marked: Vec<bool> = vec![false; n];
    let mut onpath: Vec<bool> = vec![false; n];
    let mut came_from: Vec<Option<usize>> = vec![None; n];
    let ghost mut gamma: Seq<int> = Seq::new(n as nat, |j: int| 0);
    let ghost mut clock: int = 0;
    let mut source: usize = 0;
    while source < n
        invariant
            graph.wf(),
            n == graph.vertex_count(),
            source <= n,
            marked@.len() == n,
            onpath@.len() == n,
            came_from@.len() == n,
            gamma.len() == n,
            forall|v: int| 0 <= v < n ==> !(#[trigger] onpath@[v]),
            forall|v: int| 0 <= v < source ==> #[trigger] marked@[v],
            cert_ok(graph, marked@, onpath@, gamma, clock),
        decreases n - source,
    {
        if !marked[source] {
            let ghost m_before = marked@;
            let ghost o_before = onpath@;
            let mut stack: Vec<(usize, usize)> = Vec::new();
            stack.push((source, 0));
            marked[source] = true;
            onpath[source] = true;
            proof {
                assert(frame_verts(stack@)[0] == source);
                assert forall|x: usize| x < n implies (onpath@[x as int] <==> frame_verts(
                    stack@,
                ).contains(x)) by {
                    if x != source && frame_verts(stack@).contains(x) {
                        let j = choose|j: int|
                            0 <= j < frame_verts(stack@).len() && frame_verts(stack@)[j] == x;
                        assert(j == 0);
                    }
                }
                assert forall|x: int|
                    0 <= x < n implies (is_done(marked@, onpath@, x) <==> is_done(
                    m_before,
                    o_before,
                    x,
                )) by {}
                lemma_cert_transfer(graph, m_before, o_before, marked@, onpath@, gamma, clock);
            }
            while stack.len() > 0
                invariant
                    graph.wf(),
                    n == graph.vertex_count(),
                    source < n,
                    marked@.len() == n,
                    onpath@.len() == n,
                    came_from@.len() == n,
                    gamma.len() == n,
                    marked@[source as int],
                    forall|v: int| 0 <= v < source ==> #[trigger] marked@[v],
                    forall|j: int|
                        0 <= j < stack@.len() ==> (#[trigger] stack@[j]).0 < n && stack@[j].1
                            <= graph.adj_of(stack@[j].0 as int).len(),
                    forall|v: usize|
                        v < n ==> (onpath@[v as int] <==> frame_verts(stack@).contains(v)),
                    forall|j: int, k: int|
                        0 <= j < k < stack@.len() ==> (#[trigger] stack@[j]).0 != (
                        #[trigger] stack@[k]).0,
                    forall|j: int|
                        1 <= j < stack@.len() ==> came_from@[(#[trigger] stack@[j]).0 as int]
                            == Some(stack@[j - 1].0) && graph.has_edge(
                            stack@[j - 1].0,
                            stack@[j].0,
                        ),
                    forall|v: int| 0 <= v < n && #[trigger] onpath@[v] ==> marked@[v],
                    cert_ok(graph, marked@, onpath@, gamma, clock),
                    forall|j: int, idx: int|
                        0 <= j < stack@.len() && 0 <= idx < (#[trigger] stack@[j]).1 ==> {
                            let w = #[trigger] graph.adj_of(stack@[j].0 as int)[idx];
                            is_done(marked@, onpath@, w as int) || (j + 1 < stack@.len() && w
                                == stack@[j + 1].0)
                        },
                decreases count_false(marked@), stack@.len() + pending(graph, stack@),
            {
                let ghost s0 = stack@;
                let ghost m0 = marked@;
                let ghost o0 = onpath@;
                let top = stack.len() - 1;
                let frame = stack[top];
                let v = frame.0;
                let i = frame.1;
                let row_len = graph.row(v).len();
                if i < row_len {
                    let w = graph.row(v)[i];
                    stack[top] = (v, i + 1);
                    proof {
                        assert(stack@.drop_last() =~= s0.drop_last());
                        assert(frame_verts(stack@) =~= frame_verts(s0));
                        assert(graph.adj_of(v as int)[i as int] == w);
                        assert(in_range(graph.adj_of(v as int), n as int));
                        assert(w < n);
                        assert(graph.has_edge(v, w)) by {
                            assert(graph.adj_of(v as int)[i as int] == w);
                        }
                        lemma_pending_nonneg(graph, stack@.drop_last());
                    }
                    if !marked[w] {
                        marked[w] = true;
                        onpath[w] = true;
                        came_from[w] = Some(v);
                        let ghost s1 = stack@;
                        stack.push((w, 0));
                        proof {
                            lemma_count_false_set_true(m0, w as int);
                            assert(!frame_verts(s1).contains(w));
                            assert(frame_verts(stack@) =~= frame_verts(s1).push(w));
                            assert forall|x: usize| x < n implies (onpath@[x as int]
                                <==> frame_verts(stack@).contains(x)) by {
                                if x == w {
                                    assert(frame_verts(stack@).last() == w);
                                } else {
                                    if frame_verts(s1).contains(x) {
                                        let j = choose|j: int|
                                            0 <= j < frame_verts(s1).len() && frame_verts(s1)[j]
                                                == x;
                                        assert(frame_verts(stack@)[j] == x);
                                    }
                                    if frame_verts(stack@).contains(x) {
                                        let j = choose|j: int|
                                            0 <= j < frame_verts(stack@).len() && frame_verts(
                                                stack@,
                                            )[j] == x;
                                        assert(j < frame_verts(s1).len());
                                        assert(frame_verts(s1)[j] == x);
                                    }
                                }
                            }
                            assert forall|j: int, k: int|
                                0 <= j < k < stack@.len() implies (#[trigger] stack@[j]).0 != (
                            #[trigger] stack@[k]).0 by {
                                if k == stack@.len() - 1 {
                                    assert(frame_verts(s1)[j] == s1[j].0);
                                    assert(stack@[j].0 == s1[j].0);
                                    assert(stack@[k].0 == w);
                                }
                            }
                            assert forall|j: int|
                                1 <= j < stack@.len() implies came_from@[(
                            #[trigger] stack@[j]).0 as int] == Some(stack@[j - 1].0)
                                && graph.has_edge(stack@[j - 1].0, stack@[j].0) by {
                                if j == stack@.len() - 1 {
                                    assert(stack@[j].0 == w);
                                    assert(stack@[j - 1].0 == v);
                                } else {
                                    assert(stack@[j].0 == s1[j].0);
                                    assert(frame_verts(s1)[j] == s1[j].0);
                                    assert(s1[j].0 != w);
                                    assert(came_from@[s1[j].0 as int] == Some(s1[j - 1].0));
                                }
                            }
                            assert forall|x: int|
                                0 <= x < n implies (is_done(marked@, onpath@, x) <==> is_done(
                                m0,
                                o0,
                                x,
                            )) by {}
                            lemma_cert_transfer(graph, m0, o0, marked@, onpath@, gamma, clock);
                            assert forall|j: int, idx: int|
                                0 <= j < stack@.len() && 0 <= idx < (#[trigger] stack@[j]).1 implies {
                                let nb = #[trigger] graph.adj_of(stack@[j].0 as int)[idx];
                                is_done(marked@, onpath@, nb as int) || (j + 1 < stack@.len() && nb
                                    == stack@[j + 1].0)
                            } by {
                                if j < stack@.len() - 1 {
                                    if j == s1.len() - 1 && idx == i as int {
                                        assert(stack@[j + 1].0 == w);
                                    } else {
                                        let nb = graph.adj_of(stack@[j].0 as int)[idx];
                                        assert(stack@[j].0 == s0[j].0);
                                        assert(idx < s0[j].1);
                                        assert(is_done(m0, o0, nb as int) || (j + 1 < s0.len() && nb
                                            == s0[j + 1].0));
                                        if is_done(m0, o0, nb as int) {
                                            assert(nb != w);
                                        }
                                    }
                                }
                            }
                        }
                    } else if onpath[w] {
                        let ghost jw = choose|j: int|
                            0 <= j < frame_verts(stack@).len() && frame_verts(stack@)[j] == w;
                        proof {
                            assert(stack@[jw].0 == w);
                            assert(stack@[stack@.len() - 1].0 == v);
                        }
                        let found = rebuild_cycle(graph, &came_from, &stack, v, w, Ghost(jw));
                        return Some(found);
                    }
                } else {
                    onpath[v] = false;
                    stack.pop();
                    proof {
                        let g0 = gamma;
                        let clock0 = clock;
                        gamma = gamma.update(v as int, clock);
                        clock = clock + 1;
                        assert(frame_verts(s0)[top as int] == v);
                        assert(o0[v as int]);
                        assert(frame_verts(stack@) =~= frame_verts(s0).drop_last());
                        assert forall|x: usize| x < n implies (onpath@[x as int] <==> frame_verts(
                            stack@,
                        ).contains(x)) by {
                            if x != v {
                                if frame_verts(s0).contains(x) {
                                    let j = choose|j: int|
                                        0 <= j < frame_verts(s0).len() && frame_verts(s0)[j] == x;
                                    assert(frame_verts(s0)[top as int] == v);
                                    assert(j < top as int);
                                    assert(frame_verts(stack@)[j] == x);
                                }
                                if frame_verts(stack@).contains(x) {
                                    let j = choose|j: int|
                                        0 <= j < frame_verts(stack@).len() && frame_verts(
                                            stack@,
                                        )[j] == x;
                                    assert(frame_verts(s0)[j] == x);
                                }
                            } else {
                                assert forall|j: int|
                                    0 <= j < frame_verts(stack@).len() implies frame_verts(
                                    stack@,
                                )[j] != v by {
                                    assert(stack@[j].0 == s0[j].0);
                                    assert(s0[top as int].0 == v);
                                }
                            }
                        }
                        assert forall|idx: int|
                            0 <= idx < graph.adj_of(v as int).len() implies is_done(
                            m0,
                            o0,
                            (#[trigger] graph.adj_of(v as int)[idx]) as int,
                        ) by {
                            assert(graph.adj_of(s0[top as int].0 as int)[idx] == graph.adj_of(
                                v as int,
                            )[idx]);
                            assert(is_done(m0, o0, graph.adj_of(v as int)[idx] as int) || (top
                                as int + 1 < s0.len() && graph.adj_of(v as int)[idx] == s0[top
                                as int + 1].0));
                        }
                        lemma_close_maintains_cert(
                            graph,
                            marked@,
                            o0,
                            onpath@,
                            g0,
                            gamma,
                            clock0,
                            v as int,
                        );
                        lemma_pending_nonneg(graph, stack@);
                    }
                }
            }
            proof {
                assert forall|x: int| 0 <= x < n implies !(#[trigger] onpath@[x]) by {
                    assert(!frame_verts(stack@).contains(x as usize));
                }
            }
        }
        source = source + 1;
    }
    proof {
        assert forall|walk: Seq<usize>| !(#[trigger] graph.is_closed_walk(walk)) by {
            if graph.is_closed_walk(walk) {
                assert(graph.step_ok(walk, 0));
                lemma_gamma_descends(graph, marked@, onpath@, gamma, clock, walk);
            }
        }
    }
    None
}

} // verus!
