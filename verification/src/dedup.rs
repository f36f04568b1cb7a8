//! Transitive dedup: remove a direct edge when a longer path to the
//! same destination already exists.
//!
//! The search only asks whether some alternate route exists; it does
//! not compare classifications along it — a deliberate precision/
//! simplicity trade-off.

use vstd::prelude::*;

use crate::graph::DepGraph;
use crate::prune::queued;
use crate::util::count_false;

verus! {

/// `p` records the node slots of a walk through `g` that never touches
/// `avoid`: consecutive entries are joined by live edges.
pub open spec fn is_walk(g: DepGraph, p: Seq<int>, avoid: int) -> bool {
    &&& p.len() >= 1
    &&& forall|i: int| 0 <= i < p.len() - 1 ==> g.has_edge(#[trigger] p[i], p[i + 1])
    &&& forall|i: int| 0 <= i < p.len() ==> #[trigger] p[i] != avoid
}

/// `b` can be reached from `a` along live edges without ever touching
/// `avoid`.
pub open spec fn reach_avoiding(g: DepGraph, a: int, b: int, avoid: int) -> bool {
    exists|p: Seq<int>| #[trigger] is_walk(g, p, avoid) && p[0] == a && p.last() == b
}

/// A transitive route besides the direct edge: a first hop from `u` to
/// some other node, then onward to `v` without ever revisiting `u` —
/// at least two edges in all.
pub open spec fn alt_path(g: DepGraph, u: int, v: int) -> bool {
    exists|m: int|
        #[trigger] g.has_edge(u, m) && m != u && m != v && reach_avoiding(g, m, v, u)
}

/// A walk extends by one live edge that avoids the forbidden node.
proof fn lemma_reach_step(g: DepGraph, a: int, b: int, c: int, avoid: int)
    requires
        reach_avoiding(g, a, b, avoid),
        g.has_edge(b, c),
        c != avoid,
    ensures
        reach_avoiding(g, a, c, avoid),
{
    let p = choose|p: Seq<int>| #[trigger] is_walk(g, p, avoid) && p[0] == a && p.last() == b;
    let p2 = p.push(c);
    assert forall|i: int| 0 <= i < p2.len() - 1 implies g.has_edge(#[trigger] p2[i], p2[i + 1]) by {
        if i < p.len() - 1 {
            assert(p2[i] == p[i] && p2[i + 1] == p[i + 1]);
            assert(g.has_edge(p[i], p[i + 1]));
        } else {
            assert(p2[i] == p.last() && p2[i + 1] == c);
        }
    }
    assert forall|i: int| 0 <= i < p2.len() implies #[trigger] p2[i] != avoid by {
        if i < p.len() {
            assert(p2[i] == p[i]);
        } else {
            assert(p2[i] == c);
        }
    }
    assert(is_walk(g, p2, avoid) && p2[0] == a && p2.last() == c);
}

/// An alternate route survives in any graph that still carries all of
/// `g1`'s edges.
pub proof fn lemma_alt_path_monotone(g1: DepGraph, g2: DepGraph, u: int, v: int)
    requires
        forall|e: int|
            #[trigger] g1.edge_live(e) ==> g2.edge_live(e) && g1.edge_at(e) == g2.edge_at(e),
        alt_path(g1, u, v),
    ensures
        alt_path(g2, u, v),
{
    assert forall|x: int, y: int| #[trigger] g1.has_edge(x, y) implies g2.has_edge(x, y) by {
        let e = choose|e: int|
            #[trigger] g1.edge_live(e) && g1.edge_at(e).from as int == x && g1.edge_at(
                e,
            ).to as int == y;
        assert(g2.edge_live(e) && g2.edge_at(e).from as int == x && g2.edge_at(e).to as int == y);
    }
    let m = choose|m: int|
        #[trigger] g1.has_edge(u, m) && m != u && m != v && reach_avoiding(g1, m, v, u);
    let p = choose|p: Seq<int>| #[trigger] is_walk(g1, p, u) && p[0] == m && p.last() == v;
    assert forall|i: int| 0 <= i < p.len() - 1 implies g2.has_edge(#[trigger] p[i], p[i + 1]) by {
        assert(g1.has_edge(p[i], p[i + 1]));
    }
    assert(is_walk(g2, p, u) && p[0] == m && p.last() == v);
    assert(g2.has_edge(u, m) && m != u && m != v && reach_avoiding(g2, m, v, u));
}

/// The mark array is closed under following edges that avoid `u`: no
/// edge leads from a marked node to an unmarked one.
spec fn bfs_closed(g: DepGraph, visited: Seq<bool>, u: int) -> bool {
    forall|e: int|
        #[trigger] g.edge_live(e) && visited[g.edge_at(e).from as int] && g.edge_at(e).to as int
            != u ==> visited[g.edge_at(e).to as int]
}

/// Along a walk that starts at a marked node and avoids `u`, every node
/// is marked — in particular the last.
proof fn lemma_closed_walk_visited(
    g: DepGraph,
    visited: Seq<bool>,
    u: int,
    p: Seq<int>,
    k: int,
)
    requires
        g.wf(),
        visited.len() == g.nodes@.len(),
        bfs_closed(g, visited, u),
        is_walk(g, p, u),
        0 <= p[0] < visited.len(),
        visited[p[0]],
        0 <= k < p.len(),
    ensures
        visited[p[k]],
    decreases k,
{
    if k > 0 {
        lemma_closed_walk_visited(g, visited, u, p, k - 1);
        assert(g.has_edge(p[k - 1], p[k]));
        let e = choose|e: int|
            #[trigger] g.edge_live(e) && g.edge_at(e).from as int == p[k - 1] && g.edge_at(
                e,
            ).to as int == p[k];
        assert(g.node_live(p[k]));
        assert(p[k] != u);
        assert(visited[p[k]]);
    }
}

/// A marked node was reached from some first hop out of `u`.
spec fn marked_ok(g: DepGraph, u: int, v: int, i: int) -> bool {
    exists|m: int|
        #[trigger] g.has_edge(u, m) && m != u && m != v && reach_avoiding(g, m, i, u)
}

/// Whether some route of at least two edges leads from `u` to `v`
/// without revisiting `u`: a breadth-style search over the marks.
#[verifier::rlimit(90)]
fn exists_transitive_path(graph: &DepGraph, u: usize, v: usize) -> (r: bool)
    requires
        graph.wf(),
        v < graph.nodes@.len(),
    ensures
        r == alt_path(*graph, u as int, v as int),
{
    let n = graph.nodes.len();
    let mut visited: Vec<bool> = vec![false; n];
    let mut stack: Vec<usize> = Vec::new();

    // mark every first hop out of `u` other than `u` and `v` themselves
    let mut e: usize = 0;
    while e < graph.edges.len()
        invariant
            graph.wf(),
            n == graph.nodes@.len(),
            v < n,
            visited@.len() == n,
            e <= graph.edges@.len(),
            forall|i: int|
                0 <= i < n && #[trigger] visited@[i] ==> marked_ok(*graph, u as int, v as int, i)
                    && i != u as int,
            forall|k: int|
                0 <= k < stack@.len() ==> (#[trigger] stack@[k]) < n && visited@[stack@[k] as int],
            forall|i: int|
                0 <= i < n && #[trigger] visited@[i] ==> queued(stack@, 0, i),
            forall|j: int|
                0 <= j < e && #[trigger] graph.edge_live(j) && graph.edge_at(j).from as int
                    == u as int && graph.edge_at(j).to as int != u as int && graph.edge_at(
                    j,
                ).to as int != v as int ==> visited@[graph.edge_at(j).to as int],
        decreases graph.edges@.len() - e,
    {
        let ghost vpre = visited@;
        let ghost spre = stack@;
        let hop = match &graph.edges[e] {
            Some(edge) => {
                if edge.from == u && edge.to != u && edge.to != v {
                    Some(edge.to)
                } else {
                    None
                }
            },
            None => None,
        };
        proof {
            match hop {
                Some(m) => {
                    assert(graph.edge_live(e as int));
                    assert(graph.edge_at(e as int).from as int == u as int);
                    assert(graph.edge_at(e as int).to == m);
                    assert(graph.node_live(m as int));
                    assert(graph.has_edge(u as int, m as int));
                },
                None => {
                    assert(!(graph.edge_live(e as int) && graph.edge_at(e as int).from as int
                        == u as int && graph.edge_at(e as int).to as int != u as int
                        && graph.edge_at(e as int).to as int != v as int));
                },
            }
        }
        match hop {
            Some(m) => {
                if !visited[m] {
                    visited[m] = true;
                    stack.push(m);
                    proof {
                        let ghost mi = m as int;
                        assert(reach_avoiding(*graph, mi, mi, u as int)) by {
                            let p = seq![mi];
                            assert(is_walk(*graph, p, u as int));
                            assert(p[0] == mi && p.last() == mi);
                        }
                        assert(marked_ok(*graph, u as int, v as int, mi));
                        assert(stack@[stack@.len() - 1] as int == mi);
                        assert forall|i: int|
                            0 <= i < n && #[trigger] visited@[i] implies queued(stack@, 0, i) by {
                            if i != mi {
                                assert(vpre[i]);
                                crate::prune::lemma_queued_extend(spre, stack@, 0, i);
                            } else {
                                assert(queued(stack@, 0, i));
                            }
                        }
                    }
                }
            },
            None => {},
        }
        e += 1;
    }

    // grow the marks to closure
    while stack.len() > 0
        invariant
            graph.wf(),
            n == graph.nodes@.len(),
            v < n,
            visited@.len() == n,
            forall|i: int|
                0 <= i < n && #[trigger] visited@[i] ==> marked_ok(*graph, u as int, v as int, i)
                    && i != u as int,
            forall|k: int|
                0 <= k < stack@.len() ==> (#[trigger] stack@[k]) < n && visited@[stack@[k] as int],
            forall|j: int|
                #[trigger] graph.edge_live(j) && graph.edge_at(j).from as int == u as int
                    && graph.edge_at(j).to as int != u as int && graph.edge_at(j).to as int
                    != v as int ==> visited@[graph.edge_at(j).to as int],
            forall|i: int|
                0 <= i < n && #[trigger] visited@[i] && !queued(stack@, 0, i) ==> (forall|j: int|
                    #[trigger] graph.edge_live(j) && graph.edge_at(j).from as int == i
                        && graph.edge_at(j).to as int != u as int ==> visited@[graph.edge_at(
                        j,
                    ).to as int]),
        decreases count_false(visited@, n as int), stack@.len(),
    {
        let x = stack[stack.len() - 1];
        let ghost spopped = stack@;
        stack.pop();
        let ghost s0 = stack@;
        let ghost v0 = visited@;
        let mut j: usize = 0;
        while j < graph.edges.len()
            invariant
                graph.wf(),
                n == graph.nodes@.len(),
                v < n,
                x < n,
                visited@.len() == n,
                j <= graph.edges@.len(),
                v0.len() == n,
                forall|i: int| 0 <= i < n && #[trigger] v0[i] ==> visited@[i],
                visited@[x as int],
                forall|i: int|
                    0 <= i < n && #[trigger] visited@[i] ==> marked_ok(
                        *graph,
                        u as int,
                        v as int,
                        i,
                    ) && i != u as int,
                forall|k: int|
                    0 <= k < stack@.len() ==> (#[trigger] stack@[k]) < n && visited@[stack@[k] as int],
                s0.len() <= stack@.len(),
                forall|k: int| 0 <= k < s0.len() ==> stack@[k] == s0[k],
                forall|k: int|
                    s0.len() <= k < stack@.len() ==> !v0[(#[trigger] stack@[k]) as int],
                forall|i: int|
                    0 <= i < n && #[trigger] visited@[i] && !v0[i] ==> queued(stack@, s0.len() as int, i),
                forall|jj: int|
                    #[trigger] graph.edge_live(jj) && graph.edge_at(jj).from as int == u as int
                        && graph.edge_at(jj).to as int != u as int && graph.edge_at(jj).to as int
                        != v as int ==> visited@[graph.edge_at(jj).to as int],
                forall|i: int|
                    0 <= i < n && #[trigger] v0[i] && !queued(spopped, 0, i) ==> (forall|jj: int|
                        #[trigger] graph.edge_live(jj) && graph.edge_at(jj).from as int == i
                            && graph.edge_at(jj).to as int != u as int ==> visited@[graph.edge_at(
                            jj,
                        ).to as int]),
                forall|jj: int|
                    0 <= jj < j && #[trigger] graph.edge_live(jj) && graph.edge_at(jj).from as int
                        == x as int && graph.edge_at(jj).to as int != u as int ==> visited@[graph.edge_at(
                        jj,
                    ).to as int],
            decreases graph.edges@.len() - j,
        {
            let ghost vmid = visited@;
            let ghost smid = stack@;
            let hop = match &graph.edges[j] {
                Some(edge) => {
                    if edge.from == x && edge.to != u {
                        Some(edge.to)
                    } else {
                        None
                    }
                },
                None => None,
            };
            proof {
                match hop {
                    Some(w) => {
                        assert(graph.edge_live(j as int));
                        assert(graph.edge_at(j as int).from as int == x as int);
                        assert(graph.edge_at(j as int).to == w);
                        assert(graph.node_live(w as int));
                        assert(graph.has_edge(x as int, w as int));
                    },
                    None => {
                        assert(!(graph.edge_live(j as int) && graph.edge_at(j as int).from as int
                            == x as int && graph.edge_at(j as int).to as int != u as int));
                    },
                }
            }
            match hop {
                Some(w) => {
                    if !visited[w] {
                        visited[w] = true;
                        stack.push(w);
                        proof {
                            let wi = w as int;
                            // the mark is justified: extend x's route by one hop
                            assert(marked_ok(*graph, u as int, v as int, x as int));
                            let m = choose|m: int|
                                #[trigger] graph.has_edge(u as int, m) && m != u as int && m
                                    != v as int && reach_avoiding(*graph, m, x as int, u as int);
                            lemma_reach_step(*graph, m, x as int, wi, u as int);
                            assert(marked_ok(*graph, u as int, v as int, wi));
                            assert(stack@[stack@.len() - 1] as int == wi);
                            assert forall|i: int|
                                0 <= i < n && #[trigger] visited@[i] && !v0[i] implies queued(
                                stack@,
                                s0.len() as int,
                                i,
                            ) by {
                                if i != wi {
                                    assert(vmid[i]);
                                    crate::prune::lemma_queued_extend(
                                        smid,
                                        stack@,
                                        s0.len() as int,
                                        i,
                                    );
                                } else {
                                    assert(queued(stack@, s0.len() as int, i));
                                }
                            }
                        }
                    }
                },
                None => {},
            }
            j += 1;
        }
        proof {
            // the popped node is now fully expanded; everyone else that
            // was closed stays closed, since marks only grow
            if !v0[x as int] {
                assert(queued(spopped, 0, x as int));
            }
            assert forall|i: int|
                0 <= i < n && #[trigger] visited@[i] && !queued(stack@, 0, i) implies (forall|
                jj: int,
            |
                #[trigger] graph.edge_live(jj) && graph.edge_at(jj).from as int == i
                    && graph.edge_at(jj).to as int != u as int ==> visited@[graph.edge_at(
                    jj,
                ).to as int]) by {
                if i != x as int {
                    if v0[i] {
                        if queued(spopped, 0, i) {
                            let k = choose|k: int|
                                0 <= k < spopped.len() && (#[trigger] spopped[k]) as int == i;
                            assert(k < spopped.len() - 1 || spopped[k] as int == x as int);
                            if k < spopped.len() - 1 {
                                assert(stack@[k] == s0[k]);
                                assert(s0[k] == spopped[k]);
                                assert(queued(stack@, 0, i));
                            }
                        }
                    } else {
                        assert(queued(stack@, s0.len() as int, i));
                        let k = choose|k: int|
                            s0.len() as int <= k < stack@.len() && (#[trigger] stack@[k]) as int
                                == i;
                        assert(queued(stack@, 0, i));
                    }
                }
            }
            // progress: either something fresh was marked, or the stack
            // shrank while the marks stayed put
            if visited@ != v0 {
                assert(count_false(visited@, n as int) < count_false(v0, n as int)) by {
                    lemma_count_marks_grow(v0, visited@, n as int);
                }
            } else {
                assert forall|k: int| s0.len() <= k < stack@.len() implies !(#[trigger] stack@[k]
                    < n) by {
                    assert(!v0[stack@[k] as int]);
                    assert(visited@[stack@[k] as int]);
                }
                if stack@.len() > s0.len() {
                    let k = s0.len() as int;
                    assert(!(stack@[k] < n));
                    assert(stack@[k] < n);
                }
                assert(stack@.len() == s0.len());
                assert(count_false(visited@, n as int) == count_false(v0, n as int));
            }
        }
    }

    let result = visited[v];
    proof {
        if result {
            assert(marked_ok(*graph, u as int, v as int, v as int));
            let m = choose|m: int|
                #[trigger] graph.has_edge(u as int, m) && m != u as int && m != v as int
                    && reach_avoiding(*graph, m, v as int, u as int);
            assert(alt_path(*graph, u as int, v as int));
        } else {
            if alt_path(*graph, u as int, v as int) {
                let m = choose|m: int|
                    #[trigger] graph.has_edge(u as int, m) && m != u as int && m != v as int
                        && reach_avoiding(*graph, m, v as int, u as int);
                let e2 = choose|e2: int|
                    #[trigger] graph.edge_live(e2) && graph.edge_at(e2).from as int == u as int
                        && graph.edge_at(e2).to as int == m;
                assert(visited@[m]);
                let p = choose|p: Seq<int>|
                    #[trigger] is_walk(*graph, p, u as int) && p[0] == m && p.last() == v as int;
                assert(graph.node_live(m));
                lemma_closed_walk_visited(*graph, visited@, u as int, p, p.len() - 1);
                assert(visited@[v as int]);
            }
        }
    }
    result
}

/// Strictly more marks mean strictly fewer unmarked slots.
proof fn lemma_count_marks_grow(v0: Seq<bool>, v1: Seq<bool>, n: int)
    requires
        v0.len() == v1.len(),
        0 <= n <= v0.len(),
        forall|i: int| 0 <= i < v0.len() && #[trigger] v0[i] ==> v1[i],
        v1 != v0,
        forall|i: int| 0 <= i < v0.len() && #[trigger] v1[i] && !v0[i] ==> 0 <= i < n,
    ensures
        count_false(v1, n) < count_false(v0, n),
    decreases n,
{
    assert(exists|i: int| 0 <= i < v0.len() && v1[i] != v0[i]) by {
        if forall|i: int| 0 <= i < v0.len() ==> #[trigger] v1[i] == v0[i] {
            assert(v1 =~= v0);
        }
    }
    let d = choose|i: int| 0 <= i < v0.len() && v1[i] != v0[i];
    assert(v1[d] && !v0[d]);
    lemma_count_le(v0, v1, n);
    lemma_count_lt_at(v0, v1, d, n);
}

/// Marks only growing never raises the unmarked count.
proof fn lemma_count_le(v0: Seq<bool>, v1: Seq<bool>, n: int)
    requires
        v0.len() == v1.len(),
        0 <= n <= v0.len(),
        forall|i: int| 0 <= i < v0.len() && #[trigger] v0[i] ==> v1[i],
    ensures
        count_false(v1, n) <= count_false(v0, n),
    decreases n,
{
    if n > 0 {
        lemma_count_le(v0, v1, n - 1);
    }
}

/// A slot marked in `v1` but not in `v0` makes the unmarked count
/// strictly smaller over any prefix containing it.
proof fn lemma_count_lt_at(v0: Seq<bool>, v1: Seq<bool>, d: int, n: int)
    requires
        v0.len() == v1.len(),
        0 <= d < n <= v0.len(),
        forall|i: int| 0 <= i < v0.len() && #[trigger] v0[i] ==> v1[i],
        v1[d] && !v0[d],
    ensures
        count_false(v1, n) < count_false(v0, n),
    decreases n,
{
    if d < n - 1 {
        lemma_count_lt_at(v0, v1, d, n - 1);
    } else {
        lemma_count_le(v0, v1, n - 1);
    }
}

/// What the dedup pass guarantees, relating the input graph `g0` to
/// the result `g`: nodes are untouched; an edge disappears only when a
/// longer route to its destination already existed; and no surviving
/// direct edge is shadowed by a longer route in the result.
pub open spec fn deduped(g0: DepGraph, g: DepGraph) -> bool {
    &&& g.wf()
    &&& g.nodes@ == g0.nodes@
    &&& g.edges@.len() == g0.edges@.len()
    &&& forall|e: int|
        #[trigger] g.edge_live(e) ==> g0.edge_live(e) && g.edge_at(e) == g0.edge_at(e)
    &&& forall|e: int|
        #[trigger] g0.edge_live(e) && !g.edge_live(e) ==> alt_path(
            g0,
            g0.edge_at(e).from as int,
            g0.edge_at(e).to as int,
        )
    &&& forall|e: int|
        #[trigger] g.edge_live(e) ==> !alt_path(g, g.edge_at(e).from as int, g.edge_at(e).to as int)
    &&& forall|a: int, b: int| #[trigger] connected(g0, a, b) ==> connected(g, a, b)
    &&& forall|a: int, b: int| #[trigger] connected(g, a, b) ==> connected(g0, a, b)
}

/// Remove every direct edge whose destination is also reachable by a
/// longer route. Each node's outgoing edges are examined once, against
/// the graph as it then stands; since removal only destroys routes,
/// no surviving edge is shadowed in the final graph either.
#[verifier::rlimit(60)]
pub fn dedup_transitive_deps(graph: &mut DepGraph)
    requires
        old(graph).wf(),
    ensures
        deduped(*old(graph), *final(graph)),
{
    let ghost g0 = *old(graph);
    let n = graph.nodes.len();
    let mut idx: usize = 0;
    while idx < n
        invariant
            g0 == *old(graph),
            g0.wf(),
            graph.wf(),
            n == g0.nodes@.len(),
            graph.nodes@ == g0.nodes@,
            graph.edges@.len() == g0.edges@.len(),
            idx <= n,
            forall|e: int|
                #[trigger] graph.edge_live(e) ==> g0.edge_live(e) && graph.edge_at(e)
                    == g0.edge_at(e),
            forall|e: int|
                #[trigger] g0.edge_live(e) && !graph.edge_live(e) ==> alt_path(
                    g0,
                    g0.edge_at(e).from as int,
                    g0.edge_at(e).to as int,
                ),
            forall|e: int|
                #[trigger] graph.edge_live(e) && graph.edge_at(e).from < idx ==> !alt_path(
                    *graph,
                    graph.edge_at(e).from as int,
                    graph.edge_at(e).to as int,
                ),
            forall|a: int, b: int| #[trigger] connected(g0, a, b) ==> connected(*graph, a, b),
        decreases n - idx,
    {
        let m = graph.edges.len();
        let mut ei: usize = 0;
        while ei < m
            invariant
                g0 == *old(graph),
                g0.wf(),
                graph.wf(),
                n == g0.nodes@.len(),
                graph.nodes@ == g0.nodes@,
                graph.edges@.len() == g0.edges@.len(),
                m == graph.edges@.len(),
                idx < n,
                ei <= m,
                forall|e: int|
                    #[trigger] graph.edge_live(e) ==> g0.edge_live(e) && graph.edge_at(e)
                        == g0.edge_at(e),
                forall|e: int|
                    #[trigger] g0.edge_live(e) && !graph.edge_live(e) ==> alt_path(
                        g0,
                        g0.edge_at(e).from as int,
                        g0.edge_at(e).to as int,
                    ),
                forall|e: int|
                    #[trigger] graph.edge_live(e) && (graph.edge_at(e).from < idx || (graph.edge_at(
                        e,
                    ).from == idx && e < ei)) ==> !alt_path(
                        *graph,
                        graph.edge_at(e).from as int,
                        graph.edge_at(e).to as int,
                    ),
                forall|a: int, b: int| #[trigger] connected(g0, a, b) ==> connected(*graph, a, b),
            decreases m - ei,
        {
            let target = match &graph.edges[ei] {
                Some(edge) => {
                    if edge.from == idx {
                        Some(edge.to)
                    } else {
                        None
                    }
                },
                None => None,
            };
            match target {
                Some(to) => {
                    proof {
                        assert(graph.edge_live(ei as int));
                        assert(graph.node_live(to as int));
                    }
                    if exists_transitive_path(graph, idx, to) {
                        let ghost gpre = *graph;
                        graph.remove_edge(ei);
                        proof {
                            assert forall|e2: int| #[trigger] graph.edge_live(e2) implies gpre.edge_live(
                                e2,
                            ) && graph.edge_at(e2) == gpre.edge_at(e2) by {
                                assert(graph.edges@[e2] == gpre.edges@[e2]);
                            }
                            // the removal is justified against the input graph
                            lemma_alt_path_monotone(gpre, g0, idx as int, to as int);
                            // the shadowing route keeps the endpoints —
                            // and with them every pair — connected
                            assert(gpre.edge_at(ei as int).from == idx);
                            assert(gpre.edge_at(ei as int).to == to);
                            assert(connected(*graph, idx as int, to as int)) by {
                                let mm = choose|mm: int|
                                    #[trigger] gpre.has_edge(idx as int, mm) && mm != idx as int
                                        && mm != to as int && reach_avoiding(
                                        gpre,
                                        mm,
                                        to as int,
                                        idx as int,
                                    );
                                let e2 = choose|e2: int|
                                    #[trigger] gpre.edge_live(e2) && gpre.edge_at(e2).from as int
                                        == idx as int && gpre.edge_at(e2).to as int == mm;
                                assert(e2 != ei as int);
                                assert(graph.edges@[e2] == gpre.edges@[e2]);
                                assert(graph.edge_live(e2));
                                assert(graph.has_edge(idx as int, mm));
                                lemma_connected_step(*graph, idx as int, mm);
                                let pw = choose|pw: Seq<int>|
                                    #[trigger] is_walk(gpre, pw, idx as int) && pw[0] == mm
                                        && pw.last() == to as int;
                                lemma_avoid_walk_connected(
                                    gpre,
                                    *graph,
                                    ei as int,
                                    pw,
                                    mm,
                                    to as int,
                                    idx as int,
                                );
                                lemma_connected_trans(*graph, idx as int, mm, to as int);
                            }
                            assert forall|a: int, b: int|
                                #[trigger] connected(g0, a, b) implies connected(
                                *graph,
                                a,
                                b,
                            ) by {
                                assert(connected(gpre, a, b));
                                let pp = choose|pp: Seq<int>| #[trigger] reaches(gpre, pp, a, b);
                                lemma_removal_keeps_connected(
                                    gpre,
                                    *graph,
                                    ei as int,
                                    pp,
                                    a,
                                    b,
                                );
                            }
                            // earlier no-route verdicts survive the removal
                            assert forall|e2: int|
                                #[trigger] graph.edge_live(e2) && (graph.edge_at(e2).from < idx || (
                                graph.edge_at(e2).from == idx && e2 < ei + 1)) implies !alt_path(
                                *graph,
                                graph.edge_at(e2).from as int,
                                graph.edge_at(e2).to as int,
                            ) by {
                                assert(e2 != ei);
                                assert(gpre.edge_live(e2));
                                if alt_path(
                                    *graph,
                                    graph.edge_at(e2).from as int,
                                    graph.edge_at(e2).to as int,
                                ) {
                                    lemma_alt_path_monotone(
                                        *graph,
                                        gpre,
                                        graph.edge_at(e2).from as int,
                                        graph.edge_at(e2).to as int,
                                    );
                                }
                            }
                        }
                    } else {
                        proof {
                            assert(!alt_path(*graph, idx as int, to as int));
                        }
                    }
                },
                None => {
                    proof {
                        assert(!(graph.edge_live(ei as int) && graph.edge_at(ei as int).from as int
                            == idx as int));
                    }
                },
            }
            ei += 1;
        }
        idx += 1;
        proof {
            assert forall|e: int|
                #[trigger] graph.edge_live(e) && graph.edge_at(e).from < idx implies !alt_path(
                *graph,
                graph.edge_at(e).from as int,
                graph.edge_at(e).to as int,
            ) by {
                assert(e < m);
            }
        }
    }
    proof {
        assert forall|e: int| #[trigger] graph.edge_live(e) implies !alt_path(
            *graph,
            graph.edge_at(e).from as int,
            graph.edge_at(e).to as int,
        ) by {
            assert(graph.node_live(graph.edge_at(e).from as int));
            assert(graph.edge_at(e).from < idx);
        }
        assert forall|a: int, b: int| #[trigger] connected(*graph, a, b) implies connected(
            g0,
            a,
            b,
        ) by {
            lemma_connected_monotone(*graph, g0, a, b);
        }
    }
}


/// `p` records a walk from `a` to `b` along live edges of `g`.
pub open spec fn reaches(g: DepGraph, p: Seq<int>, a: int, b: int) -> bool {
    &&& p.len() >= 1
    &&& p[0] == a
    &&& p.last() == b
    &&& forall|i: int| 0 <= i < p.len() - 1 ==> g.has_edge(#[trigger] p[i], p[i + 1])
}

/// `b` can be reached from `a` along live edges, the trivial walk
/// included.
pub open spec fn connected(g: DepGraph, a: int, b: int) -> bool {
    exists|p: Seq<int>| #[trigger] reaches(g, p, a, b)
}

proof fn lemma_connected_refl(g: DepGraph, a: int)
    ensures
        connected(g, a, a),
{
    let p = seq![a];
    assert(reaches(g, p, a, a));
}

proof fn lemma_connected_step(g: DepGraph, a: int, b: int)
    requires
        g.has_edge(a, b),
    ensures
        connected(g, a, b),
{
    let p = seq![a, b];
    assert(p[0] == a && p.last() == b);
    assert forall|i: int| 0 <= i < p.len() - 1 implies g.has_edge(#[trigger] p[i], p[i + 1]) by {
        assert(p[0] == a && p[1] == b);
    }
    assert(reaches(g, p, a, b));
}

proof fn lemma_connected_trans(g: DepGraph, a: int, b: int, c: int)
    requires
        connected(g, a, b),
        connected(g, b, c),
    ensures
        connected(g, a, c),
{
    let p1 = choose|p: Seq<int>| #[trigger] reaches(g, p, a, b);
    let p2 = choose|p: Seq<int>| #[trigger] reaches(g, p, b, c);
    if p2.len() == 1 {
        assert(b == c);
        assert(reaches(g, p1, a, c));
    } else {
        let p = p1 + p2.subrange(1, p2.len() as int);
        assert(p.len() == p1.len() + p2.len() - 1);
        assert(p[0] == p1[0]);
        assert(p.last() == p2.last());
        assert forall|i: int| 0 <= i < p.len() - 1 implies g.has_edge(
            #[trigger] p[i],
            p[i + 1],
        ) by {
            if i < p1.len() - 1 {
                assert(p[i] == p1[i] && p[i + 1] == p1[i + 1]);
                assert(g.has_edge(p1[i], p1[i + 1]));
            } else if i == p1.len() - 1 {
                assert(p[i] == p1[p1.len() - 1]);
                assert(p[i + 1] == p2[1]);
                assert(g.has_edge(p2[0], p2[1]));
            } else {
                assert(p[i] == p2[i - p1.len() + 1]);
                assert(p[i + 1] == p2[i - p1.len() + 2]);
                assert(g.has_edge(p2[i - p1.len() + 1], p2[i - p1.len() + 2]));
            }
        }
        assert(reaches(g, p, a, c));
    }
}

/// Connectivity survives in any graph that still carries all of `g1`'s
/// edges.
proof fn lemma_connected_monotone(g1: DepGraph, g2: DepGraph, a: int, b: int)
    requires
        forall|e: int|
            #[trigger] g1.edge_live(e) ==> g2.edge_live(e) && g1.edge_at(e) == g2.edge_at(e),
        connected(g1, a, b),
    ensures
        connected(g2, a, b),
{
    let p = choose|p: Seq<int>| #[trigger] reaches(g1, p, a, b);
    assert forall|i: int| 0 <= i < p.len() - 1 implies g2.has_edge(#[trigger] p[i], p[i + 1]) by {
        assert(g1.has_edge(p[i], p[i + 1]));
        let e = choose|e: int|
            #[trigger] g1.edge_live(e) && g1.edge_at(e).from as int == p[i] && g1.edge_at(
                e,
            ).to as int == p[i + 1];
        assert(g2.edge_live(e));
    }
    assert(reaches(g2, p, a, b));
}

/// A walk that never leaves `avoid` survives the removal of an edge
/// whose source is `avoid`.
proof fn lemma_avoid_walk_connected(
    gpre: DepGraph,
    gnew: DepGraph,
    eidx: int,
    pwalk: Seq<int>,
    m: int,
    v: int,
    avoid: int,
)
    requires
        0 <= eidx < gpre.edges@.len(),
        gpre.edge_live(eidx),
        gpre.edge_at(eidx).from as int == avoid,
        gnew.edges@ == gpre.edges@.update(eidx, None::<crate::graph::Edge>),
        is_walk(gpre, pwalk, avoid),
        pwalk[0] == m,
        pwalk.last() == v,
    ensures
        connected(gnew, m, v),
{
    assert forall|i: int| 0 <= i < pwalk.len() - 1 implies gnew.has_edge(
        #[trigger] pwalk[i],
        pwalk[i + 1],
    ) by {
        assert(gpre.has_edge(pwalk[i], pwalk[i + 1]));
        let e2 = choose|e2: int|
            #[trigger] gpre.edge_live(e2) && gpre.edge_at(e2).from as int == pwalk[i]
                && gpre.edge_at(e2).to as int == pwalk[i + 1];
        assert(pwalk[i] != avoid);
        assert(e2 != eidx);
        assert(gnew.edges@[e2] == gpre.edges@[e2]);
        assert(gnew.edge_live(e2));
    }
    assert(reaches(gnew, pwalk, m, v));
}

/// Removing one edge keeps every connection, provided its endpoints
/// stay connected without it.
proof fn lemma_removal_keeps_connected(
    gpre: DepGraph,
    gnew: DepGraph,
    eidx: int,
    p: Seq<int>,
    a: int,
    b: int,
)
    requires
        0 <= eidx < gpre.edges@.len(),
        gpre.edge_live(eidx),
        gnew.edges@ == gpre.edges@.update(eidx, None::<crate::graph::Edge>),
        connected(gnew, gpre.edge_at(eidx).from as int, gpre.edge_at(eidx).to as int),
        reaches(gpre, p, a, b),
    ensures
        connected(gnew, a, b),
    decreases p.len(),
{
    if p.len() == 1 {
        assert(a == b);
        lemma_connected_refl(gnew, a);
    } else {
        let rest = p.subrange(1, p.len() as int);
        assert(rest[0] == p[1]);
        assert(rest.last() == b);
        assert forall|i: int| 0 <= i < rest.len() - 1 implies gpre.has_edge(
            #[trigger] rest[i],
            rest[i + 1],
        ) by {
            assert(rest[i] == p[i + 1] && rest[i + 1] == p[i + 2]);
            assert(gpre.has_edge(p[i + 1], p[i + 2]));
        }
        assert(reaches(gpre, rest, p[1], b));
        lemma_removal_keeps_connected(gpre, gnew, eidx, rest, p[1], b);
        assert(gpre.has_edge(p[0], p[1]));
        let e2 = choose|e2: int|
            #[trigger] gpre.edge_live(e2) && gpre.edge_at(e2).from as int == p[0] && gpre.edge_at(
                e2,
            ).to as int == p[1];
        if e2 != eidx {
            assert(gnew.edges@[e2] == gpre.edges@[e2]);
            assert(gnew.edge_live(e2));
            assert(gnew.has_edge(a, p[1]));
            lemma_connected_step(gnew, a, p[1]);
        } else {
            assert(a == gpre.edge_at(eidx).from as int);
            assert(p[1] == gpre.edge_at(eidx).to as int);
        }
        lemma_connected_trans(gnew, a, p[1], b);
    }
}

} // verus!
