//! Graph reduction: two dual queue-driven sweeps.
//!
//! The focus sweep prunes leaves that are irrelevant to a focus set;
//! the hide sweep prunes explicitly hidden packages and whatever they
//! orphan. Both are monotonic — a removed node is never re-added — and
//! their survivors do not depend on the queue order.

use vstd::prelude::*;

use crate::graph::DepGraph;
use crate::util::{contains_name, name_in};

verus! {

/// Slot `i` still waits in the queue `q` at or after position `h`.
pub open spec fn queued(q: Seq<usize>, h: int, i: int) -> bool {
    exists|k: int| h <= k < q.len() && (#[trigger] q[k]) as int == i
}

/// `p` records a cycle of `g`: consecutive entries joined by live
/// edges, returning to its start.
pub open spec fn is_cycle(g: DepGraph, p: Seq<int>) -> bool {
    &&& p.len() >= 2
    &&& p[0] == p.last()
    &&& forall|i: int| 0 <= i < p.len() - 1 ==> g.has_edge(#[trigger] p[i], p[i + 1])
}

/// A slot waiting in a queue tail still waits after entries are
/// appended.
pub(crate) proof fn lemma_queued_extend(q1: Seq<usize>, q2: Seq<usize>, h: int, i: int)
    requires
        0 <= h,
        queued(q1, h, i),
        q1.len() <= q2.len(),
        forall|k: int| 0 <= k < q1.len() ==> q2[k] == q1[k],
    ensures
        queued(q2, h, i),
{
    let k = choose|k: int| h <= k < q1.len() && (#[trigger] q1[k]) as int == i;
    assert(q2[k] == q1[k]);
    assert((q2[k]) as int == i);
}

/// What the focus sweep guarantees, relating the input graph `g0` to
/// the result `g`: survivors are unchanged, edges die only with an
/// endpoint, focused packages always survive, a removed node drags all
/// its former dependencies' relevance with it (so anything that could
/// reach a focused package survives), and no surviving node is an
/// unfocused leaf.
pub open spec fn irrelevant_pruned(g0: DepGraph, g: DepGraph, focus: Seq<String>) -> bool {
    &&& g.wf()
    &&& g.sub_shape_of(g0)
    &&& g.keeps_edges_between_survivors(g0)
    &&& forall|i: int|
        #[trigger] g0.node_live(i) && name_in(focus, g0.node_at(i).name@) ==> g.node_live(i)
    &&& forall|e: int|
        #[trigger] g0.edge_live(e) && !g.node_live(g0.edge_at(e).from as int) ==> !g.node_live(
            g0.edge_at(e).to as int,
        )
    &&& forall|i: int|
        #[trigger] g.node_live(i) ==> name_in(focus, g.node_at(i).name@) || g.has_out_edge(i)
    &&& forall|p: Seq<int>, i: int|
        #![trigger is_cycle(g0, p), g.node_live(p[i])]
        is_cycle(g0, p) && (forall|j: int|
            0 <= j < p.len() ==> g0.node_live(#[trigger] p[j])) && 0 <= i < p.len()
            ==> g.node_live(p[i])
}

/// The focus sweep's standing relation: the final guarantees, except
/// that a pending unfocused leaf may still sit in the queue tail.
spec fn focus_inv(g0: DepGraph, g: DepGraph, focus: Seq<String>, q: Seq<usize>, h: int) -> bool {
    &&& g.wf()
    &&& g.sub_shape_of(g0)
    &&& g.keeps_edges_between_survivors(g0)
    &&& forall|i: int|
        #[trigger] g0.node_live(i) && name_in(focus, g0.node_at(i).name@) ==> g.node_live(i)
    &&& forall|e: int|
        #[trigger] g0.edge_live(e) && !g.node_live(g0.edge_at(e).from as int) ==> !g.node_live(
            g0.edge_at(e).to as int,
        )
    &&& forall|i: int|
        #[trigger] g.node_live(i) && !name_in(focus, g.node_at(i).name@) && !g.has_out_edge(i)
            ==> queued(q, h, i)
    &&& forall|p: Seq<int>, i: int|
        #![trigger is_cycle(g0, p), g.node_live(p[i])]
        is_cycle(g0, p) && (forall|j: int|
            0 <= j < p.len() ==> g0.node_live(#[trigger] p[j])) && 0 <= i < p.len()
            ==> g.node_live(p[i])
}

/// Passing over a queue entry that is no unfocused leaf keeps the
/// standing relation.
proof fn lemma_focus_skip(g0: DepGraph, g: DepGraph, focus: Seq<String>, q: Seq<usize>, h: int)
    requires
        focus_inv(g0, g, focus, q, h),
        0 <= h < q.len(),
        !(g.node_live(q[h] as int) && !name_in(focus, g.node_at(q[h] as int).name@)
            && !g.has_out_edge(q[h] as int)),
    ensures
        focus_inv(g0, g, focus, q, h + 1),
{
    assert forall|i: int|
        #[trigger] g.node_live(i) && !name_in(focus, g.node_at(i).name@) && !g.has_out_edge(
        i,
    ) implies queued(q, h + 1, i) by {
        assert(queued(q, h, i));
        let k = choose|k: int| h <= k < q.len() && (#[trigger] q[k]) as int == i;
        assert(k != h);
    }
}

/// Removing the unfocused leaf at the queue head — after enqueuing all
/// its former dependents — re-establishes the standing relation.
#[verifier::rlimit(60)]
proof fn lemma_focus_remove(
    g0: DepGraph,
    gpre: DepGraph,
    gnew: DepGraph,
    focus: Seq<String>,
    qpre: Seq<usize>,
    qnew: Seq<usize>,
    h: int,
    idx: int,
)
    requires
        g0.wf(),
        gnew.wf(),
        focus_inv(g0, gpre, focus, qpre, h),
        0 <= h < qpre.len(),
        qpre[h] as int == idx,
        gpre.node_live(idx),
        !name_in(focus, gpre.node_at(idx).name@),
        !gpre.has_out_edge(idx),
        gnew.nodes@ == gpre.nodes@.update(idx, None::<crate::package::Package>),
        gnew.edges@.len() == gpre.edges@.len(),
        forall|e: int|
            0 <= e < gpre.edges@.len() ==> (#[trigger] gnew.edges@[e]) == (if gpre.edge_live(e)
                && (gpre.edge_at(e).from as int == idx || gpre.edge_at(e).to as int == idx) {
                None::<crate::graph::Edge>
            } else {
                gpre.edges@[e]
            }),
        qpre.len() <= qnew.len(),
        forall|k: int| 0 <= k < qpre.len() ==> qnew[k] == qpre[k],
        forall|e: int|
            #[trigger] gpre.edge_live(e) && gpre.edge_at(e).to as int == idx ==> queued(
                qnew,
                h + 1,
                gpre.edge_at(e).from as int,
            ),
    ensures
        focus_inv(g0, gnew, focus, qnew, h + 1),
{
    assert forall|i: int| #[trigger] gnew.node_live(i) implies gpre.node_live(i) && gnew.node_at(i)
        == gpre.node_at(i) by {
        assert(i != idx);
    }
    assert forall|e: int| #[trigger] gnew.edge_live(e) implies gpre.edge_live(e) && gnew.edge_at(e)
        == gpre.edge_at(e) by {
        assert(gnew.edges@[e] == gpre.edges@[e]);
    }
    assert(gnew.sub_shape_of(g0));

    assert forall|e: int|
        #[trigger] g0.edge_live(e) && gnew.node_live(g0.edge_at(e).from as int) && gnew.node_live(
        g0.edge_at(e).to as int,
    ) implies gnew.edge_live(e) by {
        assert(gpre.edge_live(e));
        assert(g0.edge_at(e).from as int != idx && g0.edge_at(e).to as int != idx);
        assert(gpre.edge_at(e) == g0.edge_at(e));
        assert(gnew.edges@[e] == gpre.edges@[e]);
    }

    assert forall|i: int|
        #[trigger] g0.node_live(i) && name_in(focus, g0.node_at(i).name@) implies gnew.node_live(
        i,
    ) by {
        assert(gpre.node_live(i));
        assert(gpre.node_at(i) == g0.node_at(i));
        assert(i != idx);
    }

    // a node that just died passes its irrelevance on to its targets
    assert forall|e: int|
        #[trigger] g0.edge_live(e) && !gnew.node_live(g0.edge_at(e).from as int) implies !gnew.node_live(
        g0.edge_at(e).to as int,
    ) by {
        let u = g0.edge_at(e).from as int;
        let v = g0.edge_at(e).to as int;
        if u == idx {
            // the leaf had no live outgoing edge left, so this edge was
            // already gone, and with `u` alive that means `v` was gone
            if gpre.edge_live(e) {
                assert(gpre.edge_at(e) == g0.edge_at(e));
                assert(gpre.has_out_edge(u));
            }
            assert(!(gpre.node_live(u) && gpre.node_live(v)));
            assert(!gpre.node_live(v));
            assert(v != idx);
        } else {
            if !gpre.node_live(u) {
                assert(!gpre.node_live(v));
                assert(v != idx);
            }
        }
    }

    // a cycle of the input graph never loses a node: a node on one is
    // never a leaf, since its cycle successor is still alive
    assert forall|p2: Seq<int>, i2: int|
        is_cycle(g0, p2) && (forall|j: int|
            0 <= j < p2.len() ==> g0.node_live(#[trigger] p2[j])) && 0 <= i2
            < p2.len() implies gnew.node_live(#[trigger] p2[i2]) by {
        assert(gpre.node_live(p2[i2]));
        assert forall|i3: int| 0 <= i3 < p2.len() - 1 implies p2[i3] != idx by {
            if p2[i3] == idx {
                assert(g0.has_edge(p2[i3], p2[i3 + 1]));
                let e = choose|e: int|
                    #[trigger] g0.edge_live(e) && g0.edge_at(e).from as int == p2[i3]
                        && g0.edge_at(e).to as int == p2[i3 + 1];
                assert(gpre.node_live(p2[i3]));
                assert(gpre.node_live(p2[i3 + 1]));
                assert(gpre.edge_live(e));
                assert(gpre.has_out_edge(idx));
            }
        }
        if i2 == p2.len() - 1 {
            assert(p2[i2] == p2[0]);
        }
        assert(p2[i2] != idx);
        assert(gnew.nodes@[p2[i2]] == gpre.nodes@[p2[i2]]);
    }

    // every pending unfocused leaf still waits in the queue tail
    assert forall|i: int|
        #[trigger] gnew.node_live(i) && !name_in(focus, gnew.node_at(i).name@)
            && !gnew.has_out_edge(i) implies queued(qnew, h + 1, i) by {
        assert(i != idx);
        assert(gpre.node_live(i));
        assert(gnew.node_at(i) == gpre.node_at(i));
        if gpre.has_out_edge(i) {
            // it just became a leaf: its last live edge pointed at `idx`
            let e = choose|e: int|
                #[trigger] gpre.edge_live(e) && gpre.edge_at(e).from as int == i;
            if gpre.edge_at(e).to as int == idx {
                assert(queued(qnew, h + 1, i));
            } else {
                assert(gnew.edges@[e] == gpre.edges@[e]);
                assert(gnew.edge_live(e));
                assert(gnew.has_out_edge(i));
            }
        } else {
            assert(queued(qpre, h, i));
            let k = choose|k: int| h <= k < qpre.len() && (#[trigger] qpre[k]) as int == i;
            assert(k != h);
            assert(qnew[k] == qpre[k]);
            assert(queued(qnew, h + 1, i));
        }
    }
}

/// Prune irrelevant leaves: repeatedly remove any package that has no
/// outgoing edges and is not named in `focus`, exposing new leaves as
/// removal proceeds. Anything with a path to a focused package
/// survives untouched; focused packages themselves always survive; no
/// surviving package is an unfocused leaf.
pub fn remove_irrelevant_deps(graph: &mut DepGraph, focus: &Vec<String>)
    requires
        old(graph).wf(),
    ensures
        irrelevant_pruned(*old(graph), *final(graph), focus@),
{
    let ghost g0 = *old(graph);
    let n = graph.nodes.len();

    // seed the queue with every current leaf
    let mut queue: Vec<usize> = Vec::new();
    let mut i: usize = 0;
    while i < n
        invariant
            g0 == *old(graph),
            *graph == g0,
            n == g0.nodes@.len(),
            i <= n,
            forall|k: int| 0 <= k < queue@.len() ==> (#[trigger] queue@[k]) < n,
            forall|j: int|
                0 <= j < i && #[trigger] graph.node_live(j) && !graph.has_out_edge(j) ==> queued(
                    queue@,
                    0,
                    j,
                ),
        decreases n - i,
    {
        let ghost qpre = queue@;
        let live = match &graph.nodes[i] {
            Some(_) => true,
            None => false,
        };
        if live && !graph.has_outgoing(i) {
            queue.push(i);
        }
        proof {
            assert forall|j: int|
                0 <= j < i + 1 && #[trigger] graph.node_live(j) && !graph.has_out_edge(
                j,
            ) implies queued(queue@, 0, j) by {
                if j < i {
                    assert(queued(qpre, 0, j));
                    let k = choose|k: int| 0 <= k < qpre.len() && (#[trigger] qpre[k]) as int == j;
                    assert(queue@[k] == qpre[k]);
                } else {
                    assert(queue@[queue@.len() - 1] as int == j);
                }
            }
        }
        i += 1;
    }

    // drain the queue
    let mut head: usize = 0;
    while head < queue.len()
        invariant
            g0 == *old(graph),
            g0.wf(),
            n == g0.nodes@.len(),
            head <= queue@.len(),
            forall|k: int| 0 <= k < queue@.len() ==> (#[trigger] queue@[k]) < n,
            focus_inv(g0, *graph, focus@, queue@, head as int),
        decreases graph.live_node_count(), queue@.len() - head,
    {
        let idx = queue[head];
        let ghost qpre = queue@;
        let ghost hpre = head as int;
        let ghost gpre = *graph;
        head += 1;
        let live = match &graph.nodes[idx] {
            Some(_) => true,
            None => false,
        };
        let mut removable = false;
        if live {
            let focused = match &graph.nodes[idx] {
                Some(p) => contains_name(focus, &p.name),
                None => false,
            };
            if !focused && !graph.has_outgoing(idx) {
                removable = true;
            }
        }
        if removable {
            // first hand the leaf's former dependents to the queue,
            // then actually remove it
            let mut e: usize = 0;
            while e < graph.edges.len()
                invariant
                    *graph == gpre,
                    e <= graph.edges@.len(),
                    idx < n,
                    n == g0.nodes@.len(),
                    graph.nodes@.len() == n,
                    graph.wf(),
                    0 <= hpre < qpre.len(),
                    qpre.len() <= queue@.len(),
                    forall|k: int| 0 <= k < qpre.len() ==> queue@[k] == qpre[k],
                    forall|k: int| 0 <= k < queue@.len() ==> (#[trigger] queue@[k]) < n,
                    forall|j: int|
                        0 <= j < e && #[trigger] graph.edge_live(j) && graph.edge_at(j).to as int
                            == idx as int ==> queued(queue@, hpre + 1, graph.edge_at(j).from as int),
                decreases graph.edges@.len() - e,
            {
                let ghost qmid = queue@;
                let push = match &graph.edges[e] {
                    Some(edge) => {
                        if edge.to == idx {
                            Some(edge.from)
                        } else {
                            None
                        }
                    },
                    None => None,
                };
                proof {
                    match push {
                        Some(src) => {
                            assert(graph.edge_live(e as int));
                            assert(graph.edge_at(e as int).to as int == idx as int);
                            assert(graph.edge_at(e as int).from == src);
                            assert(graph.node_live(src as int));
                        },
                        None => {
                            assert(!(graph.edge_live(e as int) && graph.edge_at(
                                e as int,
                            ).to as int == idx as int));
                        },
                    }
                }
                match push {
                    Some(src) => {
                        queue.push(src);
                        proof {
                            assert(queue@ == qmid.push(src));
                            assert forall|k: int| 0 <= k < qmid.len() implies queue@[k] == qmid[k] by {
                                assert(queue@[k] == qmid.push(src)[k]);
                            }
                        }
                    },
                    None => {},
                }
                proof {
                    assert forall|j: int|
                        0 <= j < e + 1 && #[trigger] graph.edge_live(j) && graph.edge_at(
                        j,
                    ).to as int == idx as int implies queued(
                        queue@,
                        hpre + 1,
                        graph.edge_at(j).from as int,
                    ) by {
                        if j < e {
                            assert(queued(qmid, hpre + 1, graph.edge_at(j).from as int));
                            lemma_queued_extend(
                                qmid,
                                queue@,
                                hpre + 1,
                                graph.edge_at(j).from as int,
                            );
                        } else {
                            assert(push is Some);
                            assert(queue@[queue@.len() - 1] as int == graph.edge_at(
                                j,
                            ).from as int);
                            assert(queued(queue@, hpre + 1, graph.edge_at(j).from as int));
                        }
                    }
                }
                e += 1;
            }
            proof {
                crate::graph::lemma_live_count_pos(gpre.nodes@, idx as int, gpre.nodes@.len() as int);
                crate::graph::lemma_live_count_remove(
                    gpre.nodes@,
                    idx as int,
                    gpre.nodes@.len() as int,
                );
            }
            graph.remove_node(idx);
            proof {
                lemma_focus_remove(
                    g0,
                    gpre,
                    *graph,
                    focus@,
                    qpre,
                    queue@,
                    hpre,
                    idx as int,
                );
            }
        } else {
            proof {
                lemma_focus_skip(g0, *graph, focus@, queue@, hpre);
            }
        }
    }
}

/// What the hide sweep guarantees, relating the input graph `g0` to
/// the result `g`: survivors are unchanged, edges die only with an
/// endpoint, every hidden package is gone, workspace roots are never
/// removed unless hidden themselves, an unhidden non-root dies only
/// after all its dependents have died, and every survivor is unhidden
/// and still wanted — it has a dependent, or is a root.
pub open spec fn named_pruned(g0: DepGraph, g: DepGraph, hide: Seq<String>) -> bool {
    &&& g.wf()
    &&& g.sub_shape_of(g0)
    &&& g.keeps_edges_between_survivors(g0)
    &&& forall|i: int|
        #[trigger] g0.node_live(i) && name_in(hide, g0.node_at(i).name@) ==> !g.node_live(i)
    &&& forall|i: int|
        #[trigger] g0.node_live(i) && g0.node_at(i).is_ws_member && !name_in(
            hide,
            g0.node_at(i).name@,
        ) ==> g.node_live(i)
    &&& forall|e: int|
        #[trigger] g0.edge_live(e) && !g.node_live(g0.edge_at(e).to as int) && !name_in(
            hide,
            g0.node_at(g0.edge_at(e).to as int).name@,
        ) && !g0.node_at(g0.edge_at(e).to as int).is_ws_member ==> !g.node_live(
            g0.edge_at(e).from as int,
        )
    &&& forall|i: int|
        #[trigger] g.node_live(i) ==> !name_in(hide, g.node_at(i).name@) && (g.has_in_edge(i)
            || g.node_at(i).is_ws_member)
    &&& forall|p: Seq<int>, i: int|
        #![trigger is_cycle(g0, p), g.node_live(p[i])]
        is_cycle(g0, p) && (forall|j: int|
            0 <= j < p.len() ==> g0.node_live(#[trigger] p[j])) && (forall|j: int|
            0 <= j < p.len() ==> !name_in(hide, g0.node_at(#[trigger] p[j]).name@)) && 0 <= i
            < p.len() ==> g.node_live(p[i])
}

/// Whether node `i` of `g` currently earns its place: it is not hidden,
/// and it has a dependent or is a workspace root.
spec fn kept(g: DepGraph, hide: Seq<String>, i: int) -> bool {
    !name_in(hide, g.node_at(i).name@) && (g.has_in_edge(i) || g.node_at(i).is_ws_member)
}

/// The hide sweep's standing relation: the final guarantees, except
/// that a node that does not earn its place may still wait in the
/// queue tail.
spec fn named_inv(g0: DepGraph, g: DepGraph, hide: Seq<String>, q: Seq<usize>, h: int) -> bool {
    &&& g.wf()
    &&& g.sub_shape_of(g0)
    &&& g.keeps_edges_between_survivors(g0)
    &&& forall|i: int|
        #[trigger] g0.node_live(i) && g0.node_at(i).is_ws_member && !name_in(
            hide,
            g0.node_at(i).name@,
        ) ==> g.node_live(i)
    &&& forall|e: int|
        #[trigger] g0.edge_live(e) && !g.node_live(g0.edge_at(e).to as int) && !name_in(
            hide,
            g0.node_at(g0.edge_at(e).to as int).name@,
        ) && !g0.node_at(g0.edge_at(e).to as int).is_ws_member ==> !g.node_live(
            g0.edge_at(e).from as int,
        )
    &&& forall|i: int| #[trigger] g.node_live(i) && !kept(g, hide, i) ==> queued(q, h, i)
    &&& forall|p: Seq<int>, i: int|
        #![trigger is_cycle(g0, p), g.node_live(p[i])]
        is_cycle(g0, p) && (forall|j: int|
            0 <= j < p.len() ==> g0.node_live(#[trigger] p[j])) && (forall|j: int|
            0 <= j < p.len() ==> !name_in(hide, g0.node_at(#[trigger] p[j]).name@)) && 0 <= i
            < p.len() ==> g.node_live(p[i])
}

/// Passing over a queue entry that earns its place (or is already gone)
/// keeps the standing relation.
proof fn lemma_named_skip(g0: DepGraph, g: DepGraph, hide: Seq<String>, q: Seq<usize>, h: int)
    requires
        named_inv(g0, g, hide, q, h),
        0 <= h < q.len(),
        !(g.node_live(q[h] as int) && !kept(g, hide, q[h] as int)),
    ensures
        named_inv(g0, g, hide, q, h + 1),
{
    assert forall|i: int| #[trigger] g.node_live(i) && !kept(g, hide, i) implies queued(
        q,
        h + 1,
        i,
    ) by {
        assert(queued(q, h, i));
        let k = choose|k: int| h <= k < q.len() && (#[trigger] q[k]) as int == i;
        assert(k != h);
    }
}

/// Removing the unwanted node at the queue head — after enqueuing all
/// its former dependencies — re-establishes the standing relation.
#[verifier::rlimit(60)]
proof fn lemma_named_remove(
    g0: DepGraph,
    gpre: DepGraph,
    gnew: DepGraph,
    hide: Seq<String>,
    qpre: Seq<usize>,
    qnew: Seq<usize>,
    h: int,
    idx: int,
)
    requires
        g0.wf(),
        gnew.wf(),
        named_inv(g0, gpre, hide, qpre, h),
        0 <= h < qpre.len(),
        qpre[h] as int == idx,
        gpre.node_live(idx),
        !kept(gpre, hide, idx),
        gnew.nodes@ == gpre.nodes@.update(idx, None::<crate::package::Package>),
        gnew.edges@.len() == gpre.edges@.len(),
        forall|e: int|
            0 <= e < gpre.edges@.len() ==> (#[trigger] gnew.edges@[e]) == (if gpre.edge_live(e)
                && (gpre.edge_at(e).from as int == idx || gpre.edge_at(e).to as int == idx) {
                None::<crate::graph::Edge>
            } else {
                gpre.edges@[e]
            }),
        qpre.len() <= qnew.len(),
        forall|k: int| 0 <= k < qpre.len() ==> qnew[k] == qpre[k],
        forall|e: int|
            #[trigger] gpre.edge_live(e) && gpre.edge_at(e).from as int == idx ==> queued(
                qnew,
                h + 1,
                gpre.edge_at(e).to as int,
            ),
    ensures
        named_inv(g0, gnew, hide, qnew, h + 1),
{
    assert forall|i: int| #[trigger] gnew.node_live(i) implies gpre.node_live(i) && gnew.node_at(i)
        == gpre.node_at(i) by {
        assert(i != idx);
    }
    assert forall|e: int| #[trigger] gnew.edge_live(e) implies gpre.edge_live(e) && gnew.edge_at(e)
        == gpre.edge_at(e) by {
        assert(gnew.edges@[e] == gpre.edges@[e]);
    }
    assert(gnew.sub_shape_of(g0));

    assert forall|e: int|
        #[trigger] g0.edge_live(e) && gnew.node_live(g0.edge_at(e).from as int) && gnew.node_live(
        g0.edge_at(e).to as int,
    ) implies gnew.edge_live(e) by {
        assert(gpre.edge_live(e));
        assert(g0.edge_at(e).from as int != idx && g0.edge_at(e).to as int != idx);
        assert(gpre.edge_at(e) == g0.edge_at(e));
        assert(gnew.edges@[e] == gpre.edges@[e]);
    }

    // unhidden workspace roots are never the node being removed
    assert forall|i: int|
        #[trigger] g0.node_live(i) && g0.node_at(i).is_ws_member && !name_in(
        hide,
        g0.node_at(i).name@,
    ) implies gnew.node_live(i) by {
        assert(gpre.node_live(i));
        assert(gpre.node_at(i) == g0.node_at(i));
        if i == idx {
            assert(!name_in(hide, gpre.node_at(idx).name@));
            assert(gpre.node_at(idx).is_ws_member);
            assert(kept(gpre, hide, idx));
        }
    }

    // an unhidden non-root dies only after all its dependents
    assert forall|e: int|
        #[trigger] g0.edge_live(e) && !gnew.node_live(g0.edge_at(e).to as int) && !name_in(
        hide,
        g0.node_at(g0.edge_at(e).to as int).name@,
    ) && !g0.node_at(g0.edge_at(e).to as int).is_ws_member implies !gnew.node_live(
        g0.edge_at(e).from as int,
    ) by {
        let u = g0.edge_at(e).from as int;
        let m = g0.edge_at(e).to as int;
        if m == idx {
            assert(gpre.node_at(idx) == g0.node_at(idx));
            assert(!name_in(hide, gpre.node_at(idx).name@));
            assert(!gpre.node_at(idx).is_ws_member);
            // so idx was removed for having no dependent left
            assert(!gpre.has_in_edge(idx));
            if gpre.edge_live(e) {
                assert(gpre.edge_at(e) == g0.edge_at(e));
                assert(gpre.has_in_edge(idx));
            }
            assert(!(gpre.node_live(u) && gpre.node_live(m)));
            assert(!gpre.node_live(u));
            assert(u != idx);
        } else {
            if !gpre.node_live(m) {
                assert(!gpre.node_live(u));
                assert(u != idx);
            }
        }
    }

    // an unhidden cycle of the input graph never loses a node: a node
    // on one always keeps the incoming edge from its cycle predecessor
    assert forall|p2: Seq<int>, i2: int|
        is_cycle(g0, p2) && (forall|j: int|
            0 <= j < p2.len() ==> g0.node_live(#[trigger] p2[j])) && (forall|j: int|
            0 <= j < p2.len() ==> !name_in(hide, g0.node_at(#[trigger] p2[j]).name@)) && 0 <= i2
            < p2.len() implies gnew.node_live(#[trigger] p2[i2]) by {
        assert(gpre.node_live(p2[i2]));
        assert forall|i3: int| 0 < i3 < p2.len() implies p2[i3] != idx by {
            if p2[i3] == idx {
                assert(g0.has_edge(p2[i3 - 1], p2[i3]));
                let e = choose|e: int|
                    #[trigger] g0.edge_live(e) && g0.edge_at(e).from as int == p2[i3 - 1]
                        && g0.edge_at(e).to as int == p2[i3];
                assert(gpre.node_live(p2[i3 - 1]));
                assert(gpre.node_live(p2[i3]));
                assert(gpre.edge_live(e));
                assert(gpre.has_in_edge(idx));
                assert(gpre.node_at(idx) == g0.node_at(idx));
                assert(!name_in(hide, gpre.node_at(idx).name@));
                assert(kept(gpre, hide, idx));
            }
        }
        if i2 == 0 {
            assert(p2[i2] == p2[p2.len() - 1]);
            assert(p2[p2.len() - 1] != idx);
        }
        assert(p2[i2] != idx);
        assert(gnew.nodes@[p2[i2]] == gpre.nodes@[p2[i2]]);
    }

    // every node that no longer earns its place waits in the queue tail
    assert forall|i: int| #[trigger] gnew.node_live(i) && !kept(gnew, hide, i) implies queued(
        qnew,
        h + 1,
        i,
    ) by {
        assert(i != idx);
        assert(gpre.node_live(i));
        assert(gnew.node_at(i) == gpre.node_at(i));
        if kept(gpre, hide, i) {
            // it could only have lost its last dependent, which was `idx`
            assert(!name_in(hide, gpre.node_at(i).name@));
            assert(gpre.has_in_edge(i) || gpre.node_at(i).is_ws_member);
            assert(!(gnew.has_in_edge(i) || gnew.node_at(i).is_ws_member));
            assert(gpre.has_in_edge(i));
            let e = choose|e: int|
                #[trigger] gpre.edge_live(e) && gpre.edge_at(e).to as int == i;
            if gpre.edge_at(e).from as int == idx {
                assert(queued(qnew, h + 1, i));
            } else {
                assert(gnew.edges@[e] == gpre.edges@[e]);
                assert(gnew.edge_live(e));
                assert(gnew.has_in_edge(i));
            }
        } else {
            assert(queued(qpre, h, i));
            let k = choose|k: int| h <= k < qpre.len() && (#[trigger] qpre[k]) as int == i;
            assert(k != h);
            assert(qnew[k] == qpre[k]);
            assert(queued(qnew, h + 1, i));
        }
    }
}

/// Prune hidden packages and whatever they orphan: repeatedly remove
/// any package that is named in `hide`, or that has lost every
/// dependent and is no workspace root. Hidden packages are all gone
/// afterwards; unhidden workspace roots always survive; every survivor
/// is unhidden and has a dependent or is a root.
pub fn remove_deps(graph: &mut DepGraph, hide: &Vec<String>)
    requires
        old(graph).wf(),
    ensures
        named_pruned(*old(graph), *final(graph), hide@),
{
    let ghost g0 = *old(graph);
    let n = graph.nodes.len();

    // seed the queue with every node
    let mut queue: Vec<usize> = Vec::new();
    let mut i: usize = 0;
    while i < n
        invariant
            g0 == *old(graph),
            *graph == g0,
            n == g0.nodes@.len(),
            i <= n,
            queue@.len() == i,
            forall|k: int| 0 <= k < queue@.len() ==> (#[trigger] queue@[k]) as int == k,
        decreases n - i,
    {
        queue.push(i);
        i += 1;
    }
    proof {
        assert forall|k: int| 0 <= k < queue@.len() implies (#[trigger] queue@[k]) < n by {}
        assert forall|i2: int| #[trigger] graph.node_live(i2) && !kept(*graph, hide@, i2) implies queued(
            queue@,
            0,
            i2,
        ) by {
            assert(queue@[i2] as int == i2);
        }
    }

    // drain the queue
    let mut head: usize = 0;
    while head < queue.len()
        invariant
            g0 == *old(graph),
            g0.wf(),
            n == g0.nodes@.len(),
            head <= queue@.len(),
            forall|k: int| 0 <= k < queue@.len() ==> (#[trigger] queue@[k]) < n,
            named_inv(g0, *graph, hide@, queue@, head as int),
        decreases graph.live_node_count(), queue@.len() - head,
    {
        let idx = queue[head];
        let ghost qpre = queue@;
        let ghost hpre = head as int;
        let ghost gpre = *graph;
        head += 1;
        let live = match &graph.nodes[idx] {
            Some(_) => true,
            None => false,
        };
        let mut removable = false;
        if live {
            let hidden = match &graph.nodes[idx] {
                Some(p) => contains_name(hide, &p.name),
                None => false,
            };
            if hidden {
                removable = true;
            } else if !graph.has_incoming(idx) {
                let ws = match &graph.nodes[idx] {
                    Some(p) => p.is_ws_member,
                    None => false,
                };
                if !ws {
                    removable = true;
                }
            }
        }
        if removable {
            // first hand the node's former dependencies to the queue,
            // then actually remove it
            let mut e: usize = 0;
            while e < graph.edges.len()
                invariant
                    *graph == gpre,
                    e <= graph.edges@.len(),
                    idx < n,
                    n == g0.nodes@.len(),
                    graph.nodes@.len() == n,
                    graph.wf(),
                    0 <= hpre < qpre.len(),
                    qpre.len() <= queue@.len(),
                    forall|k: int| 0 <= k < qpre.len() ==> queue@[k] == qpre[k],
                    forall|k: int| 0 <= k < queue@.len() ==> (#[trigger] queue@[k]) < n,
                    forall|j: int|
                        0 <= j < e && #[trigger] graph.edge_live(j) && graph.edge_at(
                            j,
                        ).from as int == idx as int ==> queued(
                            queue@,
                            hpre + 1,
                            graph.edge_at(j).to as int,
                        ),
                decreases graph.edges@.len() - e,
            {
                let ghost qmid = queue@;
                let push = match &graph.edges[e] {
                    Some(edge) => {
                        if edge.from == idx {
                            Some(edge.to)
                        } else {
                            None
                        }
                    },
                    None => None,
                };
                proof {
                    match push {
                        Some(dst) => {
                            assert(graph.edge_live(e as int));
                            assert(graph.edge_at(e as int).from as int == idx as int);
                            assert(graph.edge_at(e as int).to == dst);
                            assert(graph.node_live(dst as int));
                        },
                        None => {
                            assert(!(graph.edge_live(e as int) && graph.edge_at(
                                e as int,
                            ).from as int == idx as int));
                        },
                    }
                }
                match push {
                    Some(dst) => {
                        queue.push(dst);
                        proof {
                            assert(queue@ == qmid.push(dst));
                            assert forall|k: int| 0 <= k < qmid.len() implies queue@[k] == qmid[k] by {
                                assert(queue@[k] == qmid.push(dst)[k]);
                            }
                        }
                    },
                    None => {},
                }
                proof {
                    assert forall|j: int|
                        0 <= j < e + 1 && #[trigger] graph.edge_live(j) && graph.edge_at(
                        j,
                    ).from as int == idx as int implies queued(
                        queue@,
                        hpre + 1,
                        graph.edge_at(j).to as int,
                    ) by {
                        if j < e {
                            assert(queued(qmid, hpre + 1, graph.edge_at(j).to as int));
                            lemma_queued_extend(qmid, queue@, hpre + 1, graph.edge_at(j).to as int);
                        } else {
                            assert(push is Some);
                            assert(queue@[queue@.len() - 1] as int == graph.edge_at(j).to as int);
                            assert(queued(queue@, hpre + 1, graph.edge_at(j).to as int));
                        }
                    }
                }
                e += 1;
            }
            proof {
                assert(!kept(gpre, hide@, idx as int));
                crate::graph::lemma_live_count_pos(gpre.nodes@, idx as int, gpre.nodes@.len() as int);
                crate::graph::lemma_live_count_remove(
                    gpre.nodes@,
                    idx as int,
                    gpre.nodes@.len() as int,
                );
            }
            graph.remove_node(idx);
            proof {
                lemma_named_remove(g0, gpre, *graph, hide@, qpre, queue@, hpre, idx as int);
            }
        } else {
            proof {
                lemma_named_skip(g0, *graph, hide@, queue@, hpre);
            }
        }
    }
}

/// `p` records a walk from `a` to `b` along live edges of `g`.
pub open spec fn walk_to(g: DepGraph, p: Seq<int>, a: int, b: int) -> bool {
    &&& p.len() >= 1
    &&& p[0] == a
    &&& p.last() == b
    &&& forall|i: int| 0 <= i < p.len() - 1 ==> g.has_edge(#[trigger] p[i], p[i + 1])
}

/// Law: the focus sweep never severs relevance. Whatever could reach a
/// focused package in the input graph survives the sweep, however the
/// removal order fell out.
pub proof fn lemma_focus_keeps_reachers(
    g0: DepGraph,
    g: DepGraph,
    focus: Seq<String>,
    p: Seq<int>,
    a: int,
    b: int,
)
    requires
        irrelevant_pruned(g0, g, focus),
        walk_to(g0, p, a, b),
        g0.node_live(b),
        name_in(focus, g0.node_at(b).name@),
    ensures
        g.node_live(a),
    decreases p.len(),
{
    if p.len() == 1 {
        assert(a == b);
        assert(g.node_live(b));
    } else {
        let q = p.subrange(1, p.len() as int);
        assert(q[0] == p[1]);
        assert(q.last() == b);
        assert forall|i: int| 0 <= i < q.len() - 1 implies g0.has_edge(
            #[trigger] q[i],
            q[i + 1],
        ) by {
            assert(q[i] == p[i + 1] && q[i + 1] == p[i + 2]);
            assert(g0.has_edge(p[i + 1], p[i + 2]));
        }
        assert(walk_to(g0, q, p[1], b));
        lemma_focus_keeps_reachers(g0, g, focus, q, p[1], b);
        assert(g0.has_edge(a, p[1]));
        let e = choose|e: int|
            #[trigger] g0.edge_live(e) && g0.edge_at(e).from as int == a && g0.edge_at(
                e,
            ).to as int == p[1];
        if !g.node_live(a) {
            assert(!g.node_live(g0.edge_at(e).to as int));
        }
    }
}

} // verus!
