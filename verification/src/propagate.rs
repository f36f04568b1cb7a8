//! The propagation engine.
//!
//! Assigns every non-root node a classification equal to the merge of
//! the outgoing-updated classification of every incoming edge, and
//! rewrites every outgoing edge in terms of its source's resolved
//! classification — one consistent fixpoint. Instead of recursing, the
//! engine keeps an explicit set of pending nodes and repeatedly settles
//! a node all of whose incoming edges come from settled nodes.

use vstd::prelude::*;

use crate::dep_info::DepInfo;
use crate::error::Error;
use crate::graph::DepGraph;
use crate::package::Package;
use crate::util::{count_false, lemma_count_false_pos, lemma_count_false_update};

verus! {

/// `ei` marked visited, otherwise untouched.
pub open spec fn spec_mark_visited(ei: DepInfo) -> DepInfo {
    DepInfo { visited: true, ..ei }
}

/// How a settled source node's classification `ni` rewrites one of its
/// outgoing edges `ei`: the kind is re-expressed in the consumer's frame,
/// the platform and optionality flags are inherited, and the edge is
/// marked visited.
pub open spec fn spec_update_edge(ei: DepInfo, ni: DepInfo) -> DepInfo {
    DepInfo {
        kind: ei.kind.spec_update_outgoing(ni.kind),
        is_target_dep: ei.is_target_dep || ni.is_target_dep,
        is_optional: ei.is_optional || ni.is_optional,
        is_optional_direct: ei.is_optional_direct,
        visited: true,
    }
}

/// How one more incoming edge `ei` merges into an accumulated node
/// record `acc`: kinds merge by `combine_incoming`, the platform and
/// optionality flags only stay when every incoming edge carries them.
pub open spec fn spec_combine_info(acc: DepInfo, ei: DepInfo) -> DepInfo {
    DepInfo {
        kind: acc.kind.spec_combine_incoming(ei.kind),
        is_target_dep: acc.is_target_dep && ei.is_target_dep,
        is_optional: acc.is_optional && ei.is_optional,
        is_optional_direct: acc.is_optional_direct,
        visited: acc.visited,
    }
}

/// Left fold of `spec_combine_info` over the records of the live edges
/// into `n` among the first `upto` edge slots; `None` when there are
/// none. The first incoming edge seeds the accumulator.
pub open spec fn incoming_fold(g: DepGraph, n: int, upto: int) -> Option<DepInfo>
    decreases upto,
{
    if upto <= 0 {
        None
    } else {
        let prev = incoming_fold(g, n, upto - 1);
        if g.edge_live(upto - 1) && g.edge_at(upto - 1).to as int == n {
            match prev {
                None => Some(g.edge_at(upto - 1).info),
                Some(acc) => Some(spec_combine_info(acc, g.edge_at(upto - 1).info)),
            }
        } else {
            prev
        }
    }
}

/// The merged record of all live edges into `n`.
pub open spec fn incoming_combined(g: DepGraph, n: int) -> Option<DepInfo> {
    incoming_fold(g, n, g.edges@.len() as int)
}

/// Two packages that differ at most in their classification record.
pub open spec fn same_pkg_identity(p: crate::package::Package, q: crate::package::Package) -> bool {
    &&& p.id == q.id
    &&& p.name == q.name
    &&& p.version == q.version
    &&& p.is_ws_member == q.is_ws_member
    &&& p.is_proc_macro == q.is_proc_macro
    &&& p.name_uses == q.name_uses
}

/// `b` is `a` with the same slots, the same liveness, the same topology
/// and the same package identities: only classification records of nodes
/// and edges may differ.
pub open spec fn same_structure(a: DepGraph, b: DepGraph) -> bool {
    &&& b.nodes@.len() == a.nodes@.len()
    &&& b.edges@.len() == a.edges@.len()
    &&& forall|i: int| #[trigger] b.node_live(i) <==> a.node_live(i)
    &&& forall|i: int|
        #[trigger] a.node_live(i) ==> same_pkg_identity(b.node_at(i), a.node_at(i))
    &&& forall|e: int| #[trigger] b.edge_live(e) <==> a.edge_live(e)
    &&& forall|e: int|
        #[trigger] a.edge_live(e) ==> b.edge_at(e).from == a.edge_at(e).from && b.edge_at(e).to
            == a.edge_at(e).to
}

/// The record an edge `e` of the input graph `g0` must carry once its
/// source has been settled in the current graph `g`: an edge that was
/// already visited on entry is left alone; an edge out of a workspace
/// root keeps its constructed record and is merely marked visited, since
/// a root edge's parent classification is definitionally its own
/// declared kind; any other edge is rewritten against its source's
/// resolved classification.
pub open spec fn expected_edge(g0: DepGraph, g: DepGraph, e: int) -> DepInfo {
    let ei = g0.edge_at(e).info;
    let src = g0.edge_at(e).from as int;
    if ei.visited {
        ei
    } else if g0.node_at(src).is_ws_member {
        spec_mark_visited(ei)
    } else {
        spec_update_edge(ei, g.node_at(src).dep_info)
    }
}

/// What one successful propagation run guarantees, relating the input
/// graph `g0` to the result `g`.
pub open spec fn propagated(g0: DepGraph, g: DepGraph) -> bool {
    &&& same_structure(g0, g)
    &&& forall|e: int| #[trigger] g.edge_live(e) ==> g.edge_at(e).info.visited
    &&& forall|e: int| #[trigger] g0.edge_live(e) ==> g.edge_at(e).info == expected_edge(g0, g, e)
    &&& forall|i: int|
        #[trigger] g0.node_live(i) && g0.node_at(i).is_ws_member ==> g.node_at(i).dep_info == g0.node_at(
            i,
        ).dep_info
    &&& forall|i: int|
        #[trigger] g.node_live(i) && !g.node_at(i).is_ws_member ==> incoming_combined(g, i) == Some(
            g.node_at(i).dep_info,
        )
}

/// A graph on which propagation has already converged: every live edge
/// has been visited, and every non-root node carries exactly the merge
/// of its incoming edges.
pub open spec fn resolved(g: DepGraph) -> bool {
    &&& forall|e: int| #[trigger] g.edge_live(e) ==> g.edge_at(e).info.visited
    &&& forall|i: int|
        #[trigger] g.node_live(i) && !g.node_at(i).is_ws_member ==> incoming_combined(g, i) == Some(
            g.node_at(i).dep_info,
        )
}

/// Node `n` can be settled within `k` rounds: roots immediately, any
/// other node once all sources of its incoming edges can be — and it has
/// at least one incoming edge to take a classification from.
pub open spec fn grounded_k(g: DepGraph, n: int, k: nat) -> bool
    decreases k,
{
    g.node_live(n) && (if g.node_at(n).is_ws_member {
        true
    } else {
        k > 0 && g.has_in_edge(n) && forall|e: int|
            #[trigger] g.edge_live(e) && g.edge_at(e).to as int == n ==> grounded_k(
                g,
                g.edge_at(e).from as int,
                (k - 1) as nat,
            )
    })
}

/// Node `n`'s incoming-edge chains ground out in workspace roots.
pub open spec fn grounded(g: DepGraph, n: int) -> bool {
    exists|k: nat| grounded_k(g, n, k)
}

/// Being settleable within `k1` rounds implies settleable within any
/// larger bound.
pub proof fn lemma_grounded_mono(g: DepGraph, n: int, k1: nat, k2: nat)
    requires
        grounded_k(g, n, k1),
        k1 <= k2,
    ensures
        grounded_k(g, n, k2),
    decreases k1,
{
    if !g.node_at(n).is_ws_member {
        assert forall|e: int| #[trigger] g.edge_live(e) && g.edge_at(e).to as int == n implies grounded_k(
            g,
            g.edge_at(e).from as int,
            (k2 - 1) as nat,
        ) by {
            lemma_grounded_mono(g, g.edge_at(e).from as int, (k1 - 1) as nat, (k2 - 1) as nat);
        }
    }
}

/// A live non-root node with no incoming edge at all can never be
/// grounded.
pub proof fn lemma_no_incoming_ungrounded(g: DepGraph, n: int)
    requires
        g.node_live(n),
        !g.node_at(n).is_ws_member,
        !g.has_in_edge(n),
    ensures
        !grounded(g, n),
{
    assert forall|k: nat| !grounded_k(g, n, k) by {}
}

/// Two graphs whose edges into `n` agree (among the first `upto` slots)
/// merge to the same record.
pub proof fn lemma_incoming_fold_stable(g1: DepGraph, g2: DepGraph, n: int, upto: int)
    requires
        forall|e: int|
            0 <= e < upto ==> (#[trigger] g1.edge_live(e) <==> g2.edge_live(e)),
        forall|e: int|
            0 <= e < upto && #[trigger] g1.edge_live(e) && g1.edge_at(e).to as int == n
                ==> g1.edge_at(e) == g2.edge_at(e),
        forall|e: int|
            0 <= e < upto && #[trigger] g1.edge_live(e) ==> g1.edge_at(e).to == g2.edge_at(e).to,
    ensures
        incoming_fold(g1, n, upto) == incoming_fold(g2, n, upto),
    decreases upto,
{
    if upto > 0 {
        lemma_incoming_fold_stable(g1, g2, n, upto - 1);
        if g1.edge_live(upto - 1) {
            assert(g2.edge_live(upto - 1));
            assert(g1.edge_at(upto - 1).to == g2.edge_at(upto - 1).to);
            if g1.edge_at(upto - 1).to as int == n {
                assert(g1.edge_at(upto - 1) == g2.edge_at(upto - 1));
            }
        } else {
            assert(!g2.edge_live(upto - 1));
        }
    }
}

/// Merge the records of all live edges into node `i`, in edge-slot
/// order; `None` when the node has no incoming edge.
fn combine_incoming_infos(graph: &DepGraph, i: usize) -> (r: Option<DepInfo>)
    ensures
        r == incoming_combined(*graph, i as int),
        r is None <==> !graph.has_in_edge(i as int),
{
    let mut acc: Option<DepInfo> = None;
    let mut e: usize = 0;
    while e < graph.edges.len()
        invariant
            0 <= e <= graph.edges@.len(),
            acc == incoming_fold(*graph, i as int, e as int),
            acc is None ==> forall|j: int|
                0 <= j < e ==> !(#[trigger] graph.edge_live(j) && graph.edge_at(j).to as int
                    == i as int),
        decreases graph.edges@.len() - e,
    {
        match &graph.edges[e] {
            Some(edge) => {
                if edge.to == i {
                    proof {
                        assert(graph.edge_live(e as int));
                    }
                    acc = match acc {
                        None => Some(edge.info),
                        Some(a) => {
                            let mut k = a.kind;
                            k.combine_incoming(edge.info.kind);
                            Some(
                                DepInfo {
                                    kind: k,
                                    is_target_dep: a.is_target_dep && edge.info.is_target_dep,
                                    is_optional: a.is_optional && edge.info.is_optional,
                                    is_optional_direct: a.is_optional_direct,
                                    visited: a.visited,
                                },
                            )
                        },
                    };
                }
            },
            None => {},
        }
        e += 1;
    }
    proof {
        if acc is Some {
            // the accumulator came from some incoming edge
            lemma_fold_some_has_in_edge(*graph, i as int, graph.edges@.len() as int);
        }
    }
    acc
}

/// A non-`None` fold means some live edge into `n` exists among the
/// first `upto` slots.
proof fn lemma_fold_some_has_in_edge(g: DepGraph, n: int, upto: int)
    requires
        0 <= upto <= g.edges@.len(),
        incoming_fold(g, n, upto) is Some,
    ensures
        g.has_in_edge(n),
    decreases upto,
{
    if upto > 0 {
        if g.edge_live(upto - 1) && g.edge_at(upto - 1).to as int == n {
            assert(g.has_in_edge(n));
        } else {
            lemma_fold_some_has_in_edge(g, n, upto - 1);
        }
    }
}

/// Mark every not-yet-visited live edge out of root node `i` as visited,
/// leaving its record otherwise untouched.
fn mark_outgoing_visited(graph: &mut DepGraph, i: usize)
    requires
        old(graph).wf(),
        old(graph).node_live(i as int),
    ensures
        final(graph).wf(),
        final(graph).nodes@ == old(graph).nodes@,
        final(graph).edges@.len() == old(graph).edges@.len(),
        forall|e: int|
            0 <= e < old(graph).edges@.len() ==> (#[trigger] final(graph).edges@[e]) == (if old(
                graph,
            ).edge_live(e) && old(graph).edge_at(e).from == i && !old(graph).edge_at(
                e,
            ).info.visited {
                Some(
                    crate::graph::with_info(
                        old(graph).edge_at(e),
                        spec_mark_visited(old(graph).edge_at(e).info),
                    ),
                )
            } else {
                old(graph).edges@[e]
            }),
{
    let mut e: usize = 0;
    while e < graph.edges.len()
        invariant
            0 <= e <= graph.edges@.len(),
            graph.wf(),
            graph.nodes@ == old(graph).nodes@,
            graph.edges@.len() == old(graph).edges@.len(),
            forall|j: int|
                0 <= j < e ==> (#[trigger] graph.edges@[j]) == (if old(graph).edge_live(j) && old(
                    graph,
                ).edge_at(j).from == i && !old(graph).edge_at(j).info.visited {
                    Some(
                        crate::graph::with_info(
                            old(graph).edge_at(j),
                            spec_mark_visited(old(graph).edge_at(j).info),
                        ),
                    )
                } else {
                    old(graph).edges@[j]
                }),
            forall|j: int|
                e <= j < graph.edges@.len() ==> (#[trigger] graph.edges@[j]) == old(graph).edges@[j],
        decreases graph.edges@.len() - e,
    {
        let update = match &graph.edges[e] {
            Some(edge) => {
                if edge.from == i && !edge.info.visited {
                    Some(
                        DepInfo {
                            kind: edge.info.kind,
                            is_target_dep: edge.info.is_target_dep,
                            is_optional: edge.info.is_optional,
                            is_optional_direct: edge.info.is_optional_direct,
                            visited: true,
                        },
                    )
                } else {
                    None
                }
            },
            None => None,
        };
        proof {
            assert(graph.edges@[e as int] == old(graph).edges@[e as int]);
        }
        match update {
            Some(info) => {
                proof {
                    assert(graph.edge_live(e as int));
                }
                graph.set_edge_info(e, info);
            },
            None => {},
        }
        e += 1;
    }
}

/// Rewrite every not-yet-visited live edge out of node `i` against the
/// node's just-assigned record `ni`.
fn update_outgoing_edges(graph: &mut DepGraph, i: usize, ni: DepInfo)
    requires
        old(graph).wf(),
        old(graph).node_live(i as int),
    ensures
        final(graph).wf(),
        final(graph).nodes@ == old(graph).nodes@,
        final(graph).edges@.len() == old(graph).edges@.len(),
        forall|e: int|
            0 <= e < old(graph).edges@.len() ==> (#[trigger] final(graph).edges@[e]) == (if old(
                graph,
            ).edge_live(e) && old(graph).edge_at(e).from == i && !old(graph).edge_at(
                e,
            ).info.visited {
                Some(
                    crate::graph::with_info(
                        old(graph).edge_at(e),
                        spec_update_edge(old(graph).edge_at(e).info, ni),
                    ),
                )
            } else {
                old(graph).edges@[e]
            }),
{
    let mut e: usize = 0;
    while e < graph.edges.len()
        invariant
            0 <= e <= graph.edges@.len(),
            graph.wf(),
            graph.nodes@ == old(graph).nodes@,
            graph.edges@.len() == old(graph).edges@.len(),
            forall|j: int|
                0 <= j < e ==> (#[trigger] graph.edges@[j]) == (if old(graph).edge_live(j) && old(
                    graph,
                ).edge_at(j).from == i && !old(graph).edge_at(j).info.visited {
                    Some(
                        crate::graph::with_info(
                            old(graph).edge_at(j),
                            spec_update_edge(old(graph).edge_at(j).info, ni),
                        ),
                    )
                } else {
                    old(graph).edges@[j]
                }),
            forall|j: int|
                e <= j < graph.edges@.len() ==> (#[trigger] graph.edges@[j]) == old(graph).edges@[j],
        decreases graph.edges@.len() - e,
    {
        let update = match &graph.edges[e] {
            Some(edge) => {
                if edge.from == i && !edge.info.visited {
                    let mut k = edge.info.kind;
                    k.update_outgoing(ni.kind);
                    Some(
                        DepInfo {
                            kind: k,
                            is_target_dep: edge.info.is_target_dep || ni.is_target_dep,
                            is_optional: edge.info.is_optional || ni.is_optional,
                            is_optional_direct: edge.info.is_optional_direct,
                            visited: true,
                        },
                    )
                } else {
                    None
                }
            },
            None => None,
        };
        proof {
            assert(graph.edges@[e as int] == old(graph).edges@[e as int]);
        }
        match update {
            Some(info) => {
                proof {
                    assert(graph.edge_live(e as int));
                }
                graph.set_edge_info(e, info);
            },
            None => {},
        }
        e += 1;
    }
}

/// Whether every live edge into node `i` comes from a slot already
/// marked in `done`.
pub open spec fn spec_ready(g: DepGraph, done: Seq<bool>, i: int) -> bool {
    forall|e: int|
        #[trigger] g.edge_live(e) && g.edge_at(e).to as int == i ==> done[g.edge_at(e).from as int]
}

/// The standing relation between the input graph `g0`, the working
/// graph `g`, and the set `done` of settled node slots: dead slots and
/// workspace roots count as settled from the start; a settled node's
/// outgoing edges carry their final records while everything else is
/// still as it came in; and every settled non-root already carries the
/// merge of its (final) incoming edges.
pub open spec fn phase_inv(g0: DepGraph, g: DepGraph, done: Seq<bool>) -> bool {
    &&& g.wf()
    &&& same_structure(g0, g)
    &&& done.len() == g0.nodes@.len()
    &&& forall|i: int| 0 <= i < done.len() && !g0.node_live(i) ==> #[trigger] done[i]
    &&& forall|i: int|
        #[trigger] g0.node_live(i) && g0.node_at(i).is_ws_member ==> done[i]
    &&& forall|i: int|
        #[trigger] g0.node_live(i) && done[i] && !g0.node_at(i).is_ws_member ==> g0.has_in_edge(i)
    &&& forall|i: int|
        #[trigger] g0.node_live(i) && !done[i] ==> g.node_at(i).dep_info == g0.node_at(i).dep_info
    &&& forall|i: int|
        #[trigger] g0.node_live(i) && g0.node_at(i).is_ws_member ==> g.node_at(i).dep_info
            == g0.node_at(i).dep_info
    &&& forall|e: int|
        #[trigger] g0.edge_live(e) && done[g0.edge_at(e).from as int] ==> g.edge_at(e).info
            == expected_edge(g0, g, e) && g.edge_at(e).info.visited
    &&& forall|e: int|
        #[trigger] g0.edge_live(e) && !done[g0.edge_at(e).from as int] ==> g.edge_at(e).info
            == g0.edge_at(e).info
    &&& forall|i: int|
        #[trigger] g0.node_live(i) && done[i] && !g0.node_at(i).is_ws_member ==> (forall|e: int|
            #[trigger] g0.edge_live(e) && g0.edge_at(e).to as int == i ==> done[g0.edge_at(
                e,
            ).from as int]) && incoming_combined(g, i) == Some(g.node_at(i).dep_info)
}

/// While the engine is stuck — every pending node has an incoming edge
/// from a pending node — no pending node is grounded, whatever the
/// fuel.
proof fn lemma_stuck_ungrounded(g0: DepGraph, g: DepGraph, done: Seq<bool>, i: int, k: nat)
    requires
        g.wf(),
        same_structure(g0, g),
        done.len() == g0.nodes@.len(),
        forall|j: int| 0 <= j < done.len() && !g0.node_live(j) ==> #[trigger] done[j],
        forall|j: int|
            #[trigger] g0.node_live(j) && g0.node_at(j).is_ws_member ==> done[j],
        forall|j: int|
            0 <= j < done.len() && !(#[trigger] done[j]) ==> !spec_ready(g, done, j),
        0 <= i < done.len(),
        !done[i],
    ensures
        !grounded_k(g0, i, k),
    decreases k,
{
    assert(g0.node_live(i));
    assert(!g0.node_at(i).is_ws_member);
    assert(!spec_ready(g, done, i));
    let e = choose|e: int|
        #[trigger] g.edge_live(e) && g.edge_at(e).to as int == i && !done[g.edge_at(e).from as int];
    let src = g.edge_at(e).from as int;
    assert(g.node_live(src));
    assert(g0.node_live(src));
    assert(g0.edge_live(e));
    assert(g0.edge_at(e).from as int == src && g0.edge_at(e).to as int == i);
    if k > 0 {
        lemma_stuck_ungrounded(g0, g, done, src, (k - 1) as nat);
        if grounded_k(g0, i, k) {
            assert(grounded_k(g0, src, (k - 1) as nat));
        }
    }
}

/// Settling one ready pending node `f` — assigning it the merge `info`
/// of its incoming edges and rewriting its outgoing edges — re-.
/// establishes the standing relation with `f` marked settled.
#[verifier::rlimit(60)]
proof fn lemma_settle_ok(
    g0: DepGraph,
    g_a: DepGraph,
    g_b: DepGraph,
    g_c: DepGraph,
    d0: Seq<bool>,
    f: int,
    info: DepInfo,
)
    requires
        phase_inv(g0, g_a, d0),
        0 <= f < d0.len(),
        !d0[f],
        spec_ready(g_a, d0, f),
        incoming_combined(g_a, f) == Some(info),
        g_a.has_in_edge(f),
        g_b.nodes@ == g_a.nodes@.update(f, Some(Package { dep_info: info, ..g_a.node_at(f) })),
        g_b.edges@ == g_a.edges@,
        g_c.wf(),
        g_c.nodes@ == g_b.nodes@,
        g_c.edges@.len() == g_b.edges@.len(),
        forall|e: int|
            0 <= e < g_b.edges@.len() ==> (#[trigger] g_c.edges@[e]) == (if g_b.edge_live(e) && g_b.edge_at(
                e,
            ).from as int == f && !g_b.edge_at(e).info.visited {
                Some(
                    crate::graph::with_info(
                        g_b.edge_at(e),
                        spec_update_edge(g_b.edge_at(e).info, info),
                    ),
                )
            } else {
                g_b.edges@[e]
            }),
    ensures
        phase_inv(g0, g_c, d0.update(f, true)),
{
    let d1 = d0.update(f, true);
    assert(g0.node_live(f));
    assert(!g0.node_at(f).is_ws_member);

    // No live self-loop sits on `f`: readiness would demand that `f`
    // itself were already settled.
    assert forall|e: int|
        #[trigger] g_a.edge_live(e) && g_a.edge_at(e).to as int == f implies g_a.edge_at(
        e,
    ).from as int != f by {
        assert(d0[g_a.edge_at(e).from as int]);
    }

    // Liveness is untouched, edge endpoints are untouched.
    assert forall|e: int| 0 <= e < g_b.edges@.len() implies (#[trigger] g_c.edge_live(e)
        <==> g_b.edge_live(e)) && (g_b.edge_live(e) ==> g_c.edge_at(e).from == g_b.edge_at(e).from
        && g_c.edge_at(e).to == g_b.edge_at(e).to) by {
        assert(g_c.edges@[e] == (if g_b.edge_live(e) && g_b.edge_at(e).from as int == f
            && !g_b.edge_at(e).info.visited {
            Some(
                crate::graph::with_info(
                    g_b.edge_at(e),
                    spec_update_edge(g_b.edge_at(e).info, info),
                ),
            )
        } else {
            g_b.edges@[e]
        }));
    }
    assert forall|e: int| #[trigger] g_c.edge_live(e) <==> g0.edge_live(e) by {
        assert(g_a.edge_live(e) <==> g0.edge_live(e));
        assert(g_b.edge_live(e) <==> g_a.edge_live(e));
    }

    // Structure is preserved.
    assert forall|i: int| #[trigger] g_c.node_live(i) <==> g0.node_live(i) by {
        assert(g_a.node_live(i) <==> g0.node_live(i));
    }
    assert forall|i: int| #[trigger] g0.node_live(i) implies same_pkg_identity(
        g_c.node_at(i),
        g0.node_at(i),
    ) by {
        assert(same_pkg_identity(g_a.node_at(i), g0.node_at(i)));
        if i == f {
            assert(g_c.node_at(i) == Package { dep_info: info, ..g_a.node_at(f) });
        } else {
            assert(g_c.node_at(i) == g_a.node_at(i));
        }
    }
    assert forall|e: int| #[trigger] g0.edge_live(e) implies g_c.edge_at(e).from == g0.edge_at(
        e,
    ).from && g_c.edge_at(e).to == g0.edge_at(e).to by {
        assert(g_a.edge_live(e));
        assert(g_b.edge_live(e));
    }
    assert(same_structure(g0, g_c));

    // The merge of the incoming edges of `f` is what was just assigned:
    // the rewrite of the outgoing edges did not touch any edge into `f`.
    assert forall|e: int|
        0 <= e < g_a.edges@.len() && #[trigger] g_a.edge_live(e) && g_a.edge_at(e).to as int
        == f implies g_a.edge_at(e) == g_c.edge_at(e) by {
        assert(g_a.edge_at(e).from as int != f);
        assert(g_c.edges@[e] == g_b.edges@[e]);
    }
    lemma_incoming_fold_stable(g_a, g_c, f, g_a.edges@.len() as int);
    assert(incoming_combined(g_c, f) == Some(info));
    assert(g_c.node_at(f).dep_info == info);

    // `f` has an incoming edge in the input graph as well.
    let ew = choose|e: int| #[trigger] g_a.edge_live(e) && g_a.edge_at(e).to as int == f;
    assert(g0.edge_live(ew));
    assert(g0.edge_at(ew).to as int == f);
    assert(g0.has_in_edge(f));

    // Every edge carries the record its settledness demands.
    assert forall|e: int|
        #[trigger] g0.edge_live(e) && d1[g0.edge_at(e).from as int] implies g_c.edge_at(e).info
        == expected_edge(g0, g_c, e) && g_c.edge_at(e).info.visited by {
        let src = g0.edge_at(e).from as int;
        assert(g_a.edge_live(e));
        assert(g_b.edge_at(e) == g_a.edge_at(e));
        assert(g_c.edges@[e] == (if g_b.edge_live(e) && g_b.edge_at(e).from as int == f
            && !g_b.edge_at(e).info.visited {
            Some(
                crate::graph::with_info(
                    g_b.edge_at(e),
                    spec_update_edge(g_b.edge_at(e).info, info),
                ),
            )
        } else {
            g_b.edges@[e]
        }));
        if src == f {
            assert(g_a.edge_at(e).info == g0.edge_at(e).info);
        } else {
            assert(d0[src]);
            assert(g_a.edge_at(e).info == expected_edge(g0, g_a, e));
            assert(g_c.edge_at(e) == g_a.edge_at(e));
            assert(g_c.node_at(src).dep_info == g_a.node_at(src).dep_info);
            assert(expected_edge(g0, g_c, e) == expected_edge(g0, g_a, e));
        }
    }
    assert forall|e: int|
        #[trigger] g0.edge_live(e) && !d1[g0.edge_at(e).from as int] implies g_c.edge_at(e).info
        == g0.edge_at(e).info by {
        let src = g0.edge_at(e).from as int;
        assert(src != f);
        assert(g_a.edge_live(e));
        assert(g_a.edge_at(e).info == g0.edge_at(e).info);
        assert(g_c.edges@[e] == g_b.edges@[e]);
    }

    // Settled non-roots still carry the merge of their incoming edges.
    assert forall|i: int|
        #[trigger] g0.node_live(i) && d1[i] && !g0.node_at(i).is_ws_member implies (forall|e: int|
        #[trigger] g0.edge_live(e) && g0.edge_at(e).to as int == i ==> d1[g0.edge_at(
            e,
        ).from as int]) && incoming_combined(g_c, i) == Some(g_c.node_at(i).dep_info) by {
        if i == f {
            assert forall|e: int|
                #[trigger] g0.edge_live(e) && g0.edge_at(e).to as int == i implies d1[g0.edge_at(
                e,
            ).from as int] by {
                assert(g_a.edge_live(e));
                assert(g_a.edge_at(e).to as int == f);
                assert(d0[g_a.edge_at(e).from as int]);
            }
            assert(incoming_combined(g_c, i) == Some(g_c.node_at(i).dep_info));
        } else {
            assert(d0[i]);
            assert forall|e: int|
                #[trigger] g0.edge_live(e) && g0.edge_at(e).to as int == i implies d1[g0.edge_at(
                e,
            ).from as int] by {
                let src = g0.edge_at(e).from as int;
                assert(d0[src]);
                assert(g_a.edge_live(e));
                assert(g_a.edge_at(e).from as int == src);
                assert(g_a.node_live(src));
                assert(0 <= src < d1.len());
            }
            assert forall|e: int|
                0 <= e < g_a.edges@.len() && #[trigger] g_a.edge_live(e) && g_a.edge_at(
                e,
            ).to as int == i implies g_a.edge_at(e) == g_c.edge_at(e) by {
                assert(g0.edge_live(e));
                assert(g0.edge_at(e).to as int == i);
                assert(d0[g0.edge_at(e).from as int]);
                assert(g0.edge_at(e).from as int != f);
                assert(g_a.edge_at(e).from as int != f);
                assert(g_c.edges@[e] == g_b.edges@[e]);
            }
            assert forall|e: int|
                0 <= e < g_a.edges@.len() && #[trigger] g_a.edge_live(e) implies g_a.edge_at(e).to
                == g_c.edge_at(e).to by {
                assert(g0.edge_live(e));
                assert(g_c.edges@[e] == (if g_b.edge_live(e) && g_b.edge_at(e).from as int == f
                    && !g_b.edge_at(e).info.visited {
                    Some(
                        crate::graph::with_info(
                            g_b.edge_at(e),
                            spec_update_edge(g_b.edge_at(e).info, info),
                        ),
                    )
                } else {
                    g_b.edges@[e]
                }));
            }
            lemma_incoming_fold_stable(g_a, g_c, i, g_a.edges@.len() as int);
            assert(incoming_combined(g_c, i) == incoming_combined(g_a, i));
            assert(incoming_combined(g_a, i) == Some(g_a.node_at(i).dep_info));
            assert(g_c.node_at(i) == g_a.node_at(i));
        }
    }
}

/// Settle one pending node `found`, all of whose incoming edges already
/// carry their final records: merge them into the node's classification
/// and rewrite the node's outgoing edges. Fails when the node has no
/// incoming edge at all, which a builder invariant rules out.
fn settle_node(
    graph: &mut DepGraph,
    done: &mut Vec<bool>,
    found: usize,
    Ghost(g0): Ghost<DepGraph>,
) -> (r: Result<(), Error>)
    requires
        phase_inv(g0, *old(graph), old(done)@),
        found < old(done)@.len(),
        !old(done)@[found as int],
        spec_ready(*old(graph), old(done)@, found as int),
    ensures
        match r {
            Ok(()) => phase_inv(g0, *final(graph), final(done)@) && final(done)@ == old(
                done,
            )@.update(found as int, true),
            Err(e) => e == Error::MissingIncomingEdge && !g0.has_in_edge(found as int)
                && *final(graph) == *old(graph) && *final(done) == *old(done),
        },
{
    let ghost f = found as int;
    proof {
        assert(g0.node_live(f));
        assert(!g0.node_at(f).is_ws_member);
    }
    let combined = combine_incoming_infos(graph, found);
    match combined {
        None => {
            proof {
                if g0.has_in_edge(f) {
                    let e = choose|e: int|
                        #[trigger] g0.edge_live(e) && g0.edge_at(e).to as int == f;
                    assert(graph.edge_live(e));
                    assert(graph.edge_at(e).to as int == f);
                    assert(graph.has_in_edge(f));
                }
            }
            Err(Error::MissingIncomingEdge)
        },
        Some(info) => {
            let ghost g_a = *graph;
            let ghost d0 = done@;
            graph.set_node_dep_info(found, info);
            let ghost g_b = *graph;
            update_outgoing_edges(graph, found, info);
            let ghost g_c = *graph;
            done[found] = true;
            proof {
                assert(g_a.has_in_edge(f));
                lemma_settle_ok(g0, g_a, g_b, g_c, d0, f, info);
                assert(done@ == d0.update(f, true));
            }
            Ok(())
        },
    }
}

fn all_sources_done(graph: &DepGraph, done: &Vec<bool>, i: usize) -> (r: bool)
    requires
        graph.wf(),
        done@.len() == graph.nodes@.len(),
    ensures
        r == spec_ready(*graph, done@, i as int),
{
    let mut e: usize = 0;
    while e < graph.edges.len()
        invariant
            0 <= e <= graph.edges@.len(),
            graph.wf(),
            done@.len() == graph.nodes@.len(),
            forall|j: int|
                0 <= j < e && #[trigger] graph.edge_live(j) && graph.edge_at(j).to as int
                    == i as int ==> done@[graph.edge_at(j).from as int],
        decreases graph.edges@.len() - e,
    {
        match &graph.edges[e] {
            Some(edge) => {
                if edge.to == i {
                    proof {
                        assert(graph.edge_live(e as int));
                    }
                    if !done[edge.from] {
                        return false;
                    }
                }
            },
            None => {},
        }
        e += 1;
    }
    true
}

/// At a stuck state — every pending node has an incoming edge from a
/// pending node — any pending node witnesses that classification is
/// impossible, while no node is missing an incoming edge outright.
proof fn lemma_stuck_state(g0: DepGraph, g: DepGraph, done: Seq<bool>, j0: int)
    requires
        g0.wf(),
        phase_inv(g0, g, done),
        forall|j: int| 0 <= j < done.len() && !(#[trigger] done[j]) ==> !spec_ready(g, done, j),
        0 <= j0 < done.len(),
        !done[j0],
    ensures
        g0.node_live(j0),
        !grounded(g0, j0),
        forall|i2: int|
            #[trigger] g0.node_live(i2) && !g0.node_at(i2).is_ws_member ==> g0.has_in_edge(i2),
{
    assert(g0.node_live(j0));
    assert forall|i2: int|
        #[trigger] g0.node_live(i2) && !g0.node_at(i2).is_ws_member implies g0.has_in_edge(
        i2,
    ) by {
        if !done[i2] {
            assert(!spec_ready(g, done, i2));
            let e = choose|e: int|
                #[trigger] g.edge_live(e) && g.edge_at(e).to as int == i2 && !done[g.edge_at(
                    e,
                ).from as int];
            assert(g0.edge_live(e));
            assert(g0.edge_at(e).to as int == i2);
            assert(g0.has_in_edge(i2));
        }
    }
    assert forall|k: nat| !grounded_k(g0, j0, k) by {
        lemma_stuck_ungrounded(g0, g, done, j0, k);
    }
}

/// After settling a ready node, every settled node is grounded within
/// one more round.
proof fn lemma_after_settle_grounded(
    g0: DepGraph,
    g_pre: DepGraph,
    dpre: Seq<bool>,
    d1: Seq<bool>,
    found: int,
    rounds: nat,
)
    requires
        g0.wf(),
        phase_inv(g0, g_pre, dpre),
        0 <= found < dpre.len(),
        !dpre[found],
        spec_ready(g_pre, dpre, found),
        g0.has_in_edge(found),
        d1 == dpre.update(found, true),
        forall|j: int|
            0 <= j < dpre.len() && #[trigger] dpre[j] && g0.node_live(j) ==> grounded_k(
                g0,
                j,
                rounds,
            ),
    ensures
        forall|j: int|
            0 <= j < d1.len() && #[trigger] d1[j] && g0.node_live(j) ==> grounded_k(
                g0,
                j,
                rounds + 1,
            ),
{
    assert forall|j: int|
        0 <= j < d1.len() && #[trigger] d1[j] && g0.node_live(j) implies grounded_k(
        g0,
        j,
        rounds + 1,
    ) by {
        if j == found {
            assert(!g0.node_at(j).is_ws_member);
            assert forall|e: int|
                #[trigger] g0.edge_live(e) && g0.edge_at(e).to as int == j implies grounded_k(
                g0,
                g0.edge_at(e).from as int,
                rounds,
            ) by {
                let src = g0.edge_at(e).from as int;
                assert(g_pre.edge_live(e));
                assert(g_pre.edge_at(e).to as int == j);
                assert(dpre[g_pre.edge_at(e).from as int]);
                assert(dpre[src]);
                assert(g0.node_live(src));
            }
        } else {
            assert(dpre[j]);
            lemma_grounded_mono(g0, j, rounds, rounds + 1);
        }
    }
}

/// Scan for a pending node all of whose incoming edges come from
/// settled nodes. Returns the slot of the first such node (or the slot
/// count when none is settleable) and whether any node is pending at
/// all.
fn find_ready(graph: &DepGraph, done: &Vec<bool>) -> (r: (usize, bool))
    requires
        graph.wf(),
        done@.len() == graph.nodes@.len(),
    ensures
        ({
            let (found, any_pending) = r;
            &&& found <= done@.len()
            &&& (any_pending <==> exists|j: int| 0 <= j < done@.len() && !(#[trigger] done@[j]))
            &&& (found < done@.len() ==> !done@[found as int] && spec_ready(
                *graph,
                done@,
                found as int,
            ))
            &&& (found == done@.len() ==> forall|j: int|
                0 <= j < done@.len() ==> done@[j] || !spec_ready(*graph, done@, j))
        }),
{
    let n = done.len();
    let mut found: usize = n;
    let mut any_pending = false;
    let mut idx: usize = 0;
    while idx < n
        invariant
            graph.wf(),
            done@.len() == graph.nodes@.len(),
            n == done@.len(),
            idx <= n,
            found <= n,
            any_pending <==> exists|j: int| 0 <= j < idx && !(#[trigger] done@[j]),
            found == n ==> forall|j: int| 0 <= j < idx ==> done@[j] || !spec_ready(*graph, done@, j),
            found < n ==> !done@[found as int] && spec_ready(*graph, done@, found as int),
        decreases n - idx,
    {
        if !done[idx] {
            any_pending = true;
            if found == n && all_sources_done(graph, done, idx) {
                found = idx;
            }
        }
        idx += 1;
    }
    (found, any_pending)
}

/// Compute, for every non-root node, a resolved classification
/// consistent with every path reaching it, and rewrite every outgoing
/// edge in its resolved parent's frame. Workspace-root classifications
/// are never altered, whatever the outcome. The run succeeds exactly
/// when every node's incoming-edge chains ground out in workspace
/// roots: a live non-root without any incoming edge is a builder
/// invariant violation, and chains that never ground out leave no
/// consistent classification to assign.
#[verifier::rlimit(80)]
pub fn update_dep_info(graph: &mut DepGraph) -> (r: Result<(), Error>)
    requires
        old(graph).wf(),
    ensures
        final(graph).wf(),
        same_structure(*old(graph), *final(graph)),
        forall|i: int|
            #[trigger] old(graph).node_live(i) && old(graph).node_at(i).is_ws_member
                ==> final(graph).node_at(i).dep_info == old(graph).node_at(i).dep_info,
        r is Ok ==> propagated(*old(graph), *final(graph)) && resolved(*final(graph)),
        r is Ok <==> (forall|i: int|
            #[trigger] old(graph).node_live(i) ==> grounded(*old(graph), i)),
        r == Err::<(), Error>(Error::MissingIncomingEdge) <==> (exists|i: int|
            #[trigger] old(graph).node_live(i) && !old(graph).node_at(i).is_ws_member
                && !old(graph).has_in_edge(i)),
        r is Err ==> r == Err::<(), Error>(Error::MissingIncomingEdge) || r == Err::<(), Error>(
            Error::CyclicDependencies,
        ),
{
    let ghost g0 = *old(graph);
    let n = graph.nodes.len();
    let mut done: Vec<bool> = vec![false; n];

    // Settle the workspace roots and the dead slots first: a root keeps
    // the classification fixed at its creation, and its outgoing edges
    // keep their constructed records, merely marked visited.
    let mut i: usize = 0;
    while i < n
        invariant
            g0 == *old(graph),
            g0.wf(),
            graph.wf(),
            same_structure(g0, *graph),
            graph.nodes@ == g0.nodes@,
            n == g0.nodes@.len(),
            done@.len() == n,
            i <= n,
            forall|j: int|
                0 <= j < n ==> (#[trigger] done@[j] <==> (j < i && (!g0.node_live(j)
                    || g0.node_at(j).is_ws_member))),
            forall|e: int|
                #[trigger] g0.edge_live(e) && done@[g0.edge_at(e).from as int] ==> graph.edge_at(
                    e,
                ).info == expected_edge(g0, *graph, e) && graph.edge_at(e).info.visited,
            forall|e: int|
                #[trigger] g0.edge_live(e) && !done@[g0.edge_at(e).from as int] ==> graph.edge_at(
                    e,
                ).info == g0.edge_at(e).info,
        decreases n - i,
    {
        let ghost g_pre = *graph;
        let state: u8 = match &graph.nodes[i] {
            Some(p) => {
                if p.is_ws_member {
                    1
                } else {
                    0
                }
            },
            None => 2,
        };
        if state == 1 {
            mark_outgoing_visited(graph, i);
            done[i] = true;
            proof {
                assert forall|e: int| 0 <= e < g_pre.edges@.len() implies (#[trigger] graph.edge_live(
                    e,
                ) <==> g_pre.edge_live(e)) && (g_pre.edge_live(e) ==> graph.edge_at(e).from
                    == g_pre.edge_at(e).from && graph.edge_at(e).to == g_pre.edge_at(e).to) by {
                    assert(graph.edges@[e] == (if g_pre.edge_live(e) && g_pre.edge_at(e).from == i
                        && !g_pre.edge_at(e).info.visited {
                        Some(
                            crate::graph::with_info(
                                g_pre.edge_at(e),
                                spec_mark_visited(g_pre.edge_at(e).info),
                            ),
                        )
                    } else {
                        g_pre.edges@[e]
                    }));
                }
                assert(same_structure(g0, *graph));
                assert forall|e: int|
                    #[trigger] g0.edge_live(e) && done@[g0.edge_at(e).from as int] implies graph.edge_at(
                    e,
                ).info == expected_edge(g0, *graph, e) && graph.edge_at(e).info.visited by {
                    let src = g0.edge_at(e).from as int;
                    assert(g_pre.edge_live(e));
                    assert(graph.edges@[e] == (if g_pre.edge_live(e) && g_pre.edge_at(e).from == i
                        && !g_pre.edge_at(e).info.visited {
                        Some(
                            crate::graph::with_info(
                                g_pre.edge_at(e),
                                spec_mark_visited(g_pre.edge_at(e).info),
                            ),
                        )
                    } else {
                        g_pre.edges@[e]
                    }));
                    if src == i as int {
                        assert(g_pre.edge_at(e).info == g0.edge_at(e).info);
                        assert(g0.node_at(src).is_ws_member);
                    } else {
                        assert(graph.edges@[e] == g_pre.edges@[e]);
                        if done@[src] {
                            assert(g_pre.edge_at(e).info == expected_edge(g0, g_pre, e));
                            assert(g0.node_live(src));
                            assert(graph.node_at(src) == g_pre.node_at(src));
                        }
                    }
                }
                assert forall|e: int|
                    #[trigger] g0.edge_live(e) && !done@[g0.edge_at(e).from as int] implies graph.edge_at(
                    e,
                ).info == g0.edge_at(e).info by {
                    let src = g0.edge_at(e).from as int;
                    assert(g_pre.edge_live(e));
                    assert(src != i as int);
                    assert(graph.edges@[e] == g_pre.edges@[e]);
                }
            }
        } else if state == 2 {
            done[i] = true;
            proof {
                assert(!g0.node_live(i as int));
                assert forall|e: int| #[trigger] g0.edge_live(e) implies g0.edge_at(
                    e,
                ).from as int != i as int by {
                    assert(g0.node_live(g0.edge_at(e).from as int));
                }
            }
        }
        i += 1;
    }
    proof {
        assert(phase_inv(g0, *graph, done@));
    }

    let ghost mut rounds: nat = 0;
    proof {
        assert forall|j: int|
            0 <= j < n && #[trigger] done@[j] && g0.node_live(j) implies grounded_k(
            g0,
            j,
            rounds,
        ) by {
            assert(g0.node_at(j).is_ws_member);
        }
    }

    // Repeatedly settle a pending node all of whose incoming edges come
    // from settled nodes, until none is pending or none is settleable.
    let mut finished = false;
    while !finished
        invariant
            g0 == *old(graph),
            g0.wf(),
            phase_inv(g0, *graph, done@),
            n == g0.nodes@.len(),
            done@.len() == n,
            forall|j: int|
                0 <= j < n && #[trigger] done@[j] && g0.node_live(j) ==> grounded_k(g0, j, rounds),
            finished ==> forall|j: int| 0 <= j < n ==> done@[j],
        decreases count_false(done@, n as int), (if finished {
            0int
        } else {
            1int
        }),
    {
        let (found, any_pending) = find_ready(graph, &done);
        if !any_pending {
            finished = true;
        } else if found == n {
            // Every pending node waits on another pending node: the
            // chains never ground out, and no classification exists.
            proof {
                let j0 = choose|j: int| 0 <= j < n && !(#[trigger] done@[j]);
                lemma_stuck_state(g0, *graph, done@, j0);
                assert(!grounded(g0, j0));
                assert(g0.node_live(j0));
                assert(same_structure(g0, *graph));
            }
            return Err(Error::CyclicDependencies);
        } else {
            let ghost dpre = done@;
            let ghost g_pre = *graph;
            let res = settle_node(graph, &mut done, found, Ghost(g0));
            match res {
                Ok(()) => {
                    proof {
                        lemma_count_false_pos(dpre, found as int, n as int);
                        lemma_count_false_update(dpre, found as int, n as int);
                        assert(g0.has_in_edge(found as int));
                        lemma_after_settle_grounded(g0, g_pre, dpre, done@, found as int, rounds);
                        rounds = rounds + 1;
                    }
                },
                Err(e2) => {
                    proof {
                        assert(g0.node_live(found as int));
                        assert(!g0.node_at(found as int).is_ws_member);
                        lemma_no_incoming_ungrounded(g0, found as int);
                    }
                    return Err(e2);
                },
            }
        }
    }
    proof {
        assert forall|e: int| #[trigger] graph.edge_live(e) implies graph.edge_at(
            e,
        ).info.visited by {
            assert(g0.edge_live(e));
            let src = g0.edge_at(e).from as int;
            assert(g0.node_live(src));
            assert(done@[src]);
        }
        assert forall|e: int| #[trigger] g0.edge_live(e) implies graph.edge_at(e).info
            == expected_edge(g0, *graph, e) by {
            let src = g0.edge_at(e).from as int;
            assert(g0.node_live(src));
            assert(done@[src]);
        }
        assert forall|i2: int|
            #[trigger] graph.node_live(i2) && !graph.node_at(i2).is_ws_member implies incoming_combined(
            *graph,
            i2,
        ) == Some(graph.node_at(i2).dep_info) by {
            assert(g0.node_live(i2));
            assert(same_pkg_identity(graph.node_at(i2), g0.node_at(i2)));
            assert(done@[i2]);
        }
        assert(propagated(g0, *graph));
        assert forall|i2: int|
            #[trigger] g0.node_live(i2) implies grounded(g0, i2) by {
            assert(done@[i2]);
            assert(grounded_k(g0, i2, rounds));
        }
        assert forall|i2: int|
            #[trigger] g0.node_live(i2) && !g0.node_at(i2).is_ws_member implies g0.has_in_edge(
            i2,
        ) by {
            assert(done@[i2]);
        }
    }
    Ok(())
}

/// Two graphs with identical edge arrays merge incoming edges
/// identically.
proof fn lemma_fold_congruence(g1: DepGraph, g2: DepGraph, n: int, upto: int)
    requires
        g1.edges@ == g2.edges@,
    ensures
        incoming_fold(g1, n, upto) == incoming_fold(g2, n, upto),
    decreases upto,
{
    if upto > 0 {
        lemma_fold_congruence(g1, g2, n, upto - 1);
    }
}

/// Law: propagation is idempotent. Re-running it on an already-resolved
/// graph changes nothing: every edge is already visited, so every edge
/// record is kept as it is, and every node keeps the merge it already
/// carries.
pub proof fn lemma_propagation_idempotent(g: DepGraph, g2: DepGraph)
    requires
        g.wf(),
        resolved(g),
        propagated(g, g2),
    ensures
        g2.nodes@ == g.nodes@,
        g2.edges@ == g.edges@,
{
    assert forall|e: int| 0 <= e < g.edges@.len() implies g2.edges@[e] == g.edges@[e] by {
        if g.edge_live(e) {
            assert(g2.edge_at(e).info == expected_edge(g, g2, e));
            assert(g.edge_at(e).info.visited);
            assert(g2.edge_at(e).info == g.edge_at(e).info);
            assert(g2.edge_at(e).from == g.edge_at(e).from && g2.edge_at(e).to == g.edge_at(
                e,
            ).to);
            assert(g2.edge_live(e));
            assert(g2.edges@[e] == Some(g2.edge_at(e)));
            assert(g.edges@[e] == Some(g.edge_at(e)));
        } else {
            assert(!g2.edge_live(e));
            assert(g2.edges@[e] is None && g.edges@[e] is None);
        }
    }
    assert(g2.edges@ =~= g.edges@);
    assert forall|i: int| 0 <= i < g.nodes@.len() implies g2.nodes@[i] == g.nodes@[i] by {
        if g.node_live(i) {
            assert(g2.node_live(i));
            assert(same_pkg_identity(g2.node_at(i), g.node_at(i)));
            if g.node_at(i).is_ws_member {
                assert(g2.node_at(i).dep_info == g.node_at(i).dep_info);
            } else {
                assert(g2.node_live(i));
                assert(incoming_combined(g2, i) == Some(g2.node_at(i).dep_info));
                lemma_fold_congruence(g2, g, i, g.edges@.len() as int);
                assert(incoming_combined(g, i) == Some(g.node_at(i).dep_info));
                assert(g2.node_at(i).dep_info == g.node_at(i).dep_info);
            }
            assert(g2.node_at(i) == g.node_at(i));
            assert(g2.nodes@[i] == Some(g2.node_at(i)));
            assert(g.nodes@[i] == Some(g.node_at(i)));
        } else {
            assert(!g2.node_live(i));
            assert(g2.nodes@[i] is None && g.nodes@[i] is None);
        }
    }
    assert(g2.nodes@ =~= g.nodes@);
}

} // verus!
