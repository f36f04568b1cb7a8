//! Naming disambiguation: a read-only post-pass that records, per node,
//! how many nodes of the final graph share its name — purely an
//! annotation for a renderer, never affecting shape or classification.

use vstd::prelude::*;

use crate::graph::DepGraph;
use crate::package::Package;

verus! {

/// Number of live nodes among the first `upto` slots whose name reads
/// `name`.
pub open spec fn name_count(g: DepGraph, name: Seq<char>, upto: int) -> nat
    decreases upto,
{
    if upto <= 0 {
        0
    } else {
        name_count(g, name, upto - 1) + (if g.node_live(upto - 1) && g.node_at(upto - 1).name@
            == name {
            1nat
        } else {
            0nat
        })
    }
}

/// What the naming post-pass guarantees: shape, edges and
/// classifications are untouched, and each live node's duplicate-name
/// count is exactly the number of live nodes sharing its name.
pub open spec fn stats_set(g0: DepGraph, g: DepGraph) -> bool {
    &&& g.wf()
    &&& g.edges@ == g0.edges@
    &&& g.nodes@.len() == g0.nodes@.len()
    &&& forall|i: int| #[trigger] g.node_live(i) <==> g0.node_live(i)
    &&& forall|i: int|
        #[trigger] g0.node_live(i) ==> g.node_at(i) == (Package {
            name_uses: Some(
                name_count(g0, g0.node_at(i).name@, g0.nodes@.len() as int) as u64,
            ),
            ..g0.node_at(i)
        })
}

/// Group the surviving nodes by name and record on each how many share
/// its name.
pub fn set_name_stats(graph: &mut DepGraph)
    requires
        old(graph).wf(),
    ensures
        stats_set(*old(graph), *final(graph)),
{
    let ghost g0 = *old(graph);
    let n = graph.nodes.len();
    let mut i: usize = 0;
    while i < n
        invariant
            g0 == *old(graph),
            g0.wf(),
            graph.wf(),
            n == g0.nodes@.len(),
            graph.nodes@.len() == n,
            graph.edges@ == g0.edges@,
            i <= n,
            forall|j: int| #[trigger] graph.node_live(j) <==> g0.node_live(j),
            forall|j: int|
                i <= j < n ==> (#[trigger] graph.nodes@[j]) == g0.nodes@[j],
            forall|j: int|
                0 <= j < i && #[trigger] g0.node_live(j) ==> graph.node_at(j) == (Package {
                    name_uses: Some(
                        name_count(g0, g0.node_at(j).name@, g0.nodes@.len() as int) as u64,
                    ),
                    ..g0.node_at(j)
                }),
        decreases n - i,
    {
        let name = match &graph.nodes[i] {
            Some(p) => Some(p.name.clone()),
            None => None,
        };
        match name {
            Some(name) => {
                proof {
                    assert(graph.nodes@[i as int] == g0.nodes@[i as int]);
                    assert(name@ == g0.node_at(i as int).name@);
                }
                let mut c: u64 = 0;
                let mut j: usize = 0;
                while j < n
                    invariant
                        g0 == *old(graph),
                        g0.wf(),
                        graph.wf(),
                        n == g0.nodes@.len(),
                        graph.nodes@.len() == n,
                        i < n,
                        j <= n,
                        name@ == g0.node_at(i as int).name@,
                        forall|j2: int| #[trigger] graph.node_live(j2) <==> g0.node_live(j2),
                        forall|j2: int|
                            i <= j2 < n ==> (#[trigger] graph.nodes@[j2]) == g0.nodes@[j2],
                        forall|j2: int|
                            0 <= j2 < i && #[trigger] g0.node_live(j2) ==> graph.node_at(j2)
                                == (Package {
                                name_uses: Some(
                                    name_count(
                                        g0,
                                        g0.node_at(j2).name@,
                                        g0.nodes@.len() as int,
                                    ) as u64,
                                ),
                                ..g0.node_at(j2)
                            }),
                        c as int == name_count(g0, name@, j as int),
                        c as int <= j as int,
                    decreases n - j,
                {
                    let matches_name = match &graph.nodes[j] {
                        Some(p) => p.name.eq(&name),
                        None => false,
                    };
                    proof {
                        if j < i {
                            if g0.node_live(j as int) {
                                assert(graph.node_live(j as int));
                                assert(graph.node_at(j as int).name == g0.node_at(j as int).name);
                                assert(graph.nodes@[j as int] is Some);
                            } else {
                                assert(!graph.node_live(j as int));
                                assert(graph.nodes@[j as int] is None);
                            }
                        } else {
                            assert(graph.nodes@[j as int] == g0.nodes@[j as int]);
                        }
                        assert(matches_name == (g0.node_live(j as int) && g0.node_at(
                            j as int,
                        ).name@ == name@));
                    }
                    if matches_name {
                        c += 1;
                    }
                    j += 1;
                }
                let ghost gpre = *graph;
                graph.set_node_name_uses(i, c);
                proof {
                    assert(c as int == name_count(g0, g0.node_at(i as int).name@, n as int));
                    assert(g0.node_live(i as int));
                    assert(graph.nodes@ == gpre.nodes@.update(
                        i as int,
                        Some(Package { name_uses: Some(c), ..gpre.node_at(i as int) }),
                    ));
                    assert forall|j2: int| #[trigger] graph.node_live(j2) <==> g0.node_live(
                        j2,
                    ) by {
                        if j2 == i as int {
                            assert(graph.nodes@[j2] is Some);
                        } else if 0 <= j2 < n {
                            assert(graph.nodes@[j2] == gpre.nodes@[j2]);
                            assert(gpre.node_live(j2) <==> g0.node_live(j2));
                        }
                    }
                }
            },
            None => {},
        }
        i += 1;
    }
}

} // verus!
