//! The annotated dependency graph: nodes carry packages, edges carry
//! dependency records.
//!
//! Storage is a dense array per kind with tombstoned slots: a removed
//! node or edge leaves a `None` behind, so identifiers stay stable and
//! are never reused for a different entity within a run. Reduction
//! passes keep iterating with consistent identifiers across deletions.

use vstd::prelude::*;

use crate::dep_info::DepInfo;
use crate::package::Package;

verus! {

/// One dependency edge: source node, destination node, and the record
/// seeded at creation and rewritten once by propagation.
#[derive(Clone, Copy, Debug)]
pub struct Edge {
    pub from: usize,
    pub to: usize,
    pub info: DepInfo,
}

/// `edge` with its record replaced by `info`.
pub open spec fn with_info(edge: Edge, info: DepInfo) -> Edge {
    Edge { info, ..edge }
}

/// A directed graph over tombstoned slot arrays.
#[derive(Debug)]
pub struct DepGraph {
    pub nodes: Vec<Option<Package>>,
    pub edges: Vec<Option<Edge>>,
}

impl DepGraph {
    /// Slot `i` holds a node that has not been removed.
    pub open spec fn node_live(self, i: int) -> bool {
        0 <= i < self.nodes@.len() && self.nodes@[i] is Some
    }

    /// The package in slot `i`.
    pub open spec fn node_at(self, i: int) -> Package {
        self.nodes@[i]->0
    }

    /// Slot `e` holds an edge that has not been removed.
    pub open spec fn edge_live(self, e: int) -> bool {
        0 <= e < self.edges@.len() && self.edges@[e] is Some
    }

    /// The edge in slot `e`.
    pub open spec fn edge_at(self, e: int) -> Edge {
        self.edges@[e]->0
    }

    /// Every live edge connects two live nodes.
    pub open spec fn wf(self) -> bool {
        forall|e: int|
            #[trigger] self.edge_live(e) ==> self.node_live(self.edge_at(e).from as int)
                && self.node_live(self.edge_at(e).to as int)
    }

    /// Some live edge runs from `u` to `v`.
    pub open spec fn has_edge(self, u: int, v: int) -> bool {
        exists|e: int|
            #[trigger] self.edge_live(e) && self.edge_at(e).from as int == u && self.edge_at(
                e,
            ).to as int == v
    }

    /// Some live edge leaves `u`.
    pub open spec fn has_out_edge(self, u: int) -> bool {
        exists|e: int| #[trigger] self.edge_live(e) && self.edge_at(e).from as int == u
    }

    /// Some live edge enters `v`.
    pub open spec fn has_in_edge(self, v: int) -> bool {
        exists|e: int| #[trigger] self.edge_live(e) && self.edge_at(e).to as int == v
    }

    /// `self` is `g` with some nodes and edges removed: the slot arrays
    /// have the same length, and whatever is still live is unchanged.
    pub open spec fn sub_shape_of(self, g: DepGraph) -> bool {
        &&& self.nodes@.len() == g.nodes@.len()
        &&& self.edges@.len() == g.edges@.len()
        &&& forall|i: int|
            #[trigger] self.node_live(i) ==> g.node_live(i) && self.node_at(i) == g.node_at(i)
        &&& forall|e: int|
            #[trigger] self.edge_live(e) ==> g.edge_live(e) && self.edge_at(e) == g.edge_at(e)
    }

    /// Relative to `g`, edges of `self` only disappeared together with an
    /// endpoint: an edge of `g` whose two endpoints are both still live
    /// in `self` is itself still live.
    pub open spec fn keeps_edges_between_survivors(self, g: DepGraph) -> bool {
        forall|e: int|
            #[trigger] g.edge_live(e) && self.node_live(g.edge_at(e).from as int)
                && self.node_live(g.edge_at(e).to as int) ==> self.edge_live(e)
    }

    /// The empty graph.
    pub fn new() -> (r: DepGraph)
        ensures
            r.nodes@.len() == 0,
            r.edges@.len() == 0,
            r.wf(),
    {
        DepGraph { nodes: Vec::new(), edges: Vec::new() }
    }

    /// Append a fresh node; its slot index is returned and never reused.
    pub fn add_node(&mut self, p: Package) -> (idx: usize)
        requires
            old(self).wf(),
        ensures
            final(self).wf(),
            idx == old(self).nodes@.len(),
            final(self).nodes@ == old(self).nodes@.push(Some(p)),
            final(self).edges@ == old(self).edges@,
    {
        let idx = self.nodes.len();
        self.nodes.push(Some(p));
        proof {
            assert forall|e2: int| #[trigger] self.edge_live(e2) implies self.node_live(
                self.edge_at(e2).from as int,
            ) && self.node_live(self.edge_at(e2).to as int) by {
                assert(old(self).edge_live(e2));
            }
        }
        idx
    }

    /// Append a fresh edge between two live nodes.
    pub fn add_edge(&mut self, from: usize, to: usize, info: DepInfo) -> (eidx: usize)
        requires
            old(self).wf(),
            old(self).node_live(from as int),
            old(self).node_live(to as int),
        ensures
            final(self).wf(),
            eidx == old(self).edges@.len(),
            final(self).nodes@ == old(self).nodes@,
            final(self).edges@ == old(self).edges@.push(Some(Edge { from, to, info })),
    {
        let eidx = self.edges.len();
        self.edges.push(Some(Edge { from, to, info }));
        proof {
            assert forall|e2: int| #[trigger] self.edge_live(e2) implies self.node_live(
                self.edge_at(e2).from as int,
            ) && self.node_live(self.edge_at(e2).to as int) by {
                if e2 < old(self).edges@.len() {
                    assert(old(self).edge_live(e2));
                }
            }
        }
        eidx
    }

    /// Tombstone node `idx` together with every edge incident to it.
    pub fn remove_node(&mut self, idx: usize)
        requires
            old(self).wf(),
            old(self).node_live(idx as int),
        ensures
            final(self).wf(),
            final(self).nodes@.len() == old(self).nodes@.len(),
            final(self).edges@.len() == old(self).edges@.len(),
            final(self).nodes@ == old(self).nodes@.update(idx as int, None::<Package>),
            forall|e: int|
                0 <= e < old(self).edges@.len() ==> (#[trigger] final(self).edges@[e]) == (if old(
                    self,
                ).edge_live(e) && (old(self).edge_at(e).from == idx || old(self).edge_at(e).to
                    == idx) {
                    None::<Edge>
                } else {
                    old(self).edges@[e]
                }),
    {
        self.nodes[idx] = None;
        let mut e: usize = 0;
        while e < self.edges.len()
            invariant
                0 <= e <= self.edges@.len(),
                self.edges@.len() == old(self).edges@.len(),
                self.nodes@ == old(self).nodes@.update(idx as int, None::<Package>),
                forall|j: int|
                    0 <= j < e ==> self.edges@[j] == (if old(self).edge_live(j) && (old(
                        self,
                    ).edge_at(j).from == idx || old(self).edge_at(j).to == idx) {
                        None::<Edge>
                    } else {
                        old(self).edges@[j]
                    }),
                forall|j: int| e <= j < self.edges@.len() ==> self.edges@[j] == old(self).edges@[j],
            decreases self.edges@.len() - e,
        {
            let remove = match &self.edges[e] {
                Some(edge) => edge.from == idx || edge.to == idx,
                None => false,
            };
            proof {
                assert(self.edges@[e as int] == old(self).edges@[e as int]);
            }
            if remove {
                proof {
                    assert(old(self).edge_live(e as int));
                }
                self.edges[e] = None;
            } else {
                proof {
                    assert(!(old(self).edge_live(e as int) && (old(self).edge_at(e as int).from
                        == idx || old(self).edge_at(e as int).to == idx)));
                }
            }
            e += 1;
        }
        assert forall|e2: int| #[trigger] self.edge_live(e2) implies self.node_live(
            self.edge_at(e2).from as int,
        ) && self.node_live(self.edge_at(e2).to as int) by {
            assert(old(self).edge_live(e2));
        }
    }

    /// Tombstone edge `e` alone.
    pub fn remove_edge(&mut self, e: usize)
        requires
            old(self).wf(),
            e < old(self).edges@.len(),
        ensures
            final(self).wf(),
            final(self).nodes@ == old(self).nodes@,
            final(self).edges@ == old(self).edges@.update(e as int, None::<Edge>),
    {
        self.edges[e] = None;
        proof {
            assert forall|e2: int| #[trigger] self.edge_live(e2) implies self.node_live(
                self.edge_at(e2).from as int,
            ) && self.node_live(self.edge_at(e2).to as int) by {
                assert(old(self).edge_live(e2));
            }
        }
    }

    /// Replace the classification record of a live node.
    pub fn set_node_dep_info(&mut self, idx: usize, info: DepInfo)
        requires
            old(self).wf(),
            old(self).node_live(idx as int),
        ensures
            final(self).wf(),
            final(self).edges@ == old(self).edges@,
            final(self).nodes@ == old(self).nodes@.update(
                idx as int,
                Some(Package { dep_info: info, ..old(self).node_at(idx as int) }),
            ),
    {
        let updated = match &self.nodes[idx] {
            Some(p) => {
                let mut q = p.clone();
                q.dep_info = info;
                Some(q)
            },
            None => None,
        };
        self.nodes[idx] = updated;
        proof {
            assert forall|e2: int| #[trigger] self.edge_live(e2) implies self.node_live(
                self.edge_at(e2).from as int,
            ) && self.node_live(self.edge_at(e2).to as int) by {
                assert(old(self).edge_live(e2));
            }
        }
    }

    /// Replace the duplicate-name annotation of a live node.
    pub fn set_node_name_uses(&mut self, idx: usize, uses: u64)
        requires
            old(self).wf(),
            old(self).node_live(idx as int),
        ensures
            final(self).wf(),
            final(self).edges@ == old(self).edges@,
            final(self).nodes@ == old(self).nodes@.update(
                idx as int,
                Some(Package { name_uses: Some(uses), ..old(self).node_at(idx as int) }),
            ),
    {
        let updated = match &self.nodes[idx] {
            Some(p) => {
                let mut q = p.clone();
                q.name_uses = Some(uses);
                Some(q)
            },
            None => None,
        };
        self.nodes[idx] = updated;
        proof {
            assert forall|e2: int| #[trigger] self.edge_live(e2) implies self.node_live(
                self.edge_at(e2).from as int,
            ) && self.node_live(self.edge_at(e2).to as int) by {
                assert(old(self).edge_live(e2));
            }
        }
    }

    /// Replace the record of a live edge.
    pub fn set_edge_info(&mut self, e: usize, info: DepInfo)
        requires
            old(self).wf(),
            old(self).edge_live(e as int),
        ensures
            final(self).wf(),
            final(self).nodes@ == old(self).nodes@,
            final(self).edges@ == old(self).edges@.update(
                e as int,
                Some(with_info(old(self).edge_at(e as int), info)),
            ),
    {
        let updated = match &self.edges[e] {
            Some(edge) => Some(Edge { from: edge.from, to: edge.to, info }),
            None => None,
        };
        self.edges[e] = updated;
        proof {
            assert forall|e2: int| #[trigger] self.edge_live(e2) implies self.node_live(
                self.edge_at(e2).from as int,
            ) && self.node_live(self.edge_at(e2).to as int) by {
                assert(old(self).edge_live(e2));
            }
        }
    }

    /// Whether any live edge leaves node `idx`.
    pub fn has_outgoing(&self, idx: usize) -> (r: bool)
        ensures
            r == self.has_out_edge(idx as int),
    {
        let mut e: usize = 0;
        while e < self.edges.len()
            invariant
                0 <= e <= self.edges@.len(),
                forall|j: int|
                    0 <= j < e ==> !(#[trigger] self.edge_live(j) && self.edge_at(j).from as int
                        == idx as int),
            decreases self.edges@.len() - e,
        {
            match &self.edges[e] {
                Some(edge) => {
                    if edge.from == idx {
                        proof {
                            assert(self.edge_live(e as int));
                            assert(self.edge_at(e as int).from as int == idx as int);
                        }
                        return true;
                    }
                },
                None => {},
            }
            e += 1;
        }
        false
    }

    /// Whether any live edge enters node `idx`.
    pub fn has_incoming(&self, idx: usize) -> (r: bool)
        ensures
            r == self.has_in_edge(idx as int),
    {
        let mut e: usize = 0;
        while e < self.edges.len()
            invariant
                0 <= e <= self.edges@.len(),
                forall|j: int|
                    0 <= j < e ==> !(#[trigger] self.edge_live(j) && self.edge_at(j).to as int
                        == idx as int),
            decreases self.edges@.len() - e,
        {
            match &self.edges[e] {
                Some(edge) => {
                    if edge.to == idx {
                        proof {
                            assert(self.edge_live(e as int));
                            assert(self.edge_at(e as int).to as int == idx as int);
                        }
                        return true;
                    }
                },
                None => {},
            }
            e += 1;
        }
        false
    }

    /// Number of live nodes, the measure that strictly shrinks with every
    /// removal.
    pub open spec fn live_node_count(self) -> nat {
        Self::live_nodes_in_prefix(self.nodes@, self.nodes@.len() as int)
    }

    /// Number of live node slots among the first `n`.
    pub open spec fn live_nodes_in_prefix(nodes: Seq<Option<Package>>, n: int) -> nat
        decreases n,
    {
        if n <= 0 {
            0
        } else {
            Self::live_nodes_in_prefix(nodes, n - 1) + (if nodes[n - 1] is Some {
                1nat
            } else {
                0nat
            })
        }
    }
}

/// A prefix that contains a live slot has a positive live count.
pub proof fn lemma_live_count_pos(nodes: Seq<Option<Package>>, idx: int, n: int)
    requires
        0 <= idx < n <= nodes.len(),
        nodes[idx] is Some,
    ensures
        DepGraph::live_nodes_in_prefix(nodes, n) >= 1,
    decreases n,
{
    if idx < n - 1 {
        lemma_live_count_pos(nodes, idx, n - 1);
    }
}

/// Tombstoning one slot lowers the live count of every enclosing prefix
/// by exactly one.
pub proof fn lemma_live_count_remove(nodes: Seq<Option<Package>>, idx: int, n: int)
    requires
        0 <= idx < nodes.len(),
        nodes[idx] is Some,
        0 <= n <= nodes.len(),
    ensures
        DepGraph::live_nodes_in_prefix(nodes.update(idx, None::<Package>), n)
            == if idx < n {
                (DepGraph::live_nodes_in_prefix(nodes, n) - 1) as nat
            } else {
                DepGraph::live_nodes_in_prefix(nodes, n)
            },
    decreases n,
{
    if n > 0 {
        lemma_live_count_remove(nodes, idx, n - 1);
        if idx < n - 1 {
            lemma_live_count_pos(nodes, idx, n - 1);
        }
    }
}

} // verus!
