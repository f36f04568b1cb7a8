//! The graph builder: expands from the workspace roots through the
//! resolved adjacency, applying the inclusion policy, detecting
//! macro-executing packages, and seeding each edge's record.

use vstd::prelude::*;

use crate::config::Config;
use crate::dep_info::{DeclaredKind, DepInfo, DepKind};
use crate::error::{Error, Warning};
use crate::graph::{DepGraph, Edge};
use crate::metadata::{
    find_resolve_node, get_package, is_also_lib, is_proc_macro, spec_is_proc_macro, DepKindInfo,
    DependencySpec, Metadata, PackageInfo, ResolveNode,
};
use crate::package::Package;
use crate::util::{contains_name, name_in, opt_name_eq, opt_str_eq};

verus! {

/// Whether identity `id` occurs in the workspace-member list.
pub open spec fn id_in(members: Seq<u64>, id: u64) -> bool {
    exists|k: int| 0 <= k < members.len() && members[k] == id
}

pub fn contains_id(members: &Vec<u64>, id: u64) -> (r: bool)
    ensures
        r == id_in(members@, id),
{
    let mut i: usize = 0;
    while i < members.len()
        invariant
            0 <= i <= members@.len(),
            forall|j: int| 0 <= j < i ==> members@[j] != id,
        decreases members@.len() - i,
    {
        if members[i] == id {
            return true;
        }
        i += 1;
    }
    false
}

/// `p` is the position of the first package carrying identity `id`.
pub open spec fn is_first_pkg(packages: Seq<PackageInfo>, id: u64, p: int) -> bool {
    &&& 0 <= p < packages.len()
    &&& packages[p].id == id
    &&& forall|j: int| 0 <= j < p ==> packages[j].id != id
}

/// `r` is the position of the first resolve entry carrying identity `id`.
pub open spec fn is_first_resolve(resolve: Seq<ResolveNode>, id: u64, r: int) -> bool {
    &&& 0 <= r < resolve.len()
    &&& resolve[r].id == id
    &&& forall|j: int| 0 <= j < r ==> resolve[j].id != id
}

/// Every workspace member identity occurs in the package list.
pub open spec fn members_resolved(members: Seq<u64>, packages: Seq<PackageInfo>) -> bool {
    forall|w: int|
        0 <= w < members.len() ==> crate::metadata::spec_has_package(
            packages,
            #[trigger] members[w],
        )
}

/// Some workspace member whose package passes root filtering is listed
/// twice.
pub open spec fn duplicate_member(
    members: Seq<u64>,
    packages: Seq<PackageInfo>,
    cfg: Config,
) -> bool {
    exists|i: int, j: int, p: int|
        #![trigger members[i], members[j], packages[p]]
        {
            &&& 0 <= i < j < members.len()
            &&& members[i] == members[j]
            &&& is_first_pkg(packages, members[i], p)
            &&& root_passes(cfg, packages[p])
        }
}

/// Some resolved adjacency entry references an identity that is absent
/// from the package list.
pub open spec fn missing_dep_package(
    packages: Seq<PackageInfo>,
    resolve: Seq<ResolveNode>,
) -> bool {
    exists|r2: int, d2: int|
        #![trigger resolve[r2].deps@[d2]]
        0 <= r2 < resolve.len() && 0 <= d2 < resolve[r2].deps@.len()
            && !crate::metadata::spec_has_package(packages, resolve[r2].deps@[d2].pkg)
}

/// Some package has no entry in the resolved adjacency at all.
pub open spec fn missing_resolve_entry(
    packages: Seq<PackageInfo>,
    resolve: Seq<ResolveNode>,
) -> bool {
    exists|p2: int|
        0 <= p2 < packages.len() && (forall|r2: int|
            0 <= r2 < resolve.len() ==> (#[trigger] resolve[r2]).id != (
            #[trigger] packages[p2]).id)
}

/// The snapshot is internally consistent: every package has a resolved
/// adjacency entry, and every destination of every entry is in the
/// package list.
pub open spec fn snapshot_consistent(
    packages: Seq<PackageInfo>,
    resolve: Seq<ResolveNode>,
) -> bool {
    &&& forall|p: int|
        0 <= p < packages.len() ==> (exists|r: int|
            0 <= r < resolve.len() && (#[trigger] resolve[r]).id == (
            #[trigger] packages[p]).id)
    &&& forall|r: int, d: int|
        #![trigger resolve[r].deps@[d]]
        0 <= r < resolve.len() && 0 <= d < resolve[r].deps@.len()
            ==> crate::metadata::spec_has_package(packages, resolve[r].deps@[d].pkg)
}

/// Whether one (kind, platform) pair is disabled by the configuration.
pub open spec fn skip_dep_spec(cfg: Config, info: DepKindInfo) -> bool {
    ||| !cfg.build_deps && info.kind == DeclaredKind::Build
    ||| !cfg.dev_deps && info.kind == DeclaredKind::Development
    ||| !cfg.target_deps && info.target is Some
}

/// Whether a (kind, platform) pair is disabled by the configuration:
/// build-time pairs without `build_deps`, test-only pairs without
/// `dev_deps`, platform-specific pairs without `target_deps`.
pub fn skip_dep(config: &Config, info: &DepKindInfo) -> (r: bool)
    ensures
        r == skip_dep_spec(*config, *info),
{
    (!config.build_deps && info.kind == DeclaredKind::Build) || (!config.dev_deps && info.kind
        == DeclaredKind::Development) || (!config.target_deps && info.target.is_some())
}

/// Every pair of the entry is disabled, so the whole adjacency entry is
/// dropped.
pub open spec fn all_skipped(cfg: Config, kinds: Seq<DepKindInfo>) -> bool {
    forall|k: int| 0 <= k < kinds.len() ==> skip_dep_spec(cfg, #[trigger] kinds[k])
}

fn all_pairs_skipped(config: &Config, kinds: &Vec<DepKindInfo>) -> (r: bool)
    ensures
        r == all_skipped(*config, kinds@),
{
    let mut i: usize = 0;
    while i < kinds.len()
        invariant
            0 <= i <= kinds@.len(),
            forall|j: int| 0 <= j < i ==> skip_dep_spec(*config, #[trigger] kinds@[j]),
        decreases kinds@.len() - i,
    {
        if !skip_dep(config, &kinds[i]) {
            return false;
        }
        i += 1;
    }
    true
}

/// Whether a destination of this name passes the exclusion and
/// allowlist filters.
pub open spec fn dep_name_passes(cfg: Config, name: Seq<char>) -> bool {
    !name_in(cfg.exclude@, name) && (cfg.only@.len() == 0 || name_in(cfg.only@, name))
}

fn check_dep_name(config: &Config, name: &String) -> (r: bool)
    ensures
        r == dep_name_passes(*config, name@),
{
    if contains_name(&config.exclude, name) {
        return false;
    }
    if config.only.len() > 0 && !contains_name(&config.only, name) {
        return false;
    }
    true
}

/// Whether a workspace member passes root filtering: in the root
/// allowlist if one is given, not excluded, in the package allowlist if
/// one is given, and — when build-time dependencies are off — not
/// itself macro-executing.
pub open spec fn root_passes(cfg: Config, pkg: PackageInfo) -> bool {
    &&& (cfg.root@.len() == 0 || name_in(cfg.root@, pkg.name@))
    &&& !name_in(cfg.exclude@, pkg.name@)
    &&& (cfg.only@.len() == 0 || name_in(cfg.only@, pkg.name@))
    &&& (cfg.build_deps || !spec_is_proc_macro(pkg))
}

fn check_root(config: &Config, pkg: &PackageInfo) -> (r: bool)
    ensures
        r == root_passes(*config, *pkg),
{
    if config.root.len() > 0 && !contains_name(&config.root, &pkg.name) {
        return false;
    }
    if contains_name(&config.exclude, &pkg.name) {
        return false;
    }
    if config.only.len() > 0 && !contains_name(&config.only, &pkg.name) {
        return false;
    }
    if !config.build_deps && is_proc_macro(pkg) {
        return false;
    }
    true
}

/// Whether declared dependency `d` is the manifest counterpart of a
/// resolved edge that the parent calls `rdep_name`, used under `pair`:
/// the rename-or-name, the kind and the platform all agree.
pub open spec fn spec_matches(d: DependencySpec, rdep_name: Seq<char>, pair: DepKindInfo) -> bool {
    &&& (match d.rename {
        Some(r) => r@,
        None => d.name@,
    }) == rdep_name
    &&& d.kind == pair.kind
    &&& opt_name_eq(d.target, pair.target)
}

/// `j` is the first declared dependency matching the resolved edge.
pub open spec fn is_first_match(
    deps: Seq<DependencySpec>,
    rdep_name: Seq<char>,
    pair: DepKindInfo,
    j: int,
) -> bool {
    &&& 0 <= j < deps.len()
    &&& spec_matches(deps[j], rdep_name, pair)
    &&& forall|i: int| 0 <= i < j ==> !spec_matches(#[trigger] deps[i], rdep_name, pair)
}

/// The optional flag recovered from the declared dependencies: that of
/// the first matching declaration, or false when none matches.
pub open spec fn lookup_optional(
    deps: Seq<DependencySpec>,
    rdep_name: Seq<char>,
    pair: DepKindInfo,
) -> bool {
    exists|j: int| is_first_match(deps, rdep_name, pair, j) && (#[trigger] deps[j]).optional
}

fn matches_decl(d: &DependencySpec, rdep_name: &String, pair: &DepKindInfo) -> (r: bool)
    ensures
        r == spec_matches(*d, rdep_name@, *pair),
{
    let name_ok = match &d.rename {
        Some(r) => r.eq(rdep_name),
        None => d.name.eq(rdep_name),
    };
    name_ok && d.kind == pair.kind && opt_str_eq(&d.target, &pair.target)
}

/// Position of the first declared dependency matching the resolved
/// edge, or `None` when the declaration cannot be found — a local,
/// recovered oddity.
fn find_dependency_spec(
    deps: &Vec<DependencySpec>,
    rdep_name: &String,
    pair: &DepKindInfo,
) -> (r: Option<usize>)
    ensures
        match r {
            Some(j) => is_first_match(deps@, rdep_name@, *pair, j as int),
            None => forall|i: int|
                0 <= i < deps@.len() ==> !spec_matches(#[trigger] deps@[i], rdep_name@, *pair),
        },
{
    let mut i: usize = 0;
    while i < deps.len()
        invariant
            0 <= i <= deps@.len(),
            forall|j: int| 0 <= j < i ==> !spec_matches(#[trigger] deps@[j], rdep_name@, *pair),
        decreases deps@.len() - i,
    {
        if matches_decl(&deps[i], rdep_name, pair) {
            return Some(i);
        }
        i += 1;
    }
    None
}

/// The dependency graph being built, together with the snapshot it is
/// built from and the bookkeeping of the breadth-first expansion.
pub struct DepGraphBuilder {
    /// The dependency graph being built.
    pub graph: DepGraph,
    /// For each package slot, the graph node it became, if any.
    pub node_indices: Vec<Option<usize>>,
    /// For each graph node, the package slot it came from.
    pub node_pkgs: Vec<usize>,
    /// For each graph node, the expansion depth it was created at.
    pub node_depths: Vec<u64>,
    /// Packages whose dependencies still need to be added, with their
    /// depth; `queue_head` marks how far the expansion has come.
    pub deps_add_queue: Vec<(usize, u64)>,
    pub queue_head: usize,
    /// Workspace members, from the snapshot.
    pub workspace_members: Vec<u64>,
    /// Package info, from the snapshot.
    pub packages: Vec<PackageInfo>,
    /// The resolved adjacency, from the snapshot.
    pub resolve: Vec<ResolveNode>,
    /// Local, recovered oddities met along the way.
    pub warnings: Vec<Warning>,
}

impl DepGraphBuilder {
    pub open spec fn spec_packages(self) -> Seq<PackageInfo> {
        self.packages@
    }

    pub open spec fn spec_members(self) -> Seq<u64> {
        self.workspace_members@
    }

    pub open spec fn spec_resolve(self) -> Seq<ResolveNode> {
        self.resolve@
    }

    /// The graph node that package slot `p` became, if any.
    pub open spec fn node_of(self, p: int) -> Option<usize> {
        self.node_indices@[p]
    }

    /// The record a fresh edge for pair `pair` to a destination package
    /// `cpkg` must carry, its optional flag recovered from the parent's
    /// declarations `pdeps` under the name `rdep_name`.
    pub open spec fn constructed_info(
        pdeps: Seq<DependencySpec>,
        rdep_name: Seq<char>,
        pair: DepKindInfo,
        cpkg: PackageInfo,
    ) -> DepInfo {
        DepInfo {
            kind: DepKind::spec_new(pair.kind, spec_is_proc_macro(cpkg)),
            is_target_dep: pair.target is Some,
            is_optional: lookup_optional(pdeps, rdep_name, pair),
            is_optional_direct: lookup_optional(pdeps, rdep_name, pair),
            visited: false,
        }
    }

    /// The resolved adjacency entry `dep` justifies edge `ed` under one
    /// of its surviving pairs, with exactly the constructed record.
    pub open spec fn pair_justified(self, cfg: Config, ed: Edge, dep: crate::metadata::ResolvedDep) -> bool {
        exists|k: int|
            #![trigger dep.dep_kinds@[k]]
            {
                &&& 0 <= k < dep.dep_kinds@.len()
                &&& !skip_dep_spec(cfg, dep.dep_kinds@[k])
                &&& !all_skipped(cfg, dep.dep_kinds@)
                &&& exists|pc: int|
                    #![trigger self.packages@[pc]]
                    {
                        &&& is_first_pkg(self.packages@, dep.pkg, pc)
                        &&& self.node_indices@[pc] == Some(ed.to)
                        &&& dep_name_passes(cfg, self.packages@[pc].name@)
                        &&& ed.info == Self::constructed_info(
                            self.packages@[self.node_pkgs@[ed.from as int] as int].dependencies@,
                            dep.name@,
                            dep.dep_kinds@[k],
                            self.packages@[pc],
                        )
                    }
            }
    }

    /// Every live edge comes from one surviving (kind, platform) pair of
    /// one resolved adjacency entry of its source's package, carries
    /// exactly the record constructed for it, and ends at the node of
    /// the destination package.
    pub open spec fn edge_justified(self, cfg: Config, ed: Edge) -> bool {
        exists|r: int, d: int|
            #![trigger self.resolve@[r].deps@[d]]
            {
                &&& 0 <= r < self.resolve@.len()
                &&& 0 <= d < self.resolve@[r].deps@.len()
                &&& (ed.from as int) < self.node_pkgs@.len()
                &&& self.packages@[self.node_pkgs@[ed.from as int] as int].id == self.resolve@[r].id
                &&& self.pair_justified(cfg, ed, self.resolve@[r].deps@[d])
            }
    }

    /// One resolved adjacency entry of expanded node `u` has been dealt
    /// with: if it survives the pair and name filters at all, then for
    /// every surviving pair an edge with the constructed record runs
    /// from `u` to the destination's node — unless the destination was
    /// skippable outright, for being outside the workspace in
    /// workspace-only mode, for being macro-executing with build-time
    /// dependencies off, or for lying beyond the depth limit.
    pub open spec fn dep_handled(self, cfg: Config, u: int, dep: crate::metadata::ResolvedDep) -> bool {
        forall|pc: int|
            #![trigger self.packages@[pc]]
            (is_first_pkg(self.packages@, dep.pkg, pc) && dep_name_passes(
                cfg,
                self.packages@[pc].name@,
            ) && !all_skipped(cfg, dep.dep_kinds@)) ==> {
                ||| (self.node_indices@[pc] is Some && forall|k: int|
                    #![trigger dep.dep_kinds@[k]]
                    0 <= k < dep.dep_kinds@.len() && !skip_dep_spec(cfg, dep.dep_kinds@[k])
                        ==> exists|e: int|
                        {
                            &&& #[trigger] self.graph.edge_live(e)
                            &&& self.graph.edge_at(e).from as int == u
                            &&& Some(self.graph.edge_at(e).to) == self.node_indices@[pc]
                            &&& self.graph.edge_at(e).info == Self::constructed_info(
                                self.packages@[self.node_pkgs@[u] as int].dependencies@,
                                dep.name@,
                                dep.dep_kinds@[k],
                                self.packages@[pc],
                            )
                        })
                ||| (cfg.workspace_only && !id_in(self.workspace_members@, dep.pkg))
                ||| (!cfg.build_deps && spec_is_proc_macro(self.packages@[pc]))
                ||| (match cfg.depth {
                    Some(dl) => self.node_depths@[u] + 1 > dl,
                    None => false,
                })
            }
    }

    /// Node `u` has been fully expanded: its package has a resolved
    /// adjacency entry, and every dependency of the first such entry has
    /// been dealt with.
    pub open spec fn node_expanded(self, cfg: Config, u: int) -> bool {
        &&& exists|r: int|
            #![trigger self.resolve@[r]]
            is_first_resolve(self.resolve@, self.packages@[self.node_pkgs@[u] as int].id, r)
        &&& forall|r: int, d: int|
            #![trigger self.resolve@[r].deps@[d]]
            (is_first_resolve(
                self.resolve@,
                self.packages@[self.node_pkgs@[u] as int].id,
                r,
            ) && 0 <= d < self.resolve@[r].deps@.len()) ==> self.dep_handled(
                cfg,
                u,
                self.resolve@[r].deps@[d],
            )
    }

    /// Node `n` belongs to one of the first `bound` workspace members,
    /// whose package passes root filtering, and is marked a root.
    pub open spec fn rooted_node(self, cfg: Config, n: int, bound: int) -> bool {
        exists|w: int|
            0 <= w < bound && is_first_pkg(
                self.packages@,
                #[trigger] self.workspace_members@[w],
                self.node_pkgs@[n] as int,
            ) && root_passes(cfg, self.packages@[self.node_pkgs@[n] as int])
                && self.graph.node_at(n).is_ws_member
    }

    /// A rooted node stays rooted when the member bound widens and the
    /// builder only grew around it.
    proof fn lemma_rooted_node_carries(
        b1: Self,
        b2: Self,
        cfg: Config,
        n: int,
        bound1: int,
        bound2: int,
    )
        requires
            b1.rooted_node(cfg, n, bound1),
            bound1 <= bound2,
            b2.packages@ == b1.packages@,
            b2.workspace_members@ == b1.workspace_members@,
            0 <= n < b1.node_pkgs@.len(),
            n < b2.node_pkgs@.len(),
            b2.node_pkgs@[n] == b1.node_pkgs@[n],
            b2.graph.node_at(n) == b1.graph.node_at(n),
        ensures
            b2.rooted_node(cfg, n, bound2),
    {
        let w = choose|w: int|
            0 <= w < bound1 && is_first_pkg(
                b1.packages@,
                #[trigger] b1.workspace_members@[w],
                b1.node_pkgs@[n] as int,
            ) && root_passes(cfg, b1.packages@[b1.node_pkgs@[n] as int])
                && b1.graph.node_at(n).is_ws_member;
        assert(b2.workspace_members@[w] == b1.workspace_members@[w]);
        assert(is_first_pkg(
            b2.packages@,
            b2.workspace_members@[w],
            b2.node_pkgs@[n] as int,
        ));
    }

    /// While only roots exist, every node is anchored by its root-hood.
    proof fn lemma_roots_only_anchored(b: Self, cfg: Config)
        requires
            b.roots_only(cfg),
        ensures
            b.anchored(cfg),
    {
        assert forall|n: int| 0 <= n < b.node_pkgs@.len() implies #[trigger] b.node_anchored(
            cfg,
            n,
        ) by {
            assert(b.rooted_node(cfg, n, b.workspace_members@.len() as int));
            let w2 = choose|w2: int|
                0 <= w2 < b.workspace_members@.len() as int && is_first_pkg(
                    b.packages@,
                    #[trigger] b.workspace_members@[w2],
                    b.node_pkgs@[n] as int,
                ) && root_passes(cfg, b.packages@[b.node_pkgs@[n] as int])
                    && b.graph.node_at(n).is_ws_member;
        }
    }

    /// Every node so far belongs to a workspace member that passed root
    /// filtering: nothing else has been created yet.
    pub open spec fn roots_only(self, cfg: Config) -> bool {
        forall|n: int|
            0 <= n < self.node_pkgs@.len() ==> #[trigger] self.rooted_node(
                cfg,
                n,
                self.workspace_members@.len() as int,
            )
    }

    /// Node `n` is anchored: a workspace root that passed root
    /// filtering, or the target of some live edge.
    pub open spec fn node_anchored(self, cfg: Config, n: int) -> bool {
        ||| (self.graph.node_at(n).is_ws_member && root_passes(
            cfg,
            self.packages@[self.node_pkgs@[n] as int],
        ))
        ||| self.graph.has_in_edge(n)
    }

    /// Every node is anchored: nothing dangles.
    pub open spec fn anchored(self, cfg: Config) -> bool {
        forall|n: int|
            0 <= n < self.node_pkgs@.len() ==> #[trigger] self.node_anchored(cfg, n)
    }

    /// Package slot `p` still waits in the expansion queue.
    pub open spec fn pkg_queued(self, p: int) -> bool {
        exists|k: int|
            self.queue_head <= k < self.deps_add_queue@.len() && (#[trigger] self.deps_add_queue@[k]).0 as int == p
    }

    /// The standing well-formedness of the builder under `cfg`: the maps
    /// between package slots and node slots are mutually inverse, every
    /// node carries the data of its package and passes the filters,
    /// every edge is justified, and every node is either fully expanded
    /// or still waiting in the queue.
    pub open spec fn inv(self, cfg: Config) -> bool {
        &&& self.graph.wf()
        &&& self.node_indices@.len() == self.packages@.len()
        &&& self.node_pkgs@.len() == self.graph.nodes@.len()
        &&& self.node_depths@.len() == self.graph.nodes@.len()
        &&& forall|n: int|
            0 <= n < self.node_depths@.len() ==> (#[trigger] self.node_depths@[n]) <= n
        &&& forall|n: int| 0 <= n < self.graph.nodes@.len() ==> #[trigger] self.graph.node_live(n)
        &&& forall|n: int|
            0 <= n < self.node_pkgs@.len() ==> is_first_pkg(
                self.packages@,
                self.packages@[(#[trigger] self.node_pkgs@[n]) as int].id,
                self.node_pkgs@[n] as int,
            ) && self.node_indices@[self.node_pkgs@[n] as int] == Some(n as usize)
        &&& forall|p: int|
            0 <= p < self.node_indices@.len() && (#[trigger] self.node_indices@[p]) is Some ==> {
                let n = self.node_indices@[p].unwrap() as int;
                0 <= n < self.node_pkgs@.len() && self.node_pkgs@[n] as int == p
            }
        &&& forall|n: int|
            0 <= n < self.node_pkgs@.len() ==> {
                let pkg = self.packages@[(#[trigger] self.node_pkgs@[n]) as int];
                let node = self.graph.node_at(n);
                &&& node.id == pkg.id
                &&& node.name == pkg.name
                &&& node.version == pkg.version
                &&& node.is_proc_macro == spec_is_proc_macro(pkg)
                &&& node.is_ws_member == id_in(self.workspace_members@, pkg.id)
                &&& node.name_uses is None
                &&& node.dep_info == (if spec_is_proc_macro(pkg) {
                    DepInfo { kind: DepKind::build_spec(), ..DepInfo::default_spec() }
                } else {
                    DepInfo::default_spec()
                })
                &&& dep_name_passes(cfg, pkg.name@) || (node.is_ws_member && root_passes(cfg, pkg))
                &&& cfg.build_deps || !spec_is_proc_macro(pkg)
                &&& cfg.workspace_only ==> node.is_ws_member
            }
        &&& forall|e: int|
            #[trigger] self.graph.edge_live(e) ==> self.edge_justified(cfg, self.graph.edge_at(e))
        &&& forall|n: int|
            0 <= n < self.node_depths@.len() ==> (match cfg.depth {
                Some(dl) => (#[trigger] self.node_depths@[n]) <= dl as u64,
                None => true,
            })
        &&& self.queue_head <= self.deps_add_queue@.len()
        &&& forall|k1: int, k2: int|
            0 <= k1 < k2 < self.deps_add_queue@.len() ==> (
            #[trigger] self.deps_add_queue@[k1]).0 != (#[trigger] self.deps_add_queue@[k2]).0
        &&& forall|k: int|
            0 <= k < self.deps_add_queue@.len() ==> {
                let p = (#[trigger] self.deps_add_queue@[k]).0 as int;
                &&& 0 <= p < self.node_indices@.len()
                &&& self.node_indices@[p] is Some
                &&& self.node_depths@[self.node_indices@[p].unwrap() as int]
                    == self.deps_add_queue@[k].1
            }
        &&& forall|n: int|
            0 <= n < self.node_pkgs@.len() ==> self.pkg_queued(
                (#[trigger] self.node_pkgs@[n]) as int,
            ) || self.node_expanded(cfg, n)
    }
}

impl DepGraphBuilder {
    /// A builder that has not seeded anything yet.
    pub open spec fn fresh(self) -> bool {
        &&& self.graph.nodes@.len() == 0
        &&& self.graph.edges@.len() == 0
        &&& self.node_indices@.len() == self.packages@.len()
        &&& forall|p: int|
            0 <= p < self.node_indices@.len() ==> (#[trigger] self.node_indices@[p]) is None
        &&& self.node_pkgs@.len() == 0
        &&& self.node_depths@.len() == 0
        &&& self.deps_add_queue@.len() == 0
        &&& self.queue_head == 0
    }

    /// `b2` carries everything `b1` carried — same snapshot, and nodes,
    /// edges, mappings and queue entries only appended, with the
    /// expansion cursor untouched.
    pub open spec fn extends(b1: Self, b2: Self) -> bool {
        &&& b2.packages@ == b1.packages@
        &&& b2.resolve@ == b1.resolve@
        &&& b2.workspace_members@ == b1.workspace_members@
        &&& b2.node_indices@.len() == b1.node_indices@.len()
        &&& forall|p: int|
            0 <= p < b1.node_indices@.len() && (#[trigger] b1.node_indices@[p]) is Some
                ==> b2.node_indices@[p] == b1.node_indices@[p]
        &&& b1.node_pkgs@.len() <= b2.node_pkgs@.len()
        &&& forall|n: int|
            0 <= n < b1.node_pkgs@.len() ==> (#[trigger] b2.node_pkgs@[n]) == b1.node_pkgs@[n]
        &&& b1.node_depths@.len() <= b2.node_depths@.len()
        &&& forall|n: int|
            0 <= n < b1.node_depths@.len() ==> (#[trigger] b2.node_depths@[n])
                == b1.node_depths@[n]
        &&& b1.graph.nodes@.len() <= b2.graph.nodes@.len()
        &&& forall|n: int|
            0 <= n < b1.graph.nodes@.len() ==> (#[trigger] b2.graph.nodes@[n])
                == b1.graph.nodes@[n]
        &&& b1.graph.edges@.len() <= b2.graph.edges@.len()
        &&& forall|e: int|
            0 <= e < b1.graph.edges@.len() ==> (#[trigger] b2.graph.edges@[e])
                == b1.graph.edges@[e]
        &&& b1.deps_add_queue@.len() <= b2.deps_add_queue@.len()
        &&& forall|k: int|
            0 <= k < b1.deps_add_queue@.len() ==> (#[trigger] b2.deps_add_queue@[k])
                == b1.deps_add_queue@[k]
    }

    /// The standing well-formedness never reads the warnings log.
    proof fn lemma_inv_warnings(b1: Self, b2: Self, cfg: Config)
        requires
            b1.inv(cfg),
            b2.graph == b1.graph,
            b2.node_indices == b1.node_indices,
            b2.node_pkgs == b1.node_pkgs,
            b2.node_depths == b1.node_depths,
            b2.deps_add_queue == b1.deps_add_queue,
            b2.queue_head == b1.queue_head,
            b2.packages == b1.packages,
            b2.resolve == b1.resolve,
            b2.workspace_members == b1.workspace_members,
        ensures
            b2.inv(cfg),
    {
        assert forall|e: int| #[trigger] b2.graph.edge_live(e) implies b2.edge_justified(
            cfg,
            b2.graph.edge_at(e),
        ) by {
            assert(b1.graph.edge_live(e));
            let ed = b1.graph.edge_at(e);
            let (r2, d2) = choose|r2: int, d2: int|
                #![trigger b1.resolve@[r2].deps@[d2]]
                {
                    &&& 0 <= r2 < b1.resolve@.len()
                    &&& 0 <= d2 < b1.resolve@[r2].deps@.len()
                    &&& (ed.from as int) < b1.node_pkgs@.len()
                    &&& b1.packages@[b1.node_pkgs@[ed.from as int] as int].id == b1.resolve@[r2].id
                    &&& b1.pair_justified(cfg, ed, b1.resolve@[r2].deps@[d2])
                };
            assert(b2.pair_justified(cfg, ed, b2.resolve@[r2].deps@[d2])) by {
                let dep = b1.resolve@[r2].deps@[d2];
                let k2 = choose|k2: int|
                    #![trigger dep.dep_kinds@[k2]]
                    {
                        &&& 0 <= k2 < dep.dep_kinds@.len()
                        &&& !skip_dep_spec(cfg, dep.dep_kinds@[k2])
                        &&& !all_skipped(cfg, dep.dep_kinds@)
                        &&& exists|pc2: int|
                            #![trigger b1.packages@[pc2]]
                            {
                                &&& is_first_pkg(b1.packages@, dep.pkg, pc2)
                                &&& b1.node_indices@[pc2] == Some(ed.to)
                                &&& dep_name_passes(cfg, b1.packages@[pc2].name@)
                                &&& ed.info == Self::constructed_info(
                                    b1.packages@[b1.node_pkgs@[ed.from as int] as int].dependencies@,
                                    dep.name@,
                                    dep.dep_kinds@[k2],
                                    b1.packages@[pc2],
                                )
                            }
                    };
                assert(dep.dep_kinds@[k2] == b2.resolve@[r2].deps@[d2].dep_kinds@[k2]);
            }
        }
        assert forall|n2: int| 0 <= n2 < b2.node_pkgs@.len() implies b2.pkg_queued(
            (#[trigger] b2.node_pkgs@[n2]) as int,
        ) || b2.node_expanded(cfg, n2) by {
            if b1.pkg_queued(b1.node_pkgs@[n2] as int) {
                assert(b2.pkg_queued(b2.node_pkgs@[n2] as int));
            } else {
                assert(b1.node_expanded(cfg, n2));
                assert(Self::extends(b1, b2));
                Self::lemma_extends_expanded(b1, b2, cfg, n2);
            }
        }
    }

    /// Extension is transitive.
    proof fn lemma_extends_trans(a: Self, b: Self, c: Self)
        requires
            Self::extends(a, b),
            Self::extends(b, c),
        ensures
            Self::extends(a, c),
    {
        assert forall|p2: int|
            0 <= p2 < a.node_indices@.len() && (#[trigger] a.node_indices@[p2]) is Some implies c.node_indices@[p2]
            == a.node_indices@[p2] by {
            assert(b.node_indices@[p2] == a.node_indices@[p2]);
        }
    }

    /// Advancing the expansion cursor by one preserves the standing
    /// well-formedness, provided every node is still expanded or
    /// waiting in the shortened queue tail.
    proof fn lemma_pop_inv(b1: Self, b2: Self, cfg: Config)
        requires
            b1.inv(cfg),
            b1.queue_head < b1.deps_add_queue@.len(),
            b2.queue_head == b1.queue_head + 1,
            b2.graph == b1.graph,
            b2.node_indices == b1.node_indices,
            b2.node_pkgs == b1.node_pkgs,
            b2.node_depths == b1.node_depths,
            b2.deps_add_queue == b1.deps_add_queue,
            b2.packages == b1.packages,
            b2.resolve == b1.resolve,
            b2.workspace_members == b1.workspace_members,
            forall|n: int|
                0 <= n < b2.node_pkgs@.len() ==> b2.pkg_queued(
                    (#[trigger] b2.node_pkgs@[n]) as int,
                ) || b2.node_expanded(cfg, n),
        ensures
            b2.inv(cfg),
    {
        assert forall|e: int| #[trigger] b2.graph.edge_live(e) implies b2.edge_justified(
            cfg,
            b2.graph.edge_at(e),
        ) by {
            assert(b1.graph.edge_live(e));
            let ed = b1.graph.edge_at(e);
            let (r2, d2) = choose|r2: int, d2: int|
                #![trigger b1.resolve@[r2].deps@[d2]]
                {
                    &&& 0 <= r2 < b1.resolve@.len()
                    &&& 0 <= d2 < b1.resolve@[r2].deps@.len()
                    &&& (ed.from as int) < b1.node_pkgs@.len()
                    &&& b1.packages@[b1.node_pkgs@[ed.from as int] as int].id == b1.resolve@[r2].id
                    &&& b1.pair_justified(cfg, ed, b1.resolve@[r2].deps@[d2])
                };
            assert(b2.pair_justified(cfg, ed, b2.resolve@[r2].deps@[d2])) by {
                let dep = b1.resolve@[r2].deps@[d2];
                let k2 = choose|k2: int|
                    #![trigger dep.dep_kinds@[k2]]
                    {
                        &&& 0 <= k2 < dep.dep_kinds@.len()
                        &&& !skip_dep_spec(cfg, dep.dep_kinds@[k2])
                        &&& !all_skipped(cfg, dep.dep_kinds@)
                        &&& exists|pc2: int|
                            #![trigger b1.packages@[pc2]]
                            {
                                &&& is_first_pkg(b1.packages@, dep.pkg, pc2)
                                &&& b1.node_indices@[pc2] == Some(ed.to)
                                &&& dep_name_passes(cfg, b1.packages@[pc2].name@)
                                &&& ed.info == Self::constructed_info(
                                    b1.packages@[b1.node_pkgs@[ed.from as int] as int].dependencies@,
                                    dep.name@,
                                    dep.dep_kinds@[k2],
                                    b1.packages@[pc2],
                                )
                            }
                    };
                assert(dep.dep_kinds@[k2] == b2.resolve@[r2].deps@[d2].dep_kinds@[k2]);
            }
        }
    }

    /// Extension preserves a node's anchoring.
    proof fn lemma_node_anchored_extends(b1: Self, b2: Self, cfg: Config, n: int)
        requires
            Self::extends(b1, b2),
            0 <= n < b1.node_pkgs@.len(),
            n < b1.graph.nodes@.len(),
            b1.node_anchored(cfg, n),
        ensures
            b2.node_anchored(cfg, n),
    {
        if b1.graph.node_at(n).is_ws_member && root_passes(
            cfg,
            b1.packages@[b1.node_pkgs@[n] as int],
        ) {
            assert(b2.graph.nodes@[n] == b1.graph.nodes@[n]);
            assert(b2.node_pkgs@[n] == b1.node_pkgs@[n]);
        } else {
            let e = choose|e: int|
                #[trigger] b1.graph.edge_live(e) && b1.graph.edge_at(e).to as int == n;
            assert(b2.graph.edges@[e] == b1.graph.edges@[e]);
            assert(b2.graph.edge_live(e));
        }
    }

    /// Extension preserves a handled adjacency entry.
    proof fn lemma_extends_handled(b1: Self, b2: Self, cfg: Config, u: int, dep: crate::metadata::ResolvedDep)
        requires
            Self::extends(b1, b2),
            b1.node_indices@.len() == b1.packages@.len(),
            0 <= u < b1.node_pkgs@.len(),
            u < b1.node_depths@.len(),
            b1.dep_handled(cfg, u, dep),
        ensures
            b2.dep_handled(cfg, u, dep),
    {
        assert forall|pc: int|
            (is_first_pkg(b2.packages@, dep.pkg, pc) && dep_name_passes(
                cfg,
                (#[trigger] b2.packages@[pc]).name@,
            ) && !all_skipped(cfg, dep.dep_kinds@)) implies {
            ||| (b2.node_indices@[pc] is Some && forall|k: int|
                #![trigger dep.dep_kinds@[k]]
                0 <= k < dep.dep_kinds@.len() && !skip_dep_spec(cfg, dep.dep_kinds@[k])
                    ==> exists|e: int|
                    {
                        &&& #[trigger] b2.graph.edge_live(e)
                        &&& b2.graph.edge_at(e).from as int == u
                        &&& Some(b2.graph.edge_at(e).to) == b2.node_indices@[pc]
                        &&& b2.graph.edge_at(e).info == Self::constructed_info(
                            b2.packages@[b2.node_pkgs@[u] as int].dependencies@,
                            dep.name@,
                            dep.dep_kinds@[k],
                            b2.packages@[pc],
                        )
                    })
            ||| (cfg.workspace_only && !id_in(b2.workspace_members@, dep.pkg))
            ||| (!cfg.build_deps && spec_is_proc_macro(b2.packages@[pc]))
            ||| (match cfg.depth {
                Some(dl) => b2.node_depths@[u] + 1 > dl,
                None => false,
            })
        } by {
            assert(b1.packages@[pc] == b2.packages@[pc]);
            if b1.node_indices@[pc] is Some && forall|k: int|
                #![trigger dep.dep_kinds@[k]]
                0 <= k < dep.dep_kinds@.len() && !skip_dep_spec(cfg, dep.dep_kinds@[k])
                    ==> exists|e: int|
                    {
                        &&& #[trigger] b1.graph.edge_live(e)
                        &&& b1.graph.edge_at(e).from as int == u
                        &&& Some(b1.graph.edge_at(e).to) == b1.node_indices@[pc]
                        &&& b1.graph.edge_at(e).info == Self::constructed_info(
                            b1.packages@[b1.node_pkgs@[u] as int].dependencies@,
                            dep.name@,
                            dep.dep_kinds@[k],
                            b1.packages@[pc],
                        )
                    } {
                assert(b2.node_indices@[pc] == b1.node_indices@[pc]);
                assert forall|k: int|
                    #![trigger dep.dep_kinds@[k]]
                    0 <= k < dep.dep_kinds@.len() && !skip_dep_spec(
                        cfg,
                        dep.dep_kinds@[k],
                    ) implies exists|e: int|
                    {
                        &&& #[trigger] b2.graph.edge_live(e)
                        &&& b2.graph.edge_at(e).from as int == u
                        &&& Some(b2.graph.edge_at(e).to) == b2.node_indices@[pc]
                        &&& b2.graph.edge_at(e).info == Self::constructed_info(
                            b2.packages@[b2.node_pkgs@[u] as int].dependencies@,
                            dep.name@,
                            dep.dep_kinds@[k],
                            b2.packages@[pc],
                        )
                    } by {
                    let e = choose|e: int|
                        {
                            &&& #[trigger] b1.graph.edge_live(e)
                            &&& b1.graph.edge_at(e).from as int == u
                            &&& Some(b1.graph.edge_at(e).to) == b1.node_indices@[pc]
                            &&& b1.graph.edge_at(e).info == Self::constructed_info(
                                b1.packages@[b1.node_pkgs@[u] as int].dependencies@,
                                dep.name@,
                                dep.dep_kinds@[k],
                                b1.packages@[pc],
                            )
                        };
                    assert(b2.graph.edges@[e] == b1.graph.edges@[e]);
                    assert(b2.graph.edge_live(e));
                }
            }
        }
    }

    /// Extension preserves full expansion of a node.
    proof fn lemma_extends_expanded(b1: Self, b2: Self, cfg: Config, u: int)
        requires
            Self::extends(b1, b2),
            b1.node_indices@.len() == b1.packages@.len(),
            0 <= u < b1.node_pkgs@.len(),
            u < b1.node_depths@.len(),
            b1.node_expanded(cfg, u),
        ensures
            b2.node_expanded(cfg, u),
    {
        let rw = choose|r: int|
            #![trigger b1.resolve@[r]]
            is_first_resolve(b1.resolve@, b1.packages@[b1.node_pkgs@[u] as int].id, r);
        assert(is_first_resolve(b2.resolve@, b2.packages@[b2.node_pkgs@[u] as int].id, rw));
        assert forall|r: int, d: int|
            (is_first_resolve(
                b2.resolve@,
                b2.packages@[b2.node_pkgs@[u] as int].id,
                r,
            ) && 0 <= d < b2.resolve@[r].deps@.len()) implies b2.dep_handled(
            cfg,
            u,
            #[trigger] b2.resolve@[r].deps@[d],
        ) by {
            assert(b1.dep_handled(cfg, u, b1.resolve@[r].deps@[d]));
            Self::lemma_extends_handled(b1, b2, cfg, u, b1.resolve@[r].deps@[d]);
        }
    }

    /// Start a build from a snapshot; fails when the snapshot carries
    /// no resolved dependency graph at all.
    pub fn new(metadata: Metadata) -> (r: Result<DepGraphBuilder, Error>)
        ensures
            match r {
                Ok(b) => {
                    &&& metadata.resolve is Some
                    &&& b.spec_packages() == metadata.packages@
                    &&& b.spec_members() == metadata.workspace_members@
                    &&& b.spec_resolve() == metadata.resolve.unwrap()@
                    &&& b.fresh()
                },
                Err(e) => e == Error::MissingResolve && metadata.resolve is None,
            },
    {
        let Metadata { workspace_members, packages, resolve } = metadata;
        let resolve = match resolve {
            Some(r) => r,
            None => {
                return Err(Error::MissingResolve);
            },
        };
        let n = packages.len();
        Ok(
            DepGraphBuilder {
                graph: DepGraph::new(),
                node_indices: vec![None; n],
                node_pkgs: Vec::new(),
                node_depths: Vec::new(),
                deps_add_queue: Vec::new(),
                queue_head: 0,
                workspace_members,
                packages,
                resolve,
                warnings: Vec::new(),
            },
        )
    }
}

/// Number of package slots not yet turned into nodes, among the first
/// `n`: the measure that shrinks with every node creation.
pub open spec fn count_vacant(s: Seq<Option<usize>>, n: int) -> nat
    decreases n,
{
    if n <= 0 {
        0
    } else {
        count_vacant(s, n - 1) + (if s[n - 1] is None {
            1nat
        } else {
            0nat
        })
    }
}

proof fn lemma_count_vacant_pos(s: Seq<Option<usize>>, idx: int, n: int)
    requires
        0 <= idx < n <= s.len(),
        s[idx] is None,
    ensures
        count_vacant(s, n) >= 1,
    decreases n,
{
    if idx < n - 1 {
        lemma_count_vacant_pos(s, idx, n - 1);
    }
}

proof fn lemma_count_vacant_update(s: Seq<Option<usize>>, idx: int, v: usize, n: int)
    requires
        0 <= idx < s.len(),
        s[idx] is None,
        0 <= n <= s.len(),
    ensures
        count_vacant(s.update(idx, Some(v)), n) == if idx < n {
            (count_vacant(s, n) - 1) as nat
        } else {
            count_vacant(s, n)
        },
    decreases n,
{
    if n > 0 {
        lemma_count_vacant_update(s, idx, v, n - 1);
        if idx < n - 1 {
            lemma_count_vacant_pos(s, idx, n - 1);
        }
    }
}

impl DepGraphBuilder {
    /// Creating one node for a fresh package slot — appended to the
    /// graph, both maps and the queue — preserves the standing
    /// well-formedness.
    #[verifier::spinoff_prover]
    #[verifier::rlimit(100)]
    proof fn lemma_create_node(b1: Self, b2: Self, cfg: Config, p: usize, depth: u64, is_member: bool, n: usize)
        requires
            b1.inv(cfg),
            n as int == b1.graph.nodes@.len(),
            depth as int <= n as int,
            match cfg.depth {
                Some(dl) => depth <= dl as u64,
                None => true,
            },
            (p as int) < b1.packages@.len(),
            b1.node_indices@[p as int] is None,
            is_first_pkg(b1.packages@, b1.packages@[p as int].id, p as int),
            is_member == id_in(b1.workspace_members@, b1.packages@[p as int].id),
            dep_name_passes(cfg, b1.packages@[p as int].name@) || (is_member && root_passes(
                cfg,
                b1.packages@[p as int],
            )),
            cfg.build_deps || !spec_is_proc_macro(b1.packages@[p as int]),
            cfg.workspace_only ==> is_member,
            b2.graph.nodes@ == b1.graph.nodes@.push(
                Some(Package::spec_new(b1.packages@[p as int], is_member)),
            ),
            b2.graph.edges@ == b1.graph.edges@,
            b2.node_pkgs@ == b1.node_pkgs@.push(p),
            b2.node_depths@ == b1.node_depths@.push(depth),
            b2.node_indices@ == b1.node_indices@.update(p as int, Some(n)),
            b2.deps_add_queue@ == b1.deps_add_queue@.push((p, depth)),
            b2.queue_head == b1.queue_head,
            b2.packages@ == b1.packages@,
            b2.resolve@ == b1.resolve@,
            b2.workspace_members@ == b1.workspace_members@,
        ensures
            b2.inv(cfg),
            Self::extends(b1, b2),
    {
        let ni = n as int;
        assert(Self::extends(b1, b2));
        assert forall|n2: int| 0 <= n2 < b2.graph.nodes@.len() implies #[trigger] b2.graph.node_live(
            n2,
        ) by {
            if n2 < ni {
                assert(b1.graph.node_live(n2));
                assert(b2.graph.nodes@[n2] == b1.graph.nodes@[n2]);
            } else {
                assert(b2.graph.nodes@[n2] == Some(
                    Package::spec_new(b1.packages@[p as int], is_member),
                ));
            }
        }
        assert forall|e: int| #[trigger] b2.graph.edge_live(e) implies b2.graph.node_live(
            b2.graph.edge_at(e).from as int,
        ) && b2.graph.node_live(b2.graph.edge_at(e).to as int) by {
            assert(b1.graph.edge_live(e));
            assert(b2.graph.edge_at(e) == b1.graph.edge_at(e));
        }
        assert forall|n2: int| 0 <= n2 < b2.node_pkgs@.len() implies is_first_pkg(
            b2.packages@,
            b2.packages@[(#[trigger] b2.node_pkgs@[n2]) as int].id,
            b2.node_pkgs@[n2] as int,
        ) && b2.node_indices@[b2.node_pkgs@[n2] as int] == Some(n2 as usize) by {
            if n2 < ni {
                assert(b2.node_pkgs@[n2] == b1.node_pkgs@[n2]);
                assert(is_first_pkg(
                    b1.packages@,
                    b1.packages@[b1.node_pkgs@[n2] as int].id,
                    b1.node_pkgs@[n2] as int,
                ));
                assert(b1.node_indices@[b1.node_pkgs@[n2] as int] == Some(n2 as usize));
                assert(b1.node_pkgs@[n2] as int != p as int);
                assert(b2.node_indices@[b1.node_pkgs@[n2] as int] == b1.node_indices@[b1.node_pkgs@[n2] as int]);
            } else {
                assert(n2 == ni);
                assert(b2.node_pkgs@[n2] == p);
                assert(b2.node_indices@[p as int] == Some(n));
            }
        }
        assert forall|p2: int|
            0 <= p2 < b2.node_indices@.len() && (#[trigger] b2.node_indices@[p2]) is Some implies {
            let n2 = b2.node_indices@[p2].unwrap() as int;
            0 <= n2 < b2.node_pkgs@.len() && b2.node_pkgs@[n2] as int == p2
        } by {
            if p2 != p as int {
                assert(b2.node_indices@[p2] == b1.node_indices@[p2]);
                let n2 = b1.node_indices@[p2].unwrap() as int;
                assert(0 <= n2 < b1.node_pkgs@.len());
                assert(b2.node_pkgs@[n2] == b1.node_pkgs@[n2]);
            } else {
                assert(b2.node_indices@[p2] == Some(n));
                assert(b2.node_pkgs@[ni] == p);
            }
        }
        assert forall|n2: int| 0 <= n2 < b2.node_pkgs@.len() implies {
            let pkg = b2.packages@[(#[trigger] b2.node_pkgs@[n2]) as int];
            let node = b2.graph.node_at(n2);
            &&& node.id == pkg.id
            &&& node.name == pkg.name
            &&& node.version == pkg.version
            &&& node.is_proc_macro == spec_is_proc_macro(pkg)
            &&& node.is_ws_member == id_in(b2.workspace_members@, pkg.id)
            &&& node.name_uses is None
            &&& node.dep_info == (if spec_is_proc_macro(pkg) {
                DepInfo { kind: DepKind::build_spec(), ..DepInfo::default_spec() }
            } else {
                DepInfo::default_spec()
            })
            &&& dep_name_passes(cfg, pkg.name@) || (node.is_ws_member && root_passes(cfg, pkg))
            &&& cfg.build_deps || !spec_is_proc_macro(pkg)
            &&& cfg.workspace_only ==> node.is_ws_member
        } by {
            if n2 < ni {
                assert(b2.node_pkgs@[n2] == b1.node_pkgs@[n2]);
                assert(b2.graph.nodes@[n2] == b1.graph.nodes@[n2]);
                assert(b1.graph.node_live(n2));
                assert(b2.graph.node_at(n2) == b1.graph.node_at(n2));
            } else {
                assert(n2 == ni);
                assert(b2.graph.nodes@[n2] == Some(
                    Package::spec_new(b1.packages@[p as int], is_member),
                ));
                assert(b2.graph.node_at(n2) == Package::spec_new(b1.packages@[p as int], is_member));
                assert(b2.node_pkgs@[n2] == p);
            }
        }
        assert forall|e: int| #[trigger] b2.graph.edge_live(e) implies b2.edge_justified(
            cfg,
            b2.graph.edge_at(e),
        ) by {
            assert(b1.graph.edge_live(e));
            assert(b2.graph.edge_at(e) == b1.graph.edge_at(e));
            let ed = b1.graph.edge_at(e);
            assert(b1.edge_justified(cfg, ed));
            let (r, d) = choose|r: int, d: int|
                #![trigger b1.resolve@[r].deps@[d]]
                {
                    &&& 0 <= r < b1.resolve@.len()
                    &&& 0 <= d < b1.resolve@[r].deps@.len()
                    &&& (ed.from as int) < b1.node_pkgs@.len()
                    &&& b1.packages@[b1.node_pkgs@[ed.from as int] as int].id == b1.resolve@[r].id
                    &&& b1.pair_justified(cfg, ed, b1.resolve@[r].deps@[d])
                };
            let dep = b1.resolve@[r].deps@[d];
            let k = choose|k: int|
                #![trigger dep.dep_kinds@[k]]
                {
                    &&& 0 <= k < dep.dep_kinds@.len()
                    &&& !skip_dep_spec(cfg, dep.dep_kinds@[k])
                    &&& !all_skipped(cfg, dep.dep_kinds@)
                    &&& exists|pc: int|
                        #![trigger b1.packages@[pc]]
                        {
                            &&& is_first_pkg(b1.packages@, dep.pkg, pc)
                            &&& b1.node_indices@[pc] == Some(ed.to)
                            &&& dep_name_passes(cfg, b1.packages@[pc].name@)
                            &&& ed.info == Self::constructed_info(
                                b1.packages@[b1.node_pkgs@[ed.from as int] as int].dependencies@,
                                dep.name@,
                                dep.dep_kinds@[k],
                                b1.packages@[pc],
                            )
                        }
                };
            let pc = choose|pc: int|
                #![trigger b1.packages@[pc]]
                {
                    &&& is_first_pkg(b1.packages@, dep.pkg, pc)
                    &&& b1.node_indices@[pc] == Some(ed.to)
                    &&& dep_name_passes(cfg, b1.packages@[pc].name@)
                    &&& ed.info == Self::constructed_info(
                        b1.packages@[b1.node_pkgs@[ed.from as int] as int].dependencies@,
                        dep.name@,
                        dep.dep_kinds@[k],
                        b1.packages@[pc],
                    )
                };
            assert(pc != p as int);
            assert(b2.node_indices@[pc] == b1.node_indices@[pc]);
            assert(b2.node_pkgs@[ed.from as int] == b1.node_pkgs@[ed.from as int]);
            assert(b2.pair_justified(cfg, ed, b2.resolve@[r].deps@[d]));
        }
        assert forall|k: int| 0 <= k < b2.deps_add_queue@.len() implies {
            let p2 = (#[trigger] b2.deps_add_queue@[k]).0 as int;
            &&& 0 <= p2 < b2.node_indices@.len()
            &&& b2.node_indices@[p2] is Some
            &&& b2.node_depths@[b2.node_indices@[p2].unwrap() as int] == b2.deps_add_queue@[k].1
        } by {
            if k < b1.deps_add_queue@.len() {
                assert(b2.deps_add_queue@[k] == b1.deps_add_queue@[k]);
                let p2 = b1.deps_add_queue@[k].0 as int;
                assert(b1.node_indices@[p2] is Some);
                assert(p2 != p as int);
                assert(b2.node_indices@[p2] == b1.node_indices@[p2]);
                let n2 = b1.node_indices@[p2].unwrap() as int;
                assert(0 <= n2 < b1.node_pkgs@.len());
                assert(b2.node_depths@[n2] == b1.node_depths@[n2]);
            } else {
                assert(b2.deps_add_queue@[k] == (p, depth));
                assert(b2.node_indices@[p as int] == Some(n));
                assert(b2.node_depths@[ni] == depth);
            }
        }
        assert forall|n2: int|
            0 <= n2 < b2.node_depths@.len() implies (match cfg.depth {
            Some(dl) => (#[trigger] b2.node_depths@[n2]) <= dl as u64,
            None => true,
        }) by {
            if n2 < ni {
                assert(b2.node_depths@[n2] == b1.node_depths@[n2]);
            } else {
                assert(b2.node_depths@[n2] == depth);
            }
        }
        assert forall|k1: int, k2: int|
            0 <= k1 < k2 < b2.deps_add_queue@.len() implies (
        #[trigger] b2.deps_add_queue@[k1]).0 != (#[trigger] b2.deps_add_queue@[k2]).0 by {
            if k2 < b1.deps_add_queue@.len() {
                assert(b2.deps_add_queue@[k1] == b1.deps_add_queue@[k1]);
                assert(b2.deps_add_queue@[k2] == b1.deps_add_queue@[k2]);
            } else {
                assert(b2.deps_add_queue@[k2] == (p, depth));
                assert(b2.deps_add_queue@[k1] == b1.deps_add_queue@[k1]);
                let p1 = b1.deps_add_queue@[k1].0 as int;
                assert(b1.node_indices@[p1] is Some);
                assert(p1 != p as int);
            }
        }
        assert forall|n2: int| 0 <= n2 < b2.node_pkgs@.len() implies b2.pkg_queued(
            (#[trigger] b2.node_pkgs@[n2]) as int,
        ) || b2.node_expanded(cfg, n2) by {
            if n2 < ni {
                if b1.pkg_queued(b1.node_pkgs@[n2] as int) {
                    let k = choose|k: int|
                        b1.queue_head <= k < b1.deps_add_queue@.len() && (
                        #[trigger] b1.deps_add_queue@[k]).0 as int == b1.node_pkgs@[n2] as int;
                    assert(b2.deps_add_queue@[k] == b1.deps_add_queue@[k]);
                    assert(b2.pkg_queued(b2.node_pkgs@[n2] as int));
                } else {
                    assert(b1.node_expanded(cfg, n2));
                    Self::lemma_extends_expanded(b1, b2, cfg, n2);
                }
            } else {
                assert(b2.deps_add_queue@[b2.deps_add_queue@.len() - 1].0 as int == p as int);
                assert(b2.pkg_queued(p as int));
            }
        }
    }

    /// Seed the graph with every workspace member that passes root
    /// filtering: exactly such members get a node, fixed as a workspace
    /// root, and enter the expansion queue once. Fails precisely when a
    /// member identity is absent from the package list, or a member
    /// whose package passes root filtering is listed twice.
    pub fn add_workspace_members(&mut self, config: &Config) -> (r: Result<(), Error>)
        requires
            old(self).fresh(),
        ensures
            final(self).spec_packages() == old(self).spec_packages(),
            final(self).spec_members() == old(self).spec_members(),
            final(self).spec_resolve() == old(self).spec_resolve(),
            match r {
                Ok(()) => {
                    &&& final(self).inv(*config)
                    &&& final(self).anchored(*config)
                    &&& members_resolved(final(self).spec_members(), final(self).spec_packages())
                    &&& !duplicate_member(
                        final(self).spec_members(),
                        final(self).spec_packages(),
                        *config,
                    )
                    &&& forall|w: int, p: int|
                        #![trigger final(self).spec_members()[w], final(self).node_of(p)]
                        0 <= w < final(self).spec_members().len() && is_first_pkg(
                            final(self).spec_packages(),
                            final(self).spec_members()[w],
                            p,
                        ) && root_passes(*config, final(self).spec_packages()[p])
                            ==> final(self).node_of(p) is Some
                    &&& final(self).roots_only(*config)
                },
                Err(e) => {
                    ||| (e == Error::PackageNotFound && !members_resolved(
                        old(self).spec_members(),
                        old(self).spec_packages(),
                    ))
                    ||| (e == Error::DuplicateWorkspaceMember && duplicate_member(
                        old(self).spec_members(),
                        old(self).spec_packages(),
                        *config,
                    ))
                },
            },
    {
        let n_members = self.workspace_members.len();
        let mut i: usize = 0;
        while i < n_members
            invariant
                self.inv(*config),
                self.queue_head == 0,
                n_members == self.workspace_members@.len(),
                i <= n_members,
                self.packages@ == old(self).spec_packages(),
                self.workspace_members@ == old(self).spec_members(),
                self.resolve@ == old(self).spec_resolve(),
                forall|w: int, p: int|
                    #![trigger self.workspace_members@[w], self.node_of(p)]
                    0 <= w < i && is_first_pkg(
                        self.packages@,
                        self.workspace_members@[w],
                        p,
                    ) && root_passes(*config, self.packages@[p]) ==> self.node_of(p) is Some,
                forall|w: int|
                    0 <= w < i ==> crate::metadata::spec_has_package(
                        self.packages@,
                        #[trigger] self.workspace_members@[w],
                    ),
                forall|n: int|
                    0 <= n < self.node_pkgs@.len() ==> #[trigger] self.rooted_node(
                        *config,
                        n,
                        i as int,
                    ),
                forall|i2: int, j2: int, p2: int|
                    #![trigger self.workspace_members@[i2], self.workspace_members@[j2], self.packages@[p2]]
                    0 <= i2 < j2 < i && self.workspace_members@[i2] == self.workspace_members@[j2]
                        && is_first_pkg(self.packages@, self.workspace_members@[i2], p2)
                        && root_passes(*config, self.packages@[p2]) ==> false,
            decreases n_members - i,
        {
            let ghost bpre = *self;
            let w = self.workspace_members[i];
            let p = match get_package(&self.packages, w) {
                Ok(p) => p,
                Err(e) => {
                    proof {
                        assert(self.workspace_members@[i as int] == w);
                        assert(!crate::metadata::spec_has_package(self.packages@, w));
                        assert(!members_resolved(self.workspace_members@, self.packages@));
                    }
                    return Err(e);
                },
            };
            let passes = check_root(config, &self.packages[p]);
            if passes {
                match self.node_indices[p] {
                    Some(_) => {
                        proof {
                            // the slot already has a node, so an earlier
                            // passing member carries the same identity
                            let n2 = self.node_indices@[p as int].unwrap() as int;
                            assert(0 <= n2 < self.node_pkgs@.len());
                            assert(self.node_pkgs@[n2] as int == p as int);
                            assert(self.rooted_node(*config, n2, i as int));
                            let w2 = choose|w2: int|
                                0 <= w2 < i as int && is_first_pkg(
                                    self.packages@,
                                    #[trigger] self.workspace_members@[w2],
                                    self.node_pkgs@[n2] as int,
                                ) && root_passes(
                                    *config,
                                    self.packages@[self.node_pkgs@[n2] as int],
                                ) && self.graph.node_at(n2).is_ws_member;
                            assert(self.workspace_members@[w2] == self.packages@[p as int].id);
                            assert(self.workspace_members@[i as int] == w);
                            assert(self.packages@[p as int].id == w);
                            assert(duplicate_member(
                                self.workspace_members@,
                                self.packages@,
                                *config,
                            ));
                        }
                        return Err(Error::DuplicateWorkspaceMember);
                    },
                    None => {},
                }
                let ghost b1 = *self;
                let pkg = Package::new(&self.packages[p], true);
                let node = self.graph.add_node(pkg);
                self.node_pkgs.push(p);
                self.node_depths.push(0);
                self.node_indices[p] = Some(node);
                self.deps_add_queue.push((p, 0));
                proof {
                    assert(id_in(self.workspace_members@, self.packages@[p as int].id)) by {
                        assert(self.workspace_members@[i as int] == w);
                    }
                    Self::lemma_create_node(b1, *self, *config, p, 0, true, node);
                }
            }
            proof {
                assert forall|w2: int, p2: int|
                    #![trigger self.workspace_members@[w2], self.node_of(p2)]
                    0 <= w2 < i + 1 && is_first_pkg(
                        self.packages@,
                        self.workspace_members@[w2],
                        p2,
                    ) && root_passes(*config, self.packages@[p2]) implies self.node_of(
                    p2,
                ) is Some by {
                    if w2 == i as int {
                        assert(self.workspace_members@[w2] == w);
                        assert(is_first_pkg(self.packages@, w, p as int));
                        if p2 < p as int {
                            assert(self.packages@[p2].id != w);
                        }
                        if p2 > p as int {
                            assert(self.packages@[p as int].id != w);
                        }
                        assert(p2 == p as int);
                        assert(passes);
                        assert(self.node_of(p2) is Some);
                    } else {
                        assert(bpre.node_of(p2) is Some);
                        if p2 == p as int {
                            assert(self.node_of(p2) is Some);
                        } else {
                            assert(self.node_of(p2) == bpre.node_of(p2));
                        }
                    }
                }
                assert forall|n2: int| 0 <= n2 < self.node_pkgs@.len() implies #[trigger] self.rooted_node(
                    *config,
                    n2,
                    i + 1,
                ) by {
                    if n2 < bpre.node_pkgs@.len() {
                        assert(bpre.rooted_node(*config, n2, i as int));
                        assert(self.node_pkgs@[n2] == bpre.node_pkgs@[n2]);
                        assert(self.graph.node_at(n2) == bpre.graph.node_at(n2));
                        Self::lemma_rooted_node_carries(bpre, *self, *config, n2, i as int, i + 1);
                    } else {
                        assert(passes);
                        assert(self.node_pkgs@[n2] == p);
                        assert(self.workspace_members@[i as int] == w);
                        assert(is_first_pkg(self.packages@, w, p as int));
                        assert(self.graph.node_at(n2) == Package::spec_new(
                            self.packages@[p as int],
                            true,
                        ));
                        assert(self.rooted_node(*config, n2, i + 1));
                    }
                }
                assert forall|i2: int, j2: int, p2: int|
                    #![trigger self.workspace_members@[i2], self.workspace_members@[j2], self.packages@[p2]]
                    0 <= i2 < j2 < i + 1 && self.workspace_members@[i2]
                        == self.workspace_members@[j2] && is_first_pkg(
                        self.packages@,
                        self.workspace_members@[i2],
                        p2,
                    ) && root_passes(*config, self.packages@[p2]) implies false by {
                    if j2 == i as int {
                        assert(self.workspace_members@[j2] == w);
                        assert(is_first_pkg(self.packages@, w, p as int));
                        lemma_first_pkg_unique(self.packages@, w, p2, p as int);
                        assert(p2 == p as int);
                        assert(passes);
                        // the earlier occurrence already seeded this slot
                        assert(bpre.node_of(p2) is Some);
                        assert(bpre.node_indices@[p as int] is None);
                    }
                }
            }
            i += 1;
        }
        proof {
            assert forall|n2: int| 0 <= n2 < self.node_pkgs@.len() implies #[trigger] self.rooted_node(
                *config,
                n2,
                self.workspace_members@.len() as int,
            ) by {
                assert(self.rooted_node(*config, n2, i as int));
                Self::lemma_rooted_node_carries(
                    *self,
                    *self,
                    *config,
                    n2,
                    i as int,
                    self.workspace_members@.len() as int,
                );
            }
            assert(self.roots_only(*config));
            Self::lemma_roots_only_anchored(*self, *config);
            assert(members_resolved(self.workspace_members@, self.packages@));
            if duplicate_member(self.workspace_members@, self.packages@, *config) {
                let (i2, j2, p2) = choose|i2: int, j2: int, p2: int|
                    #![trigger self.workspace_members@[i2], self.workspace_members@[j2], self.packages@[p2]]
                    {
                        &&& 0 <= i2 < j2 < self.workspace_members@.len()
                        &&& self.workspace_members@[i2] == self.workspace_members@[j2]
                        &&& is_first_pkg(self.packages@, self.workspace_members@[i2], p2)
                        &&& root_passes(*config, self.packages@[p2])
                    };
                assert(false);
            }
        }
        Ok(())
    }
}

impl DepGraphBuilder {
    /// The index pair of the first resolve entry and the justification
    /// data for a fresh edge: appending it preserves the standing
    /// well-formedness.
    #[verifier::rlimit(80)]
    proof fn lemma_add_edge(
        b1: Self,
        b2: Self,
        cfg: Config,
        u: usize,
        c: usize,
        pc: usize,
        rn: usize,
        d: int,
        k: int,
        info: DepInfo,
    )
        requires
            b1.inv(cfg),
            (u as int) < b1.node_pkgs@.len(),
            (rn as int) < b1.resolve@.len(),
            b1.resolve@[rn as int].id == b1.packages@[b1.node_pkgs@[u as int] as int].id,
            0 <= d < b1.resolve@[rn as int].deps@.len(),
            0 <= k < b1.resolve@[rn as int].deps@[d].dep_kinds@.len(),
            !skip_dep_spec(cfg, b1.resolve@[rn as int].deps@[d].dep_kinds@[k]),
            !all_skipped(cfg, b1.resolve@[rn as int].deps@[d].dep_kinds@),
            is_first_pkg(b1.packages@, b1.resolve@[rn as int].deps@[d].pkg, pc as int),
            b1.node_indices@[pc as int] == Some(c),
            dep_name_passes(cfg, b1.packages@[pc as int].name@),
            info == Self::constructed_info(
                b1.packages@[b1.node_pkgs@[u as int] as int].dependencies@,
                b1.resolve@[rn as int].deps@[d].name@,
                b1.resolve@[rn as int].deps@[d].dep_kinds@[k],
                b1.packages@[pc as int],
            ),
            b2.graph.nodes@ == b1.graph.nodes@,
            b2.graph.edges@ == b1.graph.edges@.push(Some((Edge { from: u, to: c, info }))),
            b2.node_indices@ == b1.node_indices@,
            b2.node_pkgs@ == b1.node_pkgs@,
            b2.node_depths@ == b1.node_depths@,
            b2.deps_add_queue@ == b1.deps_add_queue@,
            b2.queue_head == b1.queue_head,
            b2.packages@ == b1.packages@,
            b2.resolve@ == b1.resolve@,
            b2.workspace_members@ == b1.workspace_members@,
        ensures
            b2.inv(cfg),
            Self::extends(b1, b2),
            b2.graph.edge_live(b1.graph.edges@.len() as int),
            b2.graph.edge_at(b1.graph.edges@.len() as int) == (Edge { from: u, to: c, info }),
    {
        let ne = b1.graph.edges@.len() as int;
        assert(Self::extends(b1, b2));
        assert(b2.graph.edges@[ne] == Some(Edge { from: u, to: c, info }));
        assert(b2.graph.edge_live(ne));
        assert forall|e: int| #[trigger] b2.graph.edge_live(e) implies b2.graph.node_live(
            b2.graph.edge_at(e).from as int,
        ) && b2.graph.node_live(b2.graph.edge_at(e).to as int) by {
            if e < ne {
                assert(b2.graph.edges@[e] == b1.graph.edges@[e]);
                assert(b1.graph.edge_live(e));
            } else {
                assert(b2.graph.edge_at(e) == Edge { from: u, to: c, info });
                assert(b1.graph.node_live(u as int));
                let cn = b1.node_indices@[pc as int].unwrap() as int;
                assert(0 <= cn < b1.node_pkgs@.len());
                assert(b1.graph.node_live(c as int));
            }
        }
        assert forall|e: int| #[trigger] b2.graph.edge_live(e) implies b2.edge_justified(
            cfg,
            b2.graph.edge_at(e),
        ) by {
            if e < ne {
                assert(b2.graph.edges@[e] == b1.graph.edges@[e]);
                assert(b1.graph.edge_live(e));
                let ed = b1.graph.edge_at(e);
                assert(b1.edge_justified(cfg, ed));
                let (r2, d2) = choose|r2: int, d2: int|
                    #![trigger b1.resolve@[r2].deps@[d2]]
                    {
                        &&& 0 <= r2 < b1.resolve@.len()
                        &&& 0 <= d2 < b1.resolve@[r2].deps@.len()
                        &&& (ed.from as int) < b1.node_pkgs@.len()
                        &&& b1.packages@[b1.node_pkgs@[ed.from as int] as int].id == b1.resolve@[r2].id
                        &&& b1.pair_justified(cfg, ed, b1.resolve@[r2].deps@[d2])
                    };
                assert(b2.pair_justified(cfg, ed, b2.resolve@[r2].deps@[d2])) by {
                    let dep = b1.resolve@[r2].deps@[d2];
                    let k2 = choose|k2: int|
                        #![trigger dep.dep_kinds@[k2]]
                        {
                            &&& 0 <= k2 < dep.dep_kinds@.len()
                            &&& !skip_dep_spec(cfg, dep.dep_kinds@[k2])
                            &&& !all_skipped(cfg, dep.dep_kinds@)
                            &&& exists|pc2: int|
                                #![trigger b1.packages@[pc2]]
                                {
                                    &&& is_first_pkg(b1.packages@, dep.pkg, pc2)
                                    &&& b1.node_indices@[pc2] == Some(ed.to)
                                    &&& dep_name_passes(cfg, b1.packages@[pc2].name@)
                                    &&& ed.info == Self::constructed_info(
                                        b1.packages@[b1.node_pkgs@[ed.from as int] as int].dependencies@,
                                        dep.name@,
                                        dep.dep_kinds@[k2],
                                        b1.packages@[pc2],
                                    )
                                }
                        };
                    assert(dep.dep_kinds@[k2] == b2.resolve@[r2].deps@[d2].dep_kinds@[k2]);
                }
                assert(b2.edge_justified(cfg, b2.graph.edge_at(e)));
            } else {
                let ed = b2.graph.edge_at(e);
                assert(ed == Edge { from: u, to: c, info });
                assert(b2.pair_justified(cfg, ed, b2.resolve@[rn as int].deps@[d])) by {
                    let dep = b2.resolve@[rn as int].deps@[d];
                    assert(dep.dep_kinds@[k] == b1.resolve@[rn as int].deps@[d].dep_kinds@[k]);
                    assert(is_first_pkg(b2.packages@, dep.pkg, pc as int));
                    assert(b2.node_indices@[pc as int] == Some(ed.to));
                    assert(b2.packages@[pc as int] == b1.packages@[pc as int]);
                }
                assert(b2.edge_justified(cfg, ed));
            }
        }
        assert forall|n2: int| 0 <= n2 < b2.node_pkgs@.len() implies (#[trigger] b2.node_pkgs@[n2])
            == b1.node_pkgs@[n2] && b2.graph.node_at(n2) == b1.graph.node_at(n2)
            && b2.graph.node_live(n2) == b1.graph.node_live(n2) by {}
        assert forall|n2: int| 0 <= n2 < b2.graph.nodes@.len() implies #[trigger] b2.graph.node_live(
            n2,
        ) by {
            assert(b1.graph.node_live(n2));
        }
        assert forall|p2: int| 0 <= p2 < b2.node_indices@.len() implies (
        #[trigger] b2.node_indices@[p2]) == b1.node_indices@[p2] by {}
        assert forall|k2: int| 0 <= k2 < b2.deps_add_queue@.len() implies (
        #[trigger] b2.deps_add_queue@[k2]) == b1.deps_add_queue@[k2] by {}
        assert forall|n2: int| 0 <= n2 < b2.node_depths@.len() implies (
        #[trigger] b2.node_depths@[n2]) == b1.node_depths@[n2] by {}
        assert forall|n2: int| 0 <= n2 < b2.node_pkgs@.len() implies b2.pkg_queued(
            (#[trigger] b2.node_pkgs@[n2]) as int,
        ) || b2.node_expanded(cfg, n2) by {
            if b1.pkg_queued(b1.node_pkgs@[n2] as int) {
                assert(b2.pkg_queued(b2.node_pkgs@[n2] as int));
            } else {
                assert(b1.node_expanded(cfg, n2));
                Self::lemma_extends_expanded(b1, b2, cfg, n2);
            }
        }
    }
}

/// Two first positions for the same identity coincide.
proof fn lemma_first_pkg_unique(packages: Seq<PackageInfo>, id: u64, p1: int, p2: int)
    requires
        is_first_pkg(packages, id, p1),
        is_first_pkg(packages, id, p2),
    ensures
        p1 == p2,
{
    if p1 < p2 {
        assert(packages[p1].id != id);
    }
    if p2 < p1 {
        assert(packages[p2].id != id);
    }
}

/// Two first resolve positions for the same identity coincide.
proof fn lemma_first_resolve_unique(resolve: Seq<ResolveNode>, id: u64, r1: int, r2: int)
    requires
        is_first_resolve(resolve, id, r1),
        is_first_resolve(resolve, id, r2),
    ensures
        r1 == r2,
{
    if r1 < r2 {
        assert(resolve[r1].id != id);
    }
    if r2 < r1 {
        assert(resolve[r2].id != id);
    }
}

impl DepGraphBuilder {
    /// Every node of the graph has been fully expanded.
    pub open spec fn all_expanded(self, cfg: Config) -> bool {
        forall|n: int| 0 <= n < self.node_pkgs@.len() ==> #[trigger] self.node_expanded(cfg, n)
    }

    /// Drain the expansion queue: for each pending package, walk its
    /// resolved adjacency; entries whose pairs are all disabled or whose
    /// destination name is filtered out are dropped whole; otherwise the
    /// destination gets a node — unless it is outside the workspace in
    /// workspace-only mode, past the depth limit, or macro-executing
    /// with build-time dependencies off — and one edge is added per
    /// surviving pair, carrying the constructed record. Fails only when
    /// the snapshot is internally inconsistent: a referenced identity
    /// missing from the package list, or a package missing from the
    /// resolved adjacency.
    #[verifier::rlimit(100)]
    pub fn add_dependencies(&mut self, config: &Config) -> (r: Result<(), Error>)
        requires
            old(self).inv(*config),
            old(self).anchored(*config),
        ensures
            final(self).spec_packages() == old(self).spec_packages(),
            final(self).spec_members() == old(self).spec_members(),
            final(self).spec_resolve() == old(self).spec_resolve(),
            forall|p: int|
                0 <= p < old(self).spec_packages().len() && (#[trigger] old(self).node_of(
                    p,
                )) is Some ==> final(self).node_of(p) == old(self).node_of(p),
            match r {
                Ok(()) => final(self).inv(*config) && final(self).all_expanded(*config)
                    && final(self).anchored(*config),
                Err(e) => {
                    ||| (e == Error::PackageNotFound && missing_dep_package(
                        old(self).spec_packages(),
                        old(self).spec_resolve(),
                    ))
                    ||| (e == Error::ResolveNodeNotFound && missing_resolve_entry(
                        old(self).spec_packages(),
                        old(self).spec_resolve(),
                    ))
                },
            },
    {
        while self.queue_head < self.deps_add_queue.len()
            invariant
                self.inv(*config),
                self.anchored(*config),
                self.packages@ == old(self).spec_packages(),
                self.workspace_members@ == old(self).spec_members(),
                self.resolve@ == old(self).spec_resolve(),
                forall|p: int|
                    0 <= p < old(self).spec_packages().len() && (#[trigger] old(self).node_of(
                        p,
                    )) is Some ==> self.node_of(p) == old(self).node_of(p),
            decreases
                count_vacant(self.node_indices@, self.node_indices@.len() as int),
                self.deps_add_queue@.len() - self.queue_head,
        {
            let ghost bstart = *self;
            let (p, depth) = self.deps_add_queue[self.queue_head];
            proof {
                assert(self.deps_add_queue@[self.queue_head as int] == (p, depth));
                assert(self.node_indices@[p as int] is Some);
                assert(self.node_depths@[self.node_indices@[p as int].unwrap() as int] == depth);
            }
            let uopt = self.node_indices[p];
            proof {
                assert(uopt == self.node_indices@[p as int]);
            }
            let u = match uopt {
                Some(u) => u,
                None => {
                    // unreachable: queued packages always have a node
                    proof {
                        assert(false);
                    }
                    return Err(Error::PackageNotFound);
                },
            };
            let pid = self.packages[p].id;
            let rn = match find_resolve_node(&self.resolve, pid) {
                Ok(r2) => r2,
                Err(e) => {
                    proof {
                        assert((p as int) < self.packages@.len());
                        assert(self.packages@[p as int].id == pid);
                        assert(missing_resolve_entry(self.packages@, self.resolve@));
                    }
                    return Err(e);
                },
            };
            proof {
                assert(self.node_pkgs@[u as int] == p);
                assert(self.node_depths@[u as int] == depth);
                assert(is_first_resolve(self.resolve@, pid, rn as int));
            }
            let ndeps = self.resolve[rn].deps.len();
            let mut d: usize = 0;
            while d < ndeps
                invariant
                    self.inv(*config),
                    self.anchored(*config),
                    self.packages@ == old(self).spec_packages(),
                    self.workspace_members@ == old(self).spec_members(),
                    self.resolve@ == old(self).spec_resolve(),
                    forall|p2: int|
                        0 <= p2 < old(self).spec_packages().len() && (#[trigger] old(
                            self,
                        ).node_of(p2)) is Some ==> self.node_of(p2) == old(self).node_of(p2),
                    (p as int) < self.packages@.len(),
                    self.node_indices@[p as int] == Some(u),
                    (u as int) < self.node_pkgs@.len(),
                    self.node_pkgs@[u as int] == p,
                    self.node_depths@[u as int] == depth,
                    pid == self.packages@[p as int].id,
                    (rn as int) < self.resolve@.len(),
                    is_first_resolve(self.resolve@, pid, rn as int),
                    ndeps == self.resolve@[rn as int].deps@.len(),
                    d <= ndeps,
                    forall|d2: int|
                        0 <= d2 < d ==> self.dep_handled(
                            *config,
                            u as int,
                            #[trigger] self.resolve@[rn as int].deps@[d2],
                        ),
                    count_vacant(self.node_indices@, self.node_indices@.len() as int)
                        <= count_vacant(bstart.node_indices@, bstart.node_indices@.len() as int),
                    count_vacant(self.node_indices@, self.node_indices@.len() as int)
                        < count_vacant(bstart.node_indices@, bstart.node_indices@.len() as int)
                        || self.deps_add_queue@ == bstart.deps_add_queue@,
                    self.queue_head == bstart.queue_head,
                    self.queue_head < self.deps_add_queue@.len(),
                    self.deps_add_queue@[self.queue_head as int] == (p, depth),
                decreases ndeps - d,
            {
                let ghost bdep = *self;
                let dep_pkg_id = self.resolve[rn].deps[d].pkg;
                let all_sk = all_pairs_skipped(config, &self.resolve[rn].deps[d].dep_kinds);
                let pc = match get_package(&self.packages, dep_pkg_id) {
                    Ok(pc) => pc,
                    Err(e) => {
                        proof {
                            assert(self.resolve@[rn as int].deps@[d as int].pkg == dep_pkg_id);
                            assert(!crate::metadata::spec_has_package(
                                self.packages@,
                                self.resolve@[rn as int].deps@[d as int].pkg,
                            ));
                            assert(missing_dep_package(self.packages@, self.resolve@));
                        }
                        return Err(e);
                    },
                };
                let name_ok = check_dep_name(config, &self.packages[pc].name);
                if all_sk || !name_ok {
                    proof {
                        assert forall|pc2: int|
                            (is_first_pkg(self.packages@, dep_pkg_id, pc2) && dep_name_passes(
                                *config,
                                (#[trigger] self.packages@[pc2]).name@,
                            ) && !all_skipped(
                                *config,
                                self.resolve@[rn as int].deps@[d as int].dep_kinds@,
                            )) implies false by {
                            lemma_first_pkg_unique(self.packages@, dep_pkg_id, pc2, pc as int);
                        }
                        assert(self.dep_handled(
                            *config,
                            u as int,
                            self.resolve@[rn as int].deps@[d as int],
                        ));
                    }
                } else {
                    let child = match self.node_indices[pc] {
                        Some(c) => Some(c),
                        None => {
                            let is_member = contains_id(&self.workspace_members, dep_pkg_id);
                            proof {
                                assert(self.node_depths@[u as int] <= u as int);
                                assert((u as int) < self.node_pkgs@.len());
                            }
                            let depth_ok = match config.depth {
                                Some(dl) => depth < dl as u64,
                                None => true,
                            };
                            let pm = is_proc_macro(&self.packages[pc]);
                            if config.workspace_only && !is_member {
                                None
                            } else if !depth_ok {
                                None
                            } else if !config.build_deps && pm {
                                None
                            } else {
                                let ghost bw = *self;
                                if pm && is_also_lib(&self.packages[pc]) {
                                    self.warnings.push(
                                        Warning::AmbiguousProcMacro { package_id: dep_pkg_id },
                                    );
                                    proof {
                                        Self::lemma_inv_warnings(bw, *self, *config);
                                    }
                                }
                                let ghost b1 = *self;
                                let ghost dpre = self.node_indices@;
                                let nlen = self.node_pkgs.len();
                                proof {
                                    assert(self.node_depths@[u as int] <= u as int);
                                    assert((u as int) < nlen as int);
                                    assert(depth < u64::MAX);
                                }
                                let child_depth = depth + 1;
                                let pkg = Package::new(&self.packages[pc], is_member);
                                let cnode = self.graph.add_node(pkg);
                                self.node_pkgs.push(pc);
                                self.node_depths.push(child_depth);
                                self.node_indices[pc] = Some(cnode);
                                self.deps_add_queue.push((pc, child_depth));
                                proof {
                                    Self::lemma_create_node(
                                        b1,
                                        *self,
                                        *config,
                                        pc,
                                        child_depth,
                                        is_member,
                                        cnode,
                                    );
                                    lemma_count_vacant_pos(
                                        dpre,
                                        pc as int,
                                        dpre.len() as int,
                                    );
                                    lemma_count_vacant_update(
                                        dpre,
                                        pc as int,
                                        cnode,
                                        dpre.len() as int,
                                    );
                                    assert(Self::extends(bdep, *self));
                                    assert forall|n: int|
                                        0 <= n < self.node_pkgs@.len() implies (
                                    #[trigger] self.node_anchored(*config, n) || n
                                        == cnode as int) by {
                                        if n < bdep.node_pkgs@.len() {
                                            Self::lemma_node_anchored_extends(
                                                bdep,
                                                *self,
                                                *config,
                                                n,
                                            );
                                        }
                                    }
                                    assert forall|d2: int| 0 <= d2 < d implies self.dep_handled(
                                        *config,
                                        u as int,
                                        #[trigger] self.resolve@[rn as int].deps@[d2],
                                    ) by {
                                        assert(bdep.dep_handled(
                                            *config,
                                            u as int,
                                            bdep.resolve@[rn as int].deps@[d2],
                                        ));
                                        Self::lemma_extends_handled(
                                            bdep,
                                            *self,
                                            *config,
                                            u as int,
                                            bdep.resolve@[rn as int].deps@[d2],
                                        );
                                    }
                                }
                                Some(cnode)
                            }
                        },
                    };
                    match child {
                        None => {
                            proof {
                                assert forall|pc2: int|
                                    (is_first_pkg(self.packages@, dep_pkg_id, pc2)
                                        && dep_name_passes(
                                        *config,
                                        (#[trigger] self.packages@[pc2]).name@,
                                    ) && !all_skipped(
                                        *config,
                                        self.resolve@[rn as int].deps@[d as int].dep_kinds@,
                                    )) implies ({
                                    ||| ((*config).workspace_only && !id_in(
                                        self.workspace_members@,
                                        dep_pkg_id,
                                    ))
                                    ||| (!(*config).build_deps && spec_is_proc_macro(
                                        self.packages@[pc2],
                                    ))
                                    ||| (match (*config).depth {
                                        Some(dl) => self.node_depths@[u as int] + 1 > dl,
                                        None => false,
                                    })
                                }) by {
                                    lemma_first_pkg_unique(
                                        self.packages@,
                                        dep_pkg_id,
                                        pc2,
                                        pc as int,
                                    );
                                }
                                assert(self.dep_handled(
                                    *config,
                                    u as int,
                                    self.resolve@[rn as int].deps@[d as int],
                                ));
                            }
                        },
                        Some(c) => {
                            let npairs = self.resolve[rn].deps[d].dep_kinds.len();
                            let mut k: usize = 0;
                            while k < npairs
                                invariant
                                    self.inv(*config),
                                    self.packages@ == old(self).spec_packages(),
                                    self.workspace_members@ == old(self).spec_members(),
                                    self.resolve@ == old(self).spec_resolve(),
                                    forall|p2: int|
                                        0 <= p2 < old(self).spec_packages().len() && (
                                        #[trigger] old(self).node_of(p2)) is Some ==> self.node_of(
                                            p2,
                                        ) == old(self).node_of(p2),
                                    (p as int) < self.packages@.len(),
                                    self.node_indices@[p as int] == Some(u),
                                    (u as int) < self.node_pkgs@.len(),
                                    self.node_pkgs@[u as int] == p,
                                    self.node_depths@[u as int] == depth,
                                    pid == self.packages@[p as int].id,
                                    (rn as int) < self.resolve@.len(),
                                    is_first_resolve(self.resolve@, pid, rn as int),
                                    ndeps == self.resolve@[rn as int].deps@.len(),
                                    d < ndeps,
                                    npairs == self.resolve@[rn as int].deps@[d as int].dep_kinds@.len(),
                                    k <= npairs,
                                    Self::extends(bdep, *self),
                                    is_first_pkg(self.packages@, dep_pkg_id, pc as int),
                                    dep_pkg_id == self.resolve@[rn as int].deps@[d as int].pkg,
                                    dep_name_passes(*config, self.packages@[pc as int].name@),
                                    !all_skipped(
                                        *config,
                                        self.resolve@[rn as int].deps@[d as int].dep_kinds@,
                                    ),
                                    self.node_indices@[pc as int] == Some(c),
                                    forall|n: int|
                                        0 <= n < self.node_pkgs@.len() ==> (
                                        #[trigger] self.node_anchored(*config, n) || n
                                            == c as int),
                                    forall|d2: int|
                                        0 <= d2 < d ==> self.dep_handled(
                                            *config,
                                            u as int,
                                            #[trigger] self.resolve@[rn as int].deps@[d2],
                                        ),
                                    forall|k2: int|
                                        0 <= k2 < k && !skip_dep_spec(
                                            *config,
                                            #[trigger] self.resolve@[rn as int].deps@[d as int].dep_kinds@[k2],
                                        ) ==> exists|e: int|
                                            {
                                                &&& #[trigger] self.graph.edge_live(e)
                                                &&& self.graph.edge_at(e).from as int == u as int
                                                &&& Some(self.graph.edge_at(e).to)
                                                    == self.node_indices@[pc as int]
                                                &&& self.graph.edge_at(e).info
                                                    == Self::constructed_info(
                                                    self.packages@[p as int].dependencies@,
                                                    self.resolve@[rn as int].deps@[d as int].name@,
                                                    self.resolve@[rn as int].deps@[d as int].dep_kinds@[k2],
                                                    self.packages@[pc as int],
                                                )
                                            },
                                    count_vacant(
                                        self.node_indices@,
                                        self.node_indices@.len() as int,
                                    ) <= count_vacant(
                                        bstart.node_indices@,
                                        bstart.node_indices@.len() as int,
                                    ),
                                    count_vacant(
                                        self.node_indices@,
                                        self.node_indices@.len() as int,
                                    ) < count_vacant(
                                        bstart.node_indices@,
                                        bstart.node_indices@.len() as int,
                                    ) || self.deps_add_queue@ == bstart.deps_add_queue@,
                                    self.queue_head == bstart.queue_head,
                                    self.queue_head < self.deps_add_queue@.len(),
                                    self.deps_add_queue@[self.queue_head as int] == (p, depth),
                                decreases npairs - k,
                            {
                                let ghost bpair = *self;
                                let sk = skip_dep(config, &self.resolve[rn].deps[d].dep_kinds[k]);
                                if !sk {
                                    let found = find_dependency_spec(
                                        &self.packages[p].dependencies,
                                        &self.resolve[rn].deps[d].name,
                                        &self.resolve[rn].deps[d].dep_kinds[k],
                                    );
                                    let opt = match found {
                                        Some(j) => self.packages[p].dependencies[j].optional,
                                        None => {
                                            let ghost bw = *self;
                                            let dn = self.resolve[rn].deps[d].name.clone();
                                            self.warnings.push(
                                                Warning::DependencySpecNotFound {
                                                    package_id: pid,
                                                    dep_name: dn,
                                                },
                                            );
                                            proof {
                                                Self::lemma_inv_warnings(bw, *self, *config);
                                            }
                                            false
                                        },
                                    };
                                    proof {
                                        assert(opt == lookup_optional(
                                            self.packages@[p as int].dependencies@,
                                            self.resolve@[rn as int].deps@[d as int].name@,
                                            self.resolve@[rn as int].deps@[d as int].dep_kinds@[k as int],
                                        ));
                                    }
                                    let pm_child = is_proc_macro(&self.packages[pc]);
                                    let kind = DepKind::new(
                                        self.resolve[rn].deps[d].dep_kinds[k].kind,
                                        pm_child,
                                    );
                                    let is_target = self.resolve[rn].deps[d].dep_kinds[k]
                                        .target.is_some();
                                    let info = DepInfo {
                                        kind,
                                        is_target_dep: is_target,
                                        is_optional: opt,
                                        is_optional_direct: opt,
                                        visited: false,
                                    };
                                    let ghost b1 = *self;
                                    let ghost kprev = k as int;
                                    let _ = self.graph.add_edge(u, c, info);
                                    proof {
                                        Self::lemma_add_edge(
                                            b1,
                                            *self,
                                            *config,
                                            u,
                                            c,
                                            pc,
                                            rn,
                                            d as int,
                                            k as int,
                                            info,
                                        );
                                        Self::lemma_extends_trans(bdep, b1, *self);
                                        assert forall|n: int|
                                            0 <= n < self.node_pkgs@.len() implies (
                                        #[trigger] self.node_anchored(*config, n) || n
                                            == c as int) by {
                                            if n != c as int {
                                                assert(bpair.node_anchored(*config, n));
                                                assert(Self::extends(bpair, b1));
                                                Self::lemma_node_anchored_extends(
                                                    bpair,
                                                    b1,
                                                    *config,
                                                    n,
                                                );
                                                Self::lemma_node_anchored_extends(
                                                    b1,
                                                    *self,
                                                    *config,
                                                    n,
                                                );
                                            }
                                        }
                                        assert forall|d2: int| 0 <= d2 < d implies self.dep_handled(
                                            *config,
                                            u as int,
                                            #[trigger] self.resolve@[rn as int].deps@[d2],
                                        ) by {
                                            assert(b1.dep_handled(
                                                *config,
                                                u as int,
                                                b1.resolve@[rn as int].deps@[d2],
                                            ));
                                            Self::lemma_extends_handled(
                                                b1,
                                                *self,
                                                *config,
                                                u as int,
                                                b1.resolve@[rn as int].deps@[d2],
                                            );
                                        }
                                        let ghost ne = b1.graph.edges@.len() as int;
                                        assert forall|k2: int|
                                            0 <= k2 < k + 1 && !skip_dep_spec(
                                                *config,
                                                #[trigger] self.resolve@[rn as int].deps@[d as int].dep_kinds@[k2],
                                            ) implies exists|e: int|
                                            {
                                                &&& #[trigger] self.graph.edge_live(e)
                                                &&& self.graph.edge_at(e).from as int == u as int
                                                &&& Some(self.graph.edge_at(e).to)
                                                    == self.node_indices@[pc as int]
                                                &&& self.graph.edge_at(e).info
                                                    == Self::constructed_info(
                                                    self.packages@[p as int].dependencies@,
                                                    self.resolve@[rn as int].deps@[d as int].name@,
                                                    self.resolve@[rn as int].deps@[d as int].dep_kinds@[k2],
                                                    self.packages@[pc as int],
                                                )
                                            } by {
                                            if k2 < kprev {
                                                let e = choose|e: int|
                                                    {
                                                        &&& #[trigger] b1.graph.edge_live(e)
                                                        &&& b1.graph.edge_at(e).from as int
                                                            == u as int
                                                        &&& Some(b1.graph.edge_at(e).to)
                                                            == b1.node_indices@[pc as int]
                                                        &&& b1.graph.edge_at(e).info
                                                            == Self::constructed_info(
                                                            b1.packages@[p as int].dependencies@,
                                                            b1.resolve@[rn as int].deps@[d as int].name@,
                                                            b1.resolve@[rn as int].deps@[d as int].dep_kinds@[k2],
                                                            b1.packages@[pc as int],
                                                        )
                                                    };
                                                assert(self.graph.edges@[e]
                                                    == b1.graph.edges@[e]);
                                                assert(self.graph.edge_live(e));
                                            } else {
                                                assert(self.graph.edge_live(ne));
                                                assert(self.graph.edge_at(ne) == (Edge {
                                                    from: u,
                                                    to: c,
                                                    info,
                                                }));
                                            }
                                        }
                                    }
                                }
                                k += 1;
                            }
                            proof {
                                assert forall|pc2: int|
                                    (is_first_pkg(self.packages@, dep_pkg_id, pc2)
                                        && dep_name_passes(
                                        *config,
                                        (#[trigger] self.packages@[pc2]).name@,
                                    ) && !all_skipped(
                                        *config,
                                        self.resolve@[rn as int].deps@[d as int].dep_kinds@,
                                    )) implies (self.node_indices@[pc2] is Some && forall|k2: int|
                                    #![trigger self.resolve@[rn as int].deps@[d as int].dep_kinds@[k2]]
                                    0 <= k2 < self.resolve@[rn as int].deps@[d as int].dep_kinds@.len()
                                        && !skip_dep_spec(
                                        *config,
                                        self.resolve@[rn as int].deps@[d as int].dep_kinds@[k2],
                                    ) ==> exists|e: int|
                                        {
                                            &&& #[trigger] self.graph.edge_live(e)
                                            &&& self.graph.edge_at(e).from as int == u as int
                                            &&& Some(self.graph.edge_at(e).to)
                                                == self.node_indices@[pc2]
                                            &&& self.graph.edge_at(e).info
                                                == Self::constructed_info(
                                                self.packages@[self.node_pkgs@[u as int] as int].dependencies@,
                                                self.resolve@[rn as int].deps@[d as int].name@,
                                                self.resolve@[rn as int].deps@[d as int].dep_kinds@[k2],
                                                self.packages@[pc2],
                                            )
                                        }) by {
                                    lemma_first_pkg_unique(
                                        self.packages@,
                                        dep_pkg_id,
                                        pc2,
                                        pc as int,
                                    );
                                }
                                assert(self.dep_handled(
                                    *config,
                                    u as int,
                                    self.resolve@[rn as int].deps@[d as int],
                                ));
                                // the child is now anchored by one of the
                                // edges just added for a surviving pair
                                let k2 = choose|k2: int|
                                    0 <= k2 < self.resolve@[rn as int].deps@[d as int].dep_kinds@.len()
                                        && !skip_dep_spec(
                                        *config,
                                        #[trigger] self.resolve@[rn as int].deps@[d as int].dep_kinds@[k2],
                                    );
                                assert(self.graph.has_in_edge(c as int)) by {
                                    let e2 = choose|e2: int|
                                        {
                                            &&& #[trigger] self.graph.edge_live(e2)
                                            &&& self.graph.edge_at(e2).from as int == u as int
                                            &&& Some(self.graph.edge_at(e2).to)
                                                == self.node_indices@[pc as int]
                                            &&& self.graph.edge_at(e2).info
                                                == Self::constructed_info(
                                                self.packages@[p as int].dependencies@,
                                                self.resolve@[rn as int].deps@[d as int].name@,
                                                self.resolve@[rn as int].deps@[d as int].dep_kinds@[k2],
                                                self.packages@[pc as int],
                                            )
                                        };
                                    assert(self.graph.edge_at(e2).to == c);
                                }
                                assert(self.node_anchored(*config, c as int));
                                assert forall|n: int|
                                    0 <= n < self.node_pkgs@.len() implies #[trigger] self.node_anchored(
                                    *config,
                                    n,
                                ) by {}
                                assert(self.anchored(*config));
                            }
                        },
                    }
                }
                proof {
                    assert forall|d2: int| 0 <= d2 < d + 1 implies self.dep_handled(
                        *config,
                        u as int,
                        #[trigger] self.resolve@[rn as int].deps@[d2],
                    ) by {
                        if d2 < d {
                            assert(bdep.dep_handled(
                                *config,
                                u as int,
                                bdep.resolve@[rn as int].deps@[d2],
                            ));
                            assert(Self::extends(bdep, *self));
                            Self::lemma_extends_handled(
                                bdep,
                                *self,
                                *config,
                                u as int,
                                bdep.resolve@[rn as int].deps@[d2],
                            );
                        }
                    }
                }
                d += 1;
            }
            // the popped package is now fully expanded
            proof {
                assert forall|r2: int, d2: int|
                    (is_first_resolve(
                        self.resolve@,
                        self.packages@[self.node_pkgs@[u as int] as int].id,
                        r2,
                    ) && 0 <= d2 < self.resolve@[r2].deps@.len()) implies self.dep_handled(
                    *config,
                    u as int,
                    #[trigger] self.resolve@[r2].deps@[d2],
                ) by {
                    lemma_first_resolve_unique(self.resolve@, pid, r2, rn as int);
                }
                assert(is_first_resolve(
                    self.resolve@,
                    self.packages@[self.node_pkgs@[u as int] as int].id,
                    rn as int,
                ));
                assert(self.node_expanded(*config, u as int));
            }
            let ghost bdone = *self;
            self.queue_head = self.queue_head + 1;
            proof {
                Self::lemma_inv_warnings(
                    bdone,
                    Self { queue_head: bdone.queue_head, ..*self },
                    *config,
                );
                assert(Self::extends(bdone, *self));
                assert forall|n2: int| 0 <= n2 < self.node_pkgs@.len() implies self.pkg_queued(
                    (#[trigger] self.node_pkgs@[n2]) as int,
                ) || self.node_expanded(*config, n2) by {
                    if n2 == u as int {
                        assert(bdone.node_expanded(*config, u as int));
                        Self::lemma_extends_expanded(bdone, *self, *config, n2);
                    } else if bdone.pkg_queued(bdone.node_pkgs@[n2] as int) {
                        let kq = choose|kq: int|
                            bdone.queue_head <= kq < bdone.deps_add_queue@.len() && (
                            #[trigger] bdone.deps_add_queue@[kq]).0 as int
                                == bdone.node_pkgs@[n2] as int;
                        if kq == bdone.queue_head as int {
                            assert(bdone.deps_add_queue@[kq] == (p, depth));
                            assert(bdone.node_pkgs@[n2] as int == p as int);
                            assert(bdone.node_indices@[bdone.node_pkgs@[n2] as int] == Some(
                                n2 as usize,
                            ));
                            assert(bdone.node_indices@[p as int] == Some(u));
                            assert(n2 as usize == u);
                            assert(bdone.node_pkgs@.len()
                                == vstd::std_specs::vec::spec_vec_len(&bdone.node_pkgs));
                            assert(n2 <= usize::MAX);
                            assert(n2 == u as int);
                            assert(self.node_expanded(*config, n2)) by {
                                assert(bdone.node_expanded(*config, u as int));
                                Self::lemma_extends_expanded(bdone, *self, *config, n2);
                            }
                        } else {
                            assert(self.deps_add_queue@[kq] == bdone.deps_add_queue@[kq]);
                            assert(self.pkg_queued(self.node_pkgs@[n2] as int));
                        }
                    } else {
                        assert(bdone.node_expanded(*config, n2));
                        Self::lemma_extends_expanded(bdone, *self, *config, n2);
                    }
                }
                Self::lemma_pop_inv(bdone, *self, *config);
                assert forall|n2: int|
                    0 <= n2 < self.node_pkgs@.len() implies #[trigger] self.node_anchored(
                    *config,
                    n2,
                ) by {
                    assert(bdone.node_anchored(*config, n2));
                    Self::lemma_node_anchored_extends(bdone, *self, *config, n2);
                }
                assert(self.anchored(*config));
            }
        }
        proof {
            assert forall|n2: int| 0 <= n2 < self.node_pkgs@.len() implies #[trigger] self.node_expanded(
                *config,
                n2,
            ) by {
                // the queue is drained, so no package still waits in it
                if self.pkg_queued(self.node_pkgs@[n2] as int) {
                    assert(false);
                }
            }
        }
        Ok(())
    }

    /// The finished graph: building consumes the builder.
    pub fn into_graph(self) -> (r: DepGraph)
        ensures
            r == self.graph,
    {
        self.graph
    }
}

/// Build the whole annotated graph from a snapshot in one call: seed
/// the workspace roots that pass root filtering, then expand the queue
/// to exhaustion. On success the graph is well-formed, every node
/// carries the data of its package and passes the inclusion policy,
/// every node is anchored — a filtered-in root, or the target of an
/// edge — every edge is justified by one surviving pair of one
/// resolved adjacency entry with exactly the constructed record, and
/// every node has been fully expanded. Each failure is owed: the
/// snapshot lacks a resolve section, a referenced identity is missing,
/// a passing member repeats, or a package lacks a resolve entry — and
/// a snapshot with none of these faults builds successfully.
pub fn get_dep_graph(metadata: Metadata, config: &Config) -> (r: Result<DepGraph, Error>)
    ensures
        (r == Err::<DepGraph, Error>(Error::MissingResolve)) <==> metadata.resolve is None,
        match r {
            Ok(g) => exists|b: DepGraphBuilder|
                {
                    &&& (#[trigger] b.graph) == g
                    &&& metadata.resolve is Some
                    &&& b.packages@ == metadata.packages@
                    &&& b.workspace_members@ == metadata.workspace_members@
                    &&& b.resolve@ == metadata.resolve.unwrap()@
                    &&& b.inv(*config)
                    &&& b.all_expanded(*config)
                    &&& b.anchored(*config)
                    &&& forall|w: int, p: int|
                        #![trigger b.workspace_members@[w], b.node_indices@[p]]
                        0 <= w < b.workspace_members@.len() && is_first_pkg(
                            b.packages@,
                            b.workspace_members@[w],
                            p,
                        ) && root_passes(*config, b.packages@[p]) ==> b.node_indices@[p] is Some
                },
            Err(e) => {
                ||| (e == Error::MissingResolve && metadata.resolve is None)
                ||| (e == Error::PackageNotFound && (!members_resolved(
                    metadata.workspace_members@,
                    metadata.packages@,
                ) || (metadata.resolve is Some && missing_dep_package(
                    metadata.packages@,
                    metadata.resolve.unwrap()@,
                ))))
                ||| (e == Error::DuplicateWorkspaceMember && duplicate_member(
                    metadata.workspace_members@,
                    metadata.packages@,
                    *config,
                ))
                ||| (e == Error::ResolveNodeNotFound && metadata.resolve is Some
                    && missing_resolve_entry(metadata.packages@, metadata.resolve.unwrap()@))
            },
        },
{
    let mut builder = match DepGraphBuilder::new(metadata) {
        Ok(b) => b,
        Err(e) => {
            return Err(e);
        },
    };
    let ghost b0 = builder;
    match builder.add_workspace_members(config) {
        Ok(()) => {},
        Err(e) => {
            return Err(e);
        },
    }
    let ghost b1 = builder;
    match builder.add_dependencies(config) {
        Ok(()) => {},
        Err(e) => {
            return Err(e);
        },
    }
    proof {
        assert forall|w: int, p: int|
            #![trigger builder.workspace_members@[w], builder.node_indices@[p]]
            0 <= w < builder.workspace_members@.len() && is_first_pkg(
                builder.packages@,
                builder.workspace_members@[w],
                p,
            ) && root_passes(*config, builder.packages@[p]) implies builder.node_indices@[p] is Some by {
            assert(b1.node_of(p) is Some);
            assert(builder.node_of(p) == b1.node_of(p));
        }
    }
    let ghost bfinal = builder;
    let g = builder.into_graph();
    proof {
        assert((bfinal.graph) == g);
    }
    Ok(g)
}

} // verus!
