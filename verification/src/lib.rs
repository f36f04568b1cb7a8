//! Classifies every package in a resolved dependency graph by when and
//! where it actually executes during a build — on the host machine, on
//! the target machine, unconditionally or only under test — and reduces
//! the graph to a requested view: focused, with hidden packages swept
//! away, and with direct edges shadowed by longer routes removed.

use vstd::prelude::*;

pub mod builder;
pub mod config;
pub mod dedup;
pub mod dep_info;
pub mod error;
pub mod graph;
pub mod metadata;
pub mod package;
pub mod propagate;
pub mod prune;
pub mod stats;
pub mod util;

use crate::config::Config;
use crate::error::Error;
use crate::graph::DepGraph;
use crate::metadata::Metadata;

verus! {

/// The graph a builder left behind for this snapshot and configuration.
pub open spec fn built_ok(metadata: Metadata, cfg: Config, g: DepGraph) -> bool {
    exists|b: builder::DepGraphBuilder|
        {
            &&& (#[trigger] b.graph) == g
            &&& metadata.resolve is Some
            &&& b.packages@ == metadata.packages@
            &&& b.workspace_members@ == metadata.workspace_members@
            &&& b.resolve@ == metadata.resolve.unwrap()@
            &&& b.inv(cfg)
            &&& b.all_expanded(cfg)
            &&& b.anchored(cfg)
            &&& forall|w: int, p: int|
                #![trigger b.workspace_members@[w], b.node_indices@[p]]
                0 <= w < b.workspace_members@.len() && builder::is_first_pkg(
                    b.packages@,
                    b.workspace_members@[w],
                    p,
                ) && builder::root_passes(cfg, b.packages@[p]) ==> b.node_indices@[p] is Some
        }
}

/// The focus sweep ran exactly when a focus set was given.
pub open spec fn prune_focus_step(cfg: Config, before: DepGraph, after: DepGraph) -> bool {
    if cfg.focus@.len() > 0 {
        prune::irrelevant_pruned(before, after, cfg.focus@)
    } else {
        after == before
    }
}

/// The hide sweep ran exactly when a hide set was given.
pub open spec fn prune_hide_step(cfg: Config, before: DepGraph, after: DepGraph) -> bool {
    if cfg.hide@.len() > 0 {
        prune::named_pruned(before, after, cfg.hide@)
    } else {
        after == before
    }
}

/// The transitive dedup ran exactly when asked for.
pub open spec fn dedup_step(cfg: Config, before: DepGraph, after: DepGraph) -> bool {
    if cfg.dedup_transitive_deps {
        dedup::deduped(before, after)
    } else {
        after == before
    }
}

/// What the full pipeline guarantees of its result: some graph was
/// built from the snapshot, propagation resolved every classification
/// on it, the two reductions and the dedup ran exactly when the
/// configuration asked for them, and the naming post-pass annotated the
/// final graph.
pub open spec fn pipeline_ok(metadata: Metadata, cfg: Config, out: DepGraph) -> bool {
    exists|g1: DepGraph|
        {
            &&& #[trigger] built_ok(metadata, cfg, g1)
            &&& exists|g2: DepGraph|
                {
                    &&& #[trigger] propagate::propagated(g1, g2)
                    &&& propagate::resolved(g2)
                    &&& exists|g3: DepGraph|
                        {
                            &&& (#[trigger] prune_focus_step(cfg, g2, g3))
                            &&& exists|g4: DepGraph|
                                {
                                    &&& (#[trigger] prune_hide_step(cfg, g3, g4))
                                    &&& exists|g5: DepGraph|
                                        {
                                            &&& (#[trigger] dedup_step(cfg, g4, g5))
                                            &&& stats::stats_set(g5, out)
                                        }
                                }
                        }
                }
        }
}

/// Run the whole pipeline on a snapshot: build the graph, resolve every
/// classification, prune to the requested view, drop shadowed direct
/// edges, and annotate duplicate names. Fails only on an internally
/// inconsistent snapshot, or when the incoming-edge chains never ground
/// out in workspace roots.
pub fn analyze(metadata: Metadata, config: &Config) -> (r: Result<DepGraph, Error>)
    ensures
        (r == Err::<DepGraph, Error>(Error::MissingResolve)) <==> metadata.resolve is None,
        match r {
            Ok(out) => pipeline_ok(metadata, *config, out),
            Err(e) => {
                ||| (e == Error::MissingResolve && metadata.resolve is None)
                ||| (e == Error::PackageNotFound && (!builder::members_resolved(
                    metadata.workspace_members@,
                    metadata.packages@,
                ) || (metadata.resolve is Some && builder::missing_dep_package(
                    metadata.packages@,
                    metadata.resolve.unwrap()@,
                ))))
                ||| (e == Error::DuplicateWorkspaceMember && builder::duplicate_member(
                    metadata.workspace_members@,
                    metadata.packages@,
                    *config,
                ))
                ||| (e == Error::ResolveNodeNotFound && metadata.resolve is Some
                    && builder::missing_resolve_entry(
                    metadata.packages@,
                    metadata.resolve.unwrap()@,
                ))
                ||| (e == Error::CyclicDependencies && (exists|g1: DepGraph|
                    #[trigger] built_ok(metadata, *config, g1) && (exists|i: int|
                        #[trigger] g1.node_live(i) && !propagate::grounded(g1, i))))
            },
        },
{
    let mut graph = match builder::get_dep_graph(metadata, config) {
        Ok(g) => g,
        Err(e) => {
            return Err(e);
        },
    };
    let ghost g1 = graph;
    proof {
        let b = choose|b: builder::DepGraphBuilder|
            {
                &&& (#[trigger] b.graph) == g1
                &&& metadata.resolve is Some
                &&& b.packages@ == metadata.packages@
                &&& b.workspace_members@ == metadata.workspace_members@
                &&& b.resolve@ == metadata.resolve.unwrap()@
                &&& b.inv(*config)
                &&& b.all_expanded(*config)
                &&& b.anchored(*config)
                &&& forall|w: int, p: int|
                    #![trigger b.workspace_members@[w], b.node_indices@[p]]
                    0 <= w < b.workspace_members@.len() && builder::is_first_pkg(
                        b.packages@,
                        b.workspace_members@[w],
                        p,
                    ) && builder::root_passes(*config, b.packages@[p]) ==> b.node_indices@[p] is Some
            };
        assert(built_ok(metadata, *config, g1));
        assert(g1.wf());
    }
    match propagate::update_dep_info(&mut graph) {
        Ok(()) => {},
        Err(e) => {
            proof {
                // every built node is anchored, so a live non-root
                // always has an incoming edge: that error cannot arise
                let b = choose|b: builder::DepGraphBuilder|
                    {
                        &&& (#[trigger] b.graph) == g1
                        &&& b.inv(*config)
                        &&& b.anchored(*config)
                    };
                assert forall|i: int|
                    #[trigger] g1.node_live(i) && !g1.node_at(i).is_ws_member implies g1.has_in_edge(
                    i,
                ) by {
                    assert(0 <= i < b.node_pkgs@.len());
                    assert(b.node_anchored(*config, i));
                }
                assert(e != Error::MissingIncomingEdge);
                assert(e == Error::CyclicDependencies);
                assert(exists|i: int|
                    #[trigger] g1.node_live(i) && !propagate::grounded(g1, i));
                assert(built_ok(metadata, *config, g1));
            }
            return Err(e);
        },
    }
    let ghost g2 = graph;
    if config.focus.len() > 0 {
        prune::remove_irrelevant_deps(&mut graph, &config.focus);
    }
    let ghost g3 = graph;
    if config.hide.len() > 0 {
        prune::remove_deps(&mut graph, &config.hide);
    }
    let ghost g4 = graph;
    if config.dedup_transitive_deps {
        dedup::dedup_transitive_deps(&mut graph);
    }
    let ghost g5 = graph;
    stats::set_name_stats(&mut graph);
    proof {
        assert(prune_focus_step(*config, g2, g3));
        assert(prune_hide_step(*config, g3, g4));
        assert(dedup_step(*config, g4, g5));
        assert(stats::stats_set(g5, graph));
        assert(pipeline_ok(metadata, *config, graph));
    }
    Ok(graph)
}

} // verus!
