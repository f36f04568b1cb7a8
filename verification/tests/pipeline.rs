//! End-to-end tests of the graph pipeline: building, propagation,
//! reduction, dedup and naming, on small hand-written snapshots.

use cargo_depgraph::analyze;
use cargo_depgraph::config::Config;
use cargo_depgraph::dep_info::{BuildFlag, DeclaredKind, DepInfo, DepKind};
use cargo_depgraph::error::Error;
use cargo_depgraph::graph::{DepGraph, Edge};
use cargo_depgraph::metadata::{
    DepKindInfo, DependencySpec, Metadata, PackageInfo, ResolveNode, ResolvedDep,
};
use cargo_depgraph::package::Package;
use cargo_depgraph::propagate::update_dep_info;
use cargo_depgraph::stats::set_name_stats;

fn pkg(id: u64, name: &str, deps: Vec<DependencySpec>) -> PackageInfo {
    PackageInfo {
        id,
        name: name.to_string(),
        version: "1.0.0".to_string(),
        dependencies: deps,
        target_kinds: vec![vec!["lib".to_string()]],
    }
}

fn proc_macro_pkg(id: u64, name: &str) -> PackageInfo {
    PackageInfo {
        id,
        name: name.to_string(),
        version: "1.0.0".to_string(),
        dependencies: Vec::new(),
        target_kinds: vec![vec!["proc-macro".to_string()]],
    }
}

fn dspec(name: &str, kind: DeclaredKind, optional: bool) -> DependencySpec {
    DependencySpec { name: name.to_string(), rename: None, kind, optional, target: None }
}

fn rdep(dest: u64, name: &str, kinds: Vec<DeclaredKind>) -> ResolvedDep {
    ResolvedDep {
        pkg: dest,
        name: name.to_string(),
        dep_kinds: kinds.into_iter().map(|kind| DepKindInfo { kind, target: None }).collect(),
    }
}

fn find_node<'a>(g: &'a DepGraph, name: &str) -> Option<&'a Package> {
    g.nodes.iter().flatten().find(|p| p.name == name)
}

fn live_nodes(g: &DepGraph) -> usize {
    g.nodes.iter().flatten().count()
}

fn live_edges(g: &DepGraph) -> Vec<Edge> {
    g.edges.iter().flatten().cloned().collect()
}

fn node_slot(g: &DepGraph, name: &str) -> usize {
    g.nodes
        .iter()
        .position(|n| n.as_ref().map(|p| p.name == name).unwrap_or(false))
        .unwrap()
}

#[test]
fn chain_of_normal_dependencies_resolves_to_normal() {
    // root —normal→ a —normal→ b
    let metadata = Metadata {
        workspace_members: vec![1],
        packages: vec![
            pkg(1, "root", vec![dspec("a", DeclaredKind::Normal, false)]),
            pkg(2, "a", vec![dspec("b", DeclaredKind::Normal, false)]),
            pkg(3, "b", vec![]),
        ],
        resolve: Some(vec![
            ResolveNode { id: 1, deps: vec![rdep(2, "a", vec![DeclaredKind::Normal])] },
            ResolveNode { id: 2, deps: vec![rdep(3, "b", vec![DeclaredKind::Normal])] },
            ResolveNode { id: 3, deps: vec![] },
        ]),
    };
    let g = analyze(metadata, &Config::new()).unwrap();
    let b = find_node(&g, "b").unwrap();
    assert_eq!(b.dep_info.kind, DepKind::normal());
    assert_eq!(b.dep_info.kind.host, BuildFlag::Never);
    assert_eq!(b.dep_info.kind.target, BuildFlag::Always);
    let a = find_node(&g, "a").unwrap();
    assert_eq!(a.dep_info.kind, DepKind::normal());
    let root = find_node(&g, "root").unwrap();
    assert!(root.is_ws_member);
    // the root's classification is fixed at creation and never altered
    assert_eq!(root.dep_info, DepInfo::default());
}

#[test]
fn build_context_is_inherited_host_only() {
    // root —build→ a —normal→ b: b ends up build-time
    let metadata = Metadata {
        workspace_members: vec![1],
        packages: vec![
            pkg(1, "root", vec![dspec("a", DeclaredKind::Build, false)]),
            pkg(2, "a", vec![dspec("b", DeclaredKind::Normal, false)]),
            pkg(3, "b", vec![]),
        ],
        resolve: Some(vec![
            ResolveNode { id: 1, deps: vec![rdep(2, "a", vec![DeclaredKind::Build])] },
            ResolveNode { id: 2, deps: vec![rdep(3, "b", vec![DeclaredKind::Normal])] },
            ResolveNode { id: 3, deps: vec![] },
        ]),
    };
    let mut cfg = Config::new();
    cfg.build_deps = true;
    let g = analyze(metadata, &cfg).unwrap();
    let b = find_node(&g, "b").unwrap();
    assert_eq!(b.dep_info.kind, DepKind::build());
    assert_eq!(b.dep_info.kind.host, BuildFlag::Always);
    assert_eq!(b.dep_info.kind.target, BuildFlag::Never);
    assert_eq!(find_node(&g, "a").unwrap().dep_info.kind, DepKind::build());
}

#[test]
fn macro_executing_package_is_forced_to_build_time() {
    // root —normal→ p, where p is macro-executing
    let metadata = Metadata {
        workspace_members: vec![1],
        packages: vec![
            pkg(1, "root", vec![dspec("p", DeclaredKind::Normal, false)]),
            proc_macro_pkg(2, "p"),
        ],
        resolve: Some(vec![
            ResolveNode { id: 1, deps: vec![rdep(2, "p", vec![DeclaredKind::Normal])] },
            ResolveNode { id: 2, deps: vec![] },
        ]),
    };
    let mut cfg = Config::new();
    cfg.build_deps = true;
    let g = analyze(metadata, &cfg).unwrap();
    let p = find_node(&g, "p").unwrap();
    assert!(p.is_proc_macro);
    assert_eq!(p.dep_info.kind, DepKind::build());
}

#[test]
fn macro_executing_package_is_skipped_without_build_deps() {
    let metadata = Metadata {
        workspace_members: vec![1],
        packages: vec![
            pkg(1, "root", vec![dspec("p", DeclaredKind::Normal, false)]),
            proc_macro_pkg(2, "p"),
        ],
        resolve: Some(vec![
            ResolveNode { id: 1, deps: vec![rdep(2, "p", vec![DeclaredKind::Normal])] },
            ResolveNode { id: 2, deps: vec![] },
        ]),
    };
    let g = analyze(metadata, &Config::new()).unwrap();
    assert!(find_node(&g, "p").is_none());
    assert!(find_node(&g, "root").is_some());
}

#[test]
fn focus_prunes_every_other_leaf() {
    // root —normal→ a, root —normal→ b; focused on "a"
    let metadata = Metadata {
        workspace_members: vec![1],
        packages: vec![
            pkg(
                1,
                "root",
                vec![
                    dspec("a", DeclaredKind::Normal, false),
                    dspec("b", DeclaredKind::Normal, false),
                ],
            ),
            pkg(2, "a", vec![]),
            pkg(3, "b", vec![]),
        ],
        resolve: Some(vec![
            ResolveNode {
                id: 1,
                deps: vec![
                    rdep(2, "a", vec![DeclaredKind::Normal]),
                    rdep(3, "b", vec![DeclaredKind::Normal]),
                ],
            },
            ResolveNode { id: 2, deps: vec![] },
            ResolveNode { id: 3, deps: vec![] },
        ]),
    };
    let mut cfg = Config::new();
    cfg.focus = vec!["a".to_string()];
    let g = analyze(metadata, &cfg).unwrap();
    assert!(find_node(&g, "a").is_some());
    assert!(find_node(&g, "b").is_none());
    assert!(find_node(&g, "root").is_some());
    // no surviving non-root leaf is named anything but "a"
    for p in g.nodes.iter().flatten() {
        if !p.is_ws_member {
            assert_eq!(p.name, "a");
        }
    }
}

#[test]
fn dedup_removes_the_shadowed_direct_edge() {
    // root→a, a→c, root→c: the direct root→c edge goes away
    let metadata = Metadata {
        workspace_members: vec![1],
        packages: vec![
            pkg(
                1,
                "root",
                vec![
                    dspec("a", DeclaredKind::Normal, false),
                    dspec("c", DeclaredKind::Normal, false),
                ],
            ),
            pkg(2, "a", vec![dspec("c", DeclaredKind::Normal, false)]),
            pkg(3, "c", vec![]),
        ],
        resolve: Some(vec![
            ResolveNode {
                id: 1,
                deps: vec![
                    rdep(2, "a", vec![DeclaredKind::Normal]),
                    rdep(3, "c", vec![DeclaredKind::Normal]),
                ],
            },
            ResolveNode { id: 2, deps: vec![rdep(3, "c", vec![DeclaredKind::Normal])] },
            ResolveNode { id: 3, deps: vec![] },
        ]),
    };
    let mut cfg = Config::new();
    cfg.dedup_transitive_deps = true;
    let g = analyze(metadata, &cfg).unwrap();
    let root = node_slot(&g, "root");
    let a = node_slot(&g, "a");
    let c = node_slot(&g, "c");
    let edges = live_edges(&g);
    assert_eq!(edges.len(), 2);
    assert!(edges.iter().any(|e| e.from == root && e.to == a));
    assert!(edges.iter().any(|e| e.from == a && e.to == c));
    assert!(!edges.iter().any(|e| e.from == root && e.to == c));
}

#[test]
fn hiding_a_package_sweeps_its_orphans_too() {
    // root→x→y, hide x: both x and y disappear, the root stays
    let metadata = Metadata {
        workspace_members: vec![1],
        packages: vec![
            pkg(1, "root", vec![dspec("x", DeclaredKind::Normal, false)]),
            pkg(2, "x", vec![dspec("y", DeclaredKind::Normal, false)]),
            pkg(3, "y", vec![]),
        ],
        resolve: Some(vec![
            ResolveNode { id: 1, deps: vec![rdep(2, "x", vec![DeclaredKind::Normal])] },
            ResolveNode { id: 2, deps: vec![rdep(3, "y", vec![DeclaredKind::Normal])] },
            ResolveNode { id: 3, deps: vec![] },
        ]),
    };
    let mut cfg = Config::new();
    cfg.hide = vec!["x".to_string()];
    let g = analyze(metadata, &cfg).unwrap();
    assert!(find_node(&g, "x").is_none());
    assert!(find_node(&g, "y").is_none());
    assert!(find_node(&g, "root").is_some());
}

#[test]
fn hidden_orphan_survives_when_it_is_a_root_itself() {
    // root→x→y where y is also a workspace member: y survives the sweep
    let metadata = Metadata {
        workspace_members: vec![1, 3],
        packages: vec![
            pkg(1, "root", vec![dspec("x", DeclaredKind::Normal, false)]),
            pkg(2, "x", vec![dspec("y", DeclaredKind::Normal, false)]),
            pkg(3, "y", vec![]),
        ],
        resolve: Some(vec![
            ResolveNode { id: 1, deps: vec![rdep(2, "x", vec![DeclaredKind::Normal])] },
            ResolveNode { id: 2, deps: vec![rdep(3, "y", vec![DeclaredKind::Normal])] },
            ResolveNode { id: 3, deps: vec![] },
        ]),
    };
    let mut cfg = Config::new();
    cfg.hide = vec!["x".to_string()];
    let g = analyze(metadata, &cfg).unwrap();
    assert!(find_node(&g, "x").is_none());
    assert!(find_node(&g, "y").is_some());
    assert!(find_node(&g, "root").is_some());
}

#[test]
fn exclusion_and_allowlist_filters_apply() {
    let metadata = Metadata {
        workspace_members: vec![1],
        packages: vec![
            pkg(
                1,
                "root",
                vec![
                    dspec("a", DeclaredKind::Normal, false),
                    dspec("b", DeclaredKind::Normal, false),
                ],
            ),
            pkg(2, "a", vec![]),
            pkg(3, "b", vec![]),
        ],
        resolve: Some(vec![
            ResolveNode {
                id: 1,
                deps: vec![
                    rdep(2, "a", vec![DeclaredKind::Normal]),
                    rdep(3, "b", vec![DeclaredKind::Normal]),
                ],
            },
            ResolveNode { id: 2, deps: vec![] },
            ResolveNode { id: 3, deps: vec![] },
        ]),
    };
    let mut cfg = Config::new();
    cfg.exclude = vec!["b".to_string()];
    let g = analyze(
        Metadata {
            workspace_members: metadata.workspace_members.clone(),
            packages: metadata.packages.clone(),
            resolve: metadata.resolve.clone(),
        },
        &cfg,
    )
    .unwrap();
    assert!(find_node(&g, "a").is_some());
    assert!(find_node(&g, "b").is_none());

    let mut cfg = Config::new();
    cfg.only = vec!["root".to_string(), "b".to_string()];
    let g = analyze(metadata, &cfg).unwrap();
    assert!(find_node(&g, "a").is_none());
    assert!(find_node(&g, "b").is_some());
}

#[test]
fn depth_limit_stops_the_expansion() {
    let metadata = Metadata {
        workspace_members: vec![1],
        packages: vec![
            pkg(1, "root", vec![dspec("a", DeclaredKind::Normal, false)]),
            pkg(2, "a", vec![dspec("b", DeclaredKind::Normal, false)]),
            pkg(3, "b", vec![]),
        ],
        resolve: Some(vec![
            ResolveNode { id: 1, deps: vec![rdep(2, "a", vec![DeclaredKind::Normal])] },
            ResolveNode { id: 2, deps: vec![rdep(3, "b", vec![DeclaredKind::Normal])] },
            ResolveNode { id: 3, deps: vec![] },
        ]),
    };
    let mut cfg = Config::new();
    cfg.depth = Some(1);
    let g = analyze(metadata, &cfg).unwrap();
    assert!(find_node(&g, "a").is_some());
    assert!(find_node(&g, "b").is_none());
}

#[test]
fn dev_dependencies_need_the_dev_flag() {
    let metadata = Metadata {
        workspace_members: vec![1],
        packages: vec![
            pkg(1, "root", vec![dspec("d", DeclaredKind::Development, false)]),
            pkg(2, "d", vec![]),
        ],
        resolve: Some(vec![
            ResolveNode { id: 1, deps: vec![rdep(2, "d", vec![DeclaredKind::Development])] },
            ResolveNode { id: 2, deps: vec![] },
        ]),
    };
    let g = analyze(
        Metadata {
            workspace_members: metadata.workspace_members.clone(),
            packages: metadata.packages.clone(),
            resolve: metadata.resolve.clone(),
        },
        &Config::new(),
    )
    .unwrap();
    assert!(find_node(&g, "d").is_none());

    let mut cfg = Config::new();
    cfg.dev_deps = true;
    let g = analyze(metadata, &cfg).unwrap();
    let d = find_node(&g, "d").unwrap();
    assert_eq!(d.dep_info.kind, DepKind::dev());
}

#[test]
fn optional_flag_is_recovered_through_a_rename() {
    // the root declares "fancy" renamed to "plain", optional
    let metadata = Metadata {
        workspace_members: vec![1],
        packages: vec![
            pkg(
                1,
                "root",
                vec![DependencySpec {
                    name: "fancy".to_string(),
                    rename: Some("plain".to_string()),
                    kind: DeclaredKind::Normal,
                    optional: true,
                    target: None,
                }],
            ),
            pkg(2, "fancy", vec![]),
        ],
        resolve: Some(vec![
            ResolveNode { id: 1, deps: vec![rdep(2, "plain", vec![DeclaredKind::Normal])] },
            ResolveNode { id: 2, deps: vec![] },
        ]),
    };
    let g = analyze(metadata, &Config::new()).unwrap();
    let edges = live_edges(&g);
    assert_eq!(edges.len(), 1);
    assert!(edges[0].info.is_optional);
    assert!(edges[0].info.is_optional_direct);
}

#[test]
fn duplicate_names_are_counted_for_the_renderer() {
    let metadata = Metadata {
        workspace_members: vec![1],
        packages: vec![
            pkg(
                1,
                "root",
                vec![
                    dspec("dup", DeclaredKind::Normal, false),
                    dspec("dup", DeclaredKind::Normal, false),
                ],
            ),
            pkg(2, "dup", vec![]),
            pkg(3, "dup", vec![]),
        ],
        resolve: Some(vec![
            ResolveNode {
                id: 1,
                deps: vec![
                    rdep(2, "dup", vec![DeclaredKind::Normal]),
                    rdep(3, "dup", vec![DeclaredKind::Normal]),
                ],
            },
            ResolveNode { id: 2, deps: vec![] },
            ResolveNode { id: 3, deps: vec![] },
        ]),
    };
    let g = analyze(metadata, &Config::new()).unwrap();
    assert_eq!(live_nodes(&g), 3);
    for p in g.nodes.iter().flatten() {
        if p.name == "dup" {
            assert_eq!(p.name_uses, Some(2));
        } else {
            assert_eq!(p.name_uses, Some(1));
        }
    }
}

#[test]
fn propagation_marks_every_edge_visited_and_is_idempotent() {
    let mut g = DepGraph { nodes: Vec::new(), edges: Vec::new() };
    let root = Package {
        id: 1,
        name: "root".to_string(),
        version: "1.0.0".to_string(),
        dep_info: DepInfo::default(),
        is_ws_member: true,
        is_proc_macro: false,
        name_uses: None,
    };
    let leaf = Package {
        id: 2,
        name: "leaf".to_string(),
        version: "1.0.0".to_string(),
        dep_info: DepInfo::default(),
        is_ws_member: false,
        is_proc_macro: false,
        name_uses: None,
    };
    g.nodes.push(Some(root));
    g.nodes.push(Some(leaf));
    g.edges.push(Some(Edge { from: 0, to: 1, info: DepInfo::default() }));
    assert!(update_dep_info(&mut g).is_ok());
    for e in g.edges.iter().flatten() {
        assert!(e.info.visited);
    }
    let nodes_before: Vec<_> = g.nodes.clone();
    let edges_before: Vec<_> = g.edges.clone();
    assert!(update_dep_info(&mut g).is_ok());
    assert_eq!(g.nodes.len(), nodes_before.len());
    for (i, n) in g.nodes.iter().enumerate() {
        assert_eq!(
            n.as_ref().map(|p| p.dep_info),
            nodes_before[i].as_ref().map(|p| p.dep_info)
        );
    }
    for (i, e) in g.edges.iter().enumerate() {
        assert_eq!(e.as_ref().map(|x| x.info), edges_before[i].as_ref().map(|x| x.info));
    }
}

#[test]
fn missing_resolve_section_is_fatal() {
    let metadata =
        Metadata { workspace_members: vec![1], packages: vec![pkg(1, "root", vec![])], resolve: None };
    assert_eq!(analyze(metadata, &Config::new()).unwrap_err(), Error::MissingResolve);
}

#[test]
fn missing_package_is_fatal() {
    let metadata = Metadata { workspace_members: vec![7], packages: vec![], resolve: Some(vec![]) };
    assert_eq!(analyze(metadata, &Config::new()).unwrap_err(), Error::PackageNotFound);
}

#[test]
fn missing_resolve_entry_is_fatal() {
    let metadata = Metadata {
        workspace_members: vec![1],
        packages: vec![pkg(1, "root", vec![])],
        resolve: Some(vec![]),
    };
    assert_eq!(analyze(metadata, &Config::new()).unwrap_err(), Error::ResolveNodeNotFound);
}

#[test]
fn duplicate_workspace_member_is_fatal() {
    let metadata = Metadata {
        workspace_members: vec![1, 1],
        packages: vec![pkg(1, "root", vec![])],
        resolve: Some(vec![ResolveNode { id: 1, deps: vec![] }]),
    };
    assert_eq!(analyze(metadata, &Config::new()).unwrap_err(), Error::DuplicateWorkspaceMember);
}

#[test]
fn orphan_non_root_node_is_a_builder_invariant_violation() {
    let mut g = DepGraph { nodes: Vec::new(), edges: Vec::new() };
    g.nodes.push(Some(Package {
        id: 1,
        name: "stray".to_string(),
        version: "1.0.0".to_string(),
        dep_info: DepInfo::default(),
        is_ws_member: false,
        is_proc_macro: false,
        name_uses: None,
    }));
    assert_eq!(update_dep_info(&mut g).unwrap_err(), Error::MissingIncomingEdge);
}

#[test]
fn cycle_among_non_roots_cannot_be_classified() {
    let mut g = DepGraph { nodes: Vec::new(), edges: Vec::new() };
    for (i, name) in ["one", "two"].iter().enumerate() {
        g.nodes.push(Some(Package {
            id: i as u64,
            name: name.to_string(),
            version: "1.0.0".to_string(),
            dep_info: DepInfo::default(),
            is_ws_member: false,
            is_proc_macro: false,
            name_uses: None,
        }));
    }
    g.edges.push(Some(Edge { from: 0, to: 1, info: DepInfo::default() }));
    g.edges.push(Some(Edge { from: 1, to: 0, info: DepInfo::default() }));
    assert_eq!(update_dep_info(&mut g).unwrap_err(), Error::CyclicDependencies);
}

#[test]
fn error_messages_name_the_problem() {
    assert!(Error::MissingResolve.message().contains("resolve"));
    assert!(Error::PackageNotFound.message().contains("package"));
    assert!(Error::ResolveNodeNotFound.message().contains("resolve"));
    assert!(Error::MissingIncomingEdge.message().contains("incoming"));
    assert!(Error::CyclicDependencies.message().contains("cycle"));
    assert!(Error::DuplicateWorkspaceMember.message().contains("twice"));
}

#[test]
fn name_stats_count_only_the_living() {
    let mut g = DepGraph { nodes: Vec::new(), edges: Vec::new() };
    for name in ["same", "same", "other"] {
        g.nodes.push(Some(Package {
            id: 0,
            name: name.to_string(),
            version: "1.0.0".to_string(),
            dep_info: DepInfo::default(),
            is_ws_member: true,
            is_proc_macro: false,
            name_uses: None,
        }));
    }
    g.nodes.push(None);
    set_name_stats(&mut g);
    let counts: Vec<_> = g.nodes.iter().flatten().map(|p| p.name_uses).collect();
    assert_eq!(counts, vec![Some(2), Some(2), Some(1)]);
}
