//! The configuration record consumed by the graph pipeline.

use vstd::prelude::*;

verus! {

/// Which dependency kinds to keep, which packages to filter, and which
/// reductions to apply.
#[derive(Clone, Debug)]
pub struct Config {
    /// Include build-time dependencies.
    pub build_deps: bool,
    /// Include test/dev-only dependencies.
    pub dev_deps: bool,
    /// Include platform-specific dependencies.
    pub target_deps: bool,
    /// Remove direct edges shadowed by a longer path.
    pub dedup_transitive_deps: bool,
    /// Package names to hide after classification.
    pub hide: Vec<String>,
    /// Package names to ignore entirely.
    pub exclude: Vec<String>,
    /// Allowlist of package names; empty means no restriction.
    pub only: Vec<String>,
    /// Keep only packages relevant to these names.
    pub focus: Vec<String>,
    /// Allowlist of workspace roots; empty means all workspace members.
    pub root: Vec<String>,
    /// Keep only workspace members.
    pub workspace_only: bool,
    /// Do not expand dependencies beyond this depth.
    pub depth: Option<u32>,
}

impl Config {
    /// The permissive default: ordinary dependencies only, no filters, no
    /// reductions.
    pub fn new() -> (r: Config)
        ensures
            !r.build_deps,
            !r.dev_deps,
            !r.target_deps,
            !r.dedup_transitive_deps,
            r.hide@ == Seq::<String>::empty(),
            r.exclude@ == Seq::<String>::empty(),
            r.only@ == Seq::<String>::empty(),
            r.focus@ == Seq::<String>::empty(),
            r.root@ == Seq::<String>::empty(),
            !r.workspace_only,
            r.depth is None,
    {
        Config {
            build_deps: false,
            dev_deps: false,
            target_deps: false,
            dedup_transitive_deps: false,
            hide: Vec::new(),
            exclude: Vec::new(),
            only: Vec::new(),
            focus: Vec::new(),
            root: Vec::new(),
            workspace_only: false,
            depth: None,
        }
    }
}

} // verus!
