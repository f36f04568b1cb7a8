//! The library's view of a resolved dependency snapshot: the package
//! list, the workspace members, and the resolved adjacency, all as plain
//! values. The embedding program obtains this from its package manager
//! and converts; nothing here performs I/O.

use vstd::prelude::*;

use crate::dep_info::DeclaredKind;
use crate::error::Error;

verus! {

/// One dependency declaration from a package manifest.
#[derive(Clone, Debug)]
pub struct DependencySpec {
    /// The depended-on package's real name.
    pub name: String,
    /// The alternative name this dependency goes by in the declaring
    /// package, if it was renamed.
    pub rename: Option<String>,
    pub kind: DeclaredKind,
    /// Whether the dependency can be switched off by a feature.
    pub optional: bool,
    /// The platform constraint, if the dependency is platform-specific.
    pub target: Option<String>,
}

/// One (kind, platform) pair under which a resolved edge is actually used.
#[derive(Clone, Debug)]
pub struct DepKindInfo {
    pub kind: DeclaredKind,
    pub target: Option<String>,
}

/// One resolved dependency edge: the destination package and the pairs
/// under which the edge is used.
#[derive(Clone, Debug)]
pub struct ResolvedDep {
    /// Identity of the destination package.
    pub pkg: u64,
    /// The name the declaring package uses for this dependency; differs
    /// from the destination's real name when the dependency was renamed.
    pub name: String,
    pub dep_kinds: Vec<DepKindInfo>,
}

/// The resolved adjacency of one package.
#[derive(Clone, Debug)]
pub struct ResolveNode {
    pub id: u64,
    pub deps: Vec<ResolvedDep>,
}

/// One package of the snapshot.
#[derive(Clone, Debug)]
pub struct PackageInfo {
    /// Stable identity within the snapshot, unique per package.
    pub id: u64,
    pub name: String,
    pub version: String,
    /// The dependency declarations from the package's manifest.
    pub dependencies: Vec<DependencySpec>,
    /// For each build target the package produces, the kinds of artifact
    /// it is built as.
    pub target_kinds: Vec<Vec<String>>,
}

/// A fully materialized snapshot of a resolved dependency graph.
#[derive(Clone, Debug)]
pub struct Metadata {
    pub workspace_members: Vec<u64>,
    pub packages: Vec<PackageInfo>,
    /// The resolved adjacency, absent when the package manager could not
    /// provide one.
    pub resolve: Option<Vec<ResolveNode>>,
}

/// Whether some build target of `pkg` is built as an artifact of kind `kind`.
pub open spec fn spec_has_target_kind(pkg: PackageInfo, kind: Seq<char>) -> bool {
    exists|t: int, k: int|
        0 <= t < pkg.target_kinds@.len() && 0 <= k < pkg.target_kinds@[t]@.len()
            && pkg.target_kinds@[t]@[k]@ == kind
}

pub fn has_target_kind(pkg: &PackageInfo, kind: &String) -> (r: bool)
    ensures
        r == spec_has_target_kind(*pkg, kind@),
{
    let mut t: usize = 0;
    while t < pkg.target_kinds.len()
        invariant
            0 <= t <= pkg.target_kinds@.len(),
            forall|i: int, k: int|
                0 <= i < t && 0 <= k < pkg.target_kinds@[i]@.len() ==> pkg.target_kinds@[i]@[k]@
                    != kind@,
        decreases pkg.target_kinds@.len() - t,
    {
        let kinds = &pkg.target_kinds[t];
        let mut k: usize = 0;
        while k < kinds.len()
            invariant
                0 <= k <= kinds@.len(),
                kinds == &pkg.target_kinds@[t as int],
                0 <= t < pkg.target_kinds@.len(),
                forall|j: int| 0 <= j < k ==> kinds@[j]@ != kind@,
            decreases kinds@.len() - k,
        {
            if kinds[k].eq(kind) {
                return true;
            }
            k += 1;
        }
        t += 1;
    }
    false
}

/// Whether the package is macro-executing: it runs as part of compiling
/// other packages, even when the raw metadata does not tag its edges as
/// build-time.
pub open spec fn spec_is_proc_macro(pkg: PackageInfo) -> bool {
    spec_has_target_kind(pkg, "proc-macro"@)
}

pub fn is_proc_macro(pkg: &PackageInfo) -> (r: bool)
    ensures
        r == spec_is_proc_macro(*pkg),
{
    let needle = String::from_str("proc-macro");
    has_target_kind(pkg, &needle)
}

/// Whether the package is also built as an ordinary library, which makes
/// macro-executing detection ambiguous.
pub open spec fn spec_is_also_lib(pkg: PackageInfo) -> bool {
    spec_has_target_kind(pkg, "lib"@)
}

pub fn is_also_lib(pkg: &PackageInfo) -> (r: bool)
    ensures
        r == spec_is_also_lib(*pkg),
{
    let needle = String::from_str("lib");
    has_target_kind(pkg, &needle)
}

/// Whether some package of the list carries identity `id`.
pub open spec fn spec_has_package(packages: Seq<PackageInfo>, id: u64) -> bool {
    exists|i: int| 0 <= i < packages.len() && packages[i].id == id
}

/// Position of the first package with identity `id`, or an error when the
/// identity is absent from the package list: that signals an internally
/// inconsistent snapshot.
pub fn get_package(packages: &Vec<PackageInfo>, id: u64) -> (r: Result<usize, Error>)
    ensures
        match r {
            Ok(i) => 0 <= i < packages@.len() && packages@[i as int].id == id && (forall|j: int|
                0 <= j < i ==> packages@[j].id != id),
            Err(e) => e == Error::PackageNotFound && !spec_has_package(packages@, id),
        },
{
    let mut i: usize = 0;
    while i < packages.len()
        invariant
            0 <= i <= packages@.len(),
            forall|j: int| 0 <= j < i ==> packages@[j].id != id,
        decreases packages@.len() - i,
    {
        if packages[i].id == id {
            return Ok(i);
        }
        i += 1;
    }
    Err(Error::PackageNotFound)
}

/// Position of the resolve node for identity `id`, or an error when the
/// package is absent from the resolved adjacency.
pub fn find_resolve_node(resolve: &Vec<ResolveNode>, id: u64) -> (r: Result<usize, Error>)
    ensures
        match r {
            Ok(i) => 0 <= i < resolve@.len() && resolve@[i as int].id == id && (forall|j: int|
                0 <= j < i ==> resolve@[j].id != id),
            Err(e) => e == Error::ResolveNodeNotFound && (forall|i: int|
                0 <= i < resolve@.len() ==> resolve@[i].id != id),
        },
{
    let mut i: usize = 0;
    while i < resolve.len()
        invariant
            0 <= i <= resolve@.len(),
            forall|j: int| 0 <= j < i ==> resolve@[j].id != id,
        decreases resolve@.len() - i,
    {
        if resolve[i].id == id {
            return Ok(i);
        }
        i += 1;
    }
    Err(Error::ResolveNodeNotFound)
}

} // verus!
