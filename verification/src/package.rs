//! The data attached to one node of the dependency graph.

use vstd::prelude::*;

use crate::dep_info::{DepInfo, DepKind};
use crate::metadata::{is_proc_macro, spec_is_proc_macro, PackageInfo};

verus! {

/// One package as it appears in the annotated graph.
#[derive(Debug)]
pub struct Package {
    /// Stable identity, taken from the snapshot.
    pub id: u64,
    pub name: String,
    pub version: String,
    /// The resolved classification. Fixed at creation for workspace
    /// members; assigned once by the propagation engine for the rest.
    pub dep_info: DepInfo,
    /// Whether this package is a workspace root; set once, never changed.
    pub is_ws_member: bool,
    /// Whether the package is macro-executing; detected once at creation.
    pub is_proc_macro: bool,
    /// How many nodes of the final graph share this package's name; an
    /// annotation for a renderer, set by the naming post-pass.
    pub name_uses: Option<u64>,
}

impl Package {
    /// The node a snapshot package turns into: identity copied over, the
    /// classification seeded at its default, except that macro-executing
    /// packages start out as build-time.
    pub open spec fn spec_new(pkg: PackageInfo, is_ws_member: bool) -> Package {
        Package {
            id: pkg.id,
            name: pkg.name,
            version: pkg.version,
            dep_info: if spec_is_proc_macro(pkg) {
                DepInfo { kind: DepKind::build_spec(), ..DepInfo::default_spec() }
            } else {
                DepInfo::default_spec()
            },
            is_ws_member,
            is_proc_macro: spec_is_proc_macro(pkg),
            name_uses: None,
        }
    }

    pub fn new(pkg: &PackageInfo, is_ws_member: bool) -> (r: Package)
        ensures
            r == Package::spec_new(*pkg, is_ws_member),
    {
        let mut dep_info = DepInfo::default();
        let pm = is_proc_macro(pkg);
        if pm {
            dep_info.kind = DepKind::build();
        }
        Package {
            id: pkg.id,
            name: pkg.name.clone(),
            version: pkg.version.clone(),
            dep_info,
            is_ws_member,
            is_proc_macro: pm,
            name_uses: None,
        }
    }
}

impl Clone for Package {
    fn clone(&self) -> (r: Self)
        ensures
            r == *self,
    {
        Package {
            id: self.id,
            name: self.name.clone(),
            version: self.version.clone(),
            dep_info: self.dep_info,
            is_ws_member: self.is_ws_member,
            is_proc_macro: self.is_proc_macro,
            name_uses: self.name_uses,
        }
    }
}

} // verus!
