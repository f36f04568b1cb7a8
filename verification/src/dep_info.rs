//! The presence lattice and the dependency classification built on it.
//!
//! A `BuildFlag` says whether something is required in a build: always,
//! only in test/dev configurations, or never. A `DepKind` pairs two such
//! flags, one for the host machine (the one compiling) and one for the
//! target machine (the one the artifact will run on). A `DepInfo` is the
//! full record attached to a dependency edge.

use vstd::prelude::*;

verus! {

/// Tri-state indicator of whether something is required under a given
/// build configuration, totally ordered `Never < Test < Always`.
#[derive(Clone, Copy, Debug, PartialEq, Eq, Structural)]
pub enum BuildFlag {
    Always,
    Test,
    Never,
}

impl BuildFlag {
    /// Numeric rank of the flag in the order `Never < Test < Always`.
    pub open spec fn level(self) -> nat {
        match self {
            BuildFlag::Always => 2,
            BuildFlag::Test => 1,
            BuildFlag::Never => 0,
        }
    }

    /// Conjunction of two presence conditions: both must hold, so the
    /// lesser value wins.
    pub open spec fn spec_meet(self, other: Self) -> Self {
        if self.level() <= other.level() {
            self
        } else {
            other
        }
    }

    /// Disjunction of two presence conditions: either suffices, so the
    /// greater value wins.
    pub open spec fn spec_join(self, other: Self) -> Self {
        if self.level() >= other.level() {
            self
        } else {
            other
        }
    }

    /// The lesser of the two flags.
    pub fn meet(self, other: Self) -> (r: Self)
        ensures
            r == self.spec_meet(other),
    {
        match (self, other) {
            (BuildFlag::Always, BuildFlag::Always) => BuildFlag::Always,
            (BuildFlag::Always, BuildFlag::Test)
            | (BuildFlag::Test, BuildFlag::Always)
            | (BuildFlag::Test, BuildFlag::Test) => BuildFlag::Test,
            _ => BuildFlag::Never,
        }
    }

    /// The greater of the two flags.
    pub fn join(self, other: Self) -> (r: Self)
        ensures
            r == self.spec_join(other),
    {
        match (self, other) {
            (BuildFlag::Never, BuildFlag::Never) => BuildFlag::Never,
            (BuildFlag::Never, BuildFlag::Test)
            | (BuildFlag::Test, BuildFlag::Never)
            | (BuildFlag::Test, BuildFlag::Test) => BuildFlag::Test,
            _ => BuildFlag::Always,
        }
    }
}

/// Law: `meet` and `join` are commutative.
pub proof fn lemma_flag_commutative(a: BuildFlag, b: BuildFlag)
    ensures
        a.spec_meet(b) == b.spec_meet(a),
        a.spec_join(b) == b.spec_join(a),
{
}

/// Law: `meet` and `join` are associative.
pub proof fn lemma_flag_associative(a: BuildFlag, b: BuildFlag, c: BuildFlag)
    ensures
        a.spec_meet(b).spec_meet(c) == a.spec_meet(b.spec_meet(c)),
        a.spec_join(b).spec_join(c) == a.spec_join(b.spec_join(c)),
{
}

/// Law: `meet` and `join` are idempotent.
pub proof fn lemma_flag_idempotent(a: BuildFlag)
    ensures
        a.spec_meet(a) == a,
        a.spec_join(a) == a,
{
}

/// Law: `Never` is the identity of `join` and the absorber of `meet`;
/// `Always` is the identity of `meet` and the absorber of `join`.
pub proof fn lemma_flag_units(a: BuildFlag)
    ensures
        a.spec_join(BuildFlag::Never) == a,
        a.spec_meet(BuildFlag::Never) == BuildFlag::Never,
        a.spec_meet(BuildFlag::Always) == a,
        a.spec_join(BuildFlag::Always) == BuildFlag::Always,
{
}

/// When and where a dependency participates in a build: a presence flag
/// for the host machine and one for the target machine.
#[derive(Clone, Copy, Debug, PartialEq, Eq, Structural)]
pub struct DepKind {
    pub host: BuildFlag,
    pub target: BuildFlag,
}

/// The dependency kind declared in a package manifest.
#[derive(Clone, Copy, Debug, PartialEq, Eq, Structural)]
pub enum DeclaredKind {
    Normal,
    Build,
    Development,
    Unknown,
}

impl DepKind {
    /// An ordinary dependency: never needed on the host, always on the target.
    pub open spec fn normal_spec() -> DepKind {
        DepKind { host: BuildFlag::Never, target: BuildFlag::Always }
    }

    /// A build-time dependency: always needed on the host, never on the target.
    pub open spec fn build_spec() -> DepKind {
        DepKind { host: BuildFlag::Always, target: BuildFlag::Never }
    }

    /// A test/dev-only dependency: needed on the target only under test.
    pub open spec fn dev_spec() -> DepKind {
        DepKind { host: BuildFlag::Never, target: BuildFlag::Test }
    }

    /// A build dependency of a dev dependency: needed on the host only under test.
    pub open spec fn build_of_dev_spec() -> DepKind {
        DepKind { host: BuildFlag::Test, target: BuildFlag::Never }
    }

    pub open spec fn normal_and_build_spec() -> DepKind {
        DepKind { host: BuildFlag::Always, target: BuildFlag::Always }
    }

    pub open spec fn dev_and_build_spec() -> DepKind {
        DepKind { host: BuildFlag::Always, target: BuildFlag::Test }
    }

    pub open spec fn normal_and_build_of_dev_spec() -> DepKind {
        DepKind { host: BuildFlag::Test, target: BuildFlag::Always }
    }

    pub open spec fn dev_and_build_of_dev_spec() -> DepKind {
        DepKind { host: BuildFlag::Test, target: BuildFlag::Test }
    }

    /// The absorbing sentinel: signals irrecoverable ambiguity.
    pub open spec fn unknown_spec() -> DepKind {
        DepKind { host: BuildFlag::Never, target: BuildFlag::Never }
    }

    pub fn normal() -> (r: DepKind)
        ensures
            r == DepKind::normal_spec(),
    {
        DepKind { host: BuildFlag::Never, target: BuildFlag::Always }
    }

    pub fn build() -> (r: DepKind)
        ensures
            r == DepKind::build_spec(),
    {
        DepKind { host: BuildFlag::Always, target: BuildFlag::Never }
    }

    pub fn dev() -> (r: DepKind)
        ensures
            r == DepKind::dev_spec(),
    {
        DepKind { host: BuildFlag::Never, target: BuildFlag::Test }
    }

    pub fn build_of_dev() -> (r: DepKind)
        ensures
            r == DepKind::build_of_dev_spec(),
    {
        DepKind { host: BuildFlag::Test, target: BuildFlag::Never }
    }

    pub fn normal_and_build() -> (r: DepKind)
        ensures
            r == DepKind::normal_and_build_spec(),
    {
        DepKind { host: BuildFlag::Always, target: BuildFlag::Always }
    }

    pub fn dev_and_build() -> (r: DepKind)
        ensures
            r == DepKind::dev_and_build_spec(),
    {
        DepKind { host: BuildFlag::Always, target: BuildFlag::Test }
    }

    pub fn normal_and_build_of_dev() -> (r: DepKind)
        ensures
            r == DepKind::normal_and_build_of_dev_spec(),
    {
        DepKind { host: BuildFlag::Test, target: BuildFlag::Always }
    }

    pub fn dev_and_build_of_dev() -> (r: DepKind)
        ensures
            r == DepKind::dev_and_build_of_dev_spec(),
    {
        DepKind { host: BuildFlag::Test, target: BuildFlag::Test }
    }

    pub fn unknown() -> (r: DepKind)
        ensures
            r == DepKind::unknown_spec(),
    {
        DepKind { host: BuildFlag::Never, target: BuildFlag::Never }
    }

    pub open spec fn is_unknown(self) -> bool {
        self == DepKind::unknown_spec()
    }

    /// The canonical classification of a declared dependency kind.
    pub open spec fn spec_from_declared(kind: DeclaredKind) -> DepKind {
        match kind {
            DeclaredKind::Normal => DepKind::normal_spec(),
            DeclaredKind::Build => DepKind::build_spec(),
            DeclaredKind::Development => DepKind::dev_spec(),
            DeclaredKind::Unknown => DepKind::unknown_spec(),
        }
    }

    pub fn from_declared(kind: DeclaredKind) -> (r: DepKind)
        ensures
            r == DepKind::spec_from_declared(kind),
    {
        match kind {
            DeclaredKind::Normal => DepKind::normal(),
            DeclaredKind::Build => DepKind::build(),
            DeclaredKind::Development => DepKind::dev(),
            DeclaredKind::Unknown => DepKind::unknown(),
        }
    }

    /// The classification seeded on a fresh edge: the declared kind's
    /// canonical point, except that an edge to a macro-executing package
    /// is forced onto the host side, since such a package runs at build
    /// time regardless of how the edge was labeled.
    pub open spec fn spec_new(kind: DeclaredKind, proc_macro: bool) -> DepKind {
        let res = DepKind::spec_from_declared(kind);
        if proc_macro {
            DepKind { host: res.target, target: BuildFlag::Never }
        } else {
            res
        }
    }

    pub fn new(kind: DeclaredKind, proc_macro: bool) -> (r: DepKind)
        ensures
            r == DepKind::spec_new(kind, proc_macro),
    {
        let res = DepKind::from_declared(kind);
        if proc_macro {
            DepKind { host: res.target, target: BuildFlag::Never }
        } else {
            res
        }
    }

    /// Merge another incoming classification into this one: any side that
    /// demands presence forces presence, and the `Unknown` sentinel absorbs.
    pub open spec fn spec_combine_incoming(self, other: DepKind) -> DepKind {
        if self.is_unknown() || other.is_unknown() {
            DepKind::unknown_spec()
        } else {
            DepKind {
                host: self.host.spec_join(other.host),
                target: self.target.spec_join(other.target),
            }
        }
    }

    pub fn combine_incoming(&mut self, other: DepKind)
        ensures
            *final(self) == old(self).spec_combine_incoming(other),
    {
        if *self == DepKind::unknown() || other == DepKind::unknown() {
            *self = DepKind::unknown();
        } else {
            self.host = self.host.join(other.host);
            self.target = self.target.join(other.target);
        }
    }

    /// Re-express this edge classification in the frame of its consumer,
    /// whose own resolved classification is `node_kind`: host-side
    /// necessity is inherited through either of the parent's channels,
    /// while target-side necessity survives only if edge and parent both
    /// need target presence. `Unknown` on either side leaves the edge
    /// untouched.
    pub open spec fn spec_update_outgoing(self, node_kind: DepKind) -> DepKind {
        if node_kind.is_unknown() || self.is_unknown() {
            self
        } else {
            DepKind {
                host: self.target.spec_meet(node_kind.host).spec_join(
                    self.host.spec_meet(node_kind.target),
                ).spec_join(self.host.spec_meet(node_kind.host)),
                target: self.target.spec_meet(node_kind.target),
            }
        }
    }

    pub fn update_outgoing(&mut self, node_kind: DepKind)
        ensures
            *final(self) == old(self).spec_update_outgoing(node_kind),
    {
        if node_kind == DepKind::unknown() || *self == DepKind::unknown() {
            // leave the edge unchanged
        } else {
            self.host = self.target.meet(node_kind.host).join(self.host.meet(node_kind.target))
                .join(self.host.meet(node_kind.host));
            self.target = self.target.meet(node_kind.target);
        }
    }

    pub open spec fn spec_is_dev_only(self) -> bool {
        self.host != BuildFlag::Always && self.target != BuildFlag::Always
    }

    /// True iff neither side is unconditionally required.
    pub fn is_dev_only(&self) -> (r: bool)
        ensures
            r == self.spec_is_dev_only(),
    {
        self.host != BuildFlag::Always && self.target != BuildFlag::Always
    }
}

impl Default for DepKind {
    /// The default classification is that of an ordinary dependency.
    fn default() -> (r: Self)
        ensures
            r == DepKind::normal_spec(),
    {
        DepKind::normal()
    }
}

/// The full record attached to a dependency edge: its classification,
/// whether it is restricted to a specific platform, whether it is
/// feature-gated (absolutely, and on this direct edge), and whether the
/// propagation engine has already rewritten it.
#[derive(Clone, Copy, Debug, PartialEq, Eq, Structural)]
pub struct DepInfo {
    pub kind: DepKind,
    pub is_target_dep: bool,
    pub is_optional: bool,
    pub is_optional_direct: bool,
    pub visited: bool,
}

impl DepInfo {
    pub open spec fn default_spec() -> DepInfo {
        DepInfo {
            kind: DepKind::normal_spec(),
            is_target_dep: false,
            is_optional: false,
            is_optional_direct: false,
            visited: false,
        }
    }
}

impl Default for DepInfo {
    fn default() -> (r: Self)
        ensures
            r == DepInfo::default_spec(),
    {
        DepInfo {
            kind: DepKind::normal(),
            is_target_dep: false,
            is_optional: false,
            is_optional_direct: false,
            visited: false,
        }
    }
}

} // verus!
