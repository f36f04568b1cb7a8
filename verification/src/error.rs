//! Fatal errors and recoverable warnings of the graph pipeline.
//!
//! A fatal error signals an internally inconsistent snapshot and aborts
//! the run; a warning records a local, recovered oddity and lets the run
//! continue.

use vstd::prelude::*;

verus! {

/// An unrecoverable inconsistency in the input snapshot or the graph
/// built from it.
#[derive(Clone, Copy, Debug, PartialEq, Eq, Structural)]
pub enum Error {
    /// The snapshot carries no resolved dependency graph at all.
    MissingResolve,
    /// A referenced package identity is absent from the package list.
    PackageNotFound,
    /// A package is absent from the resolved adjacency.
    ResolveNodeNotFound,
    /// The same workspace member identity was listed twice.
    DuplicateWorkspaceMember,
    /// A non-root node ended up with no incoming edge at all.
    MissingIncomingEdge,
    /// The incoming-edge chains never ground out in workspace roots, so
    /// no consistent classification exists.
    CyclicDependencies,
}

impl Error {
    /// A human-readable description, for the embedding program to print.
    pub fn message(&self) -> (r: &'static str)
        ensures
            self == Error::MissingResolve ==> r@
                == "couldn't obtain dependency graph; the metadata carries no resolve section"@,
            self == Error::PackageNotFound ==> r@
                == "a referenced package is missing from the package list"@,
            self == Error::ResolveNodeNotFound ==> r@ == "package not found in resolve"@,
            self == Error::DuplicateWorkspaceMember ==> r@
                == "a workspace member is listed twice"@,
            self == Error::MissingIncomingEdge ==> r@
                == "expected non-workspace members to have at least one incoming edge"@,
            self == Error::CyclicDependencies ==> r@
                == "the dependency graph contains a cycle that prevents classification"@,
    {
        match self {
            Error::MissingResolve => "couldn't obtain dependency graph; the metadata carries no resolve section",
            Error::PackageNotFound => "a referenced package is missing from the package list",
            Error::ResolveNodeNotFound => "package not found in resolve",
            Error::DuplicateWorkspaceMember => "a workspace member is listed twice",
            Error::MissingIncomingEdge => "expected non-workspace members to have at least one incoming edge",
            Error::CyclicDependencies => "the dependency graph contains a cycle that prevents classification",
        }
    }
}

/// A local oddity that was logged and recovered from.
#[derive(Clone, Debug)]
pub enum Warning {
    /// A package matched both ordinary-library and macro-executing
    /// detection; the macro-executing special case was used.
    AmbiguousProcMacro { package_id: u64 },
    /// A resolved dependency edge whose declared-spec counterpart could
    /// not be found; its optional flag was defaulted to false.
    DependencySpecNotFound { package_id: u64, dep_name: String },
}

} // verus!
