//! Unit tests for the presence lattice and the classification algebra.

use cargo_depgraph::dep_info::{BuildFlag, DeclaredKind, DepInfo, DepKind};

fn flags() -> Vec<BuildFlag> {
    vec![BuildFlag::Always, BuildFlag::Test, BuildFlag::Never]
}

#[test]
fn meet_takes_the_lesser() {
    assert_eq!(BuildFlag::Always.meet(BuildFlag::Always), BuildFlag::Always);
    assert_eq!(BuildFlag::Always.meet(BuildFlag::Test), BuildFlag::Test);
    assert_eq!(BuildFlag::Test.meet(BuildFlag::Always), BuildFlag::Test);
    assert_eq!(BuildFlag::Test.meet(BuildFlag::Test), BuildFlag::Test);
    assert_eq!(BuildFlag::Always.meet(BuildFlag::Never), BuildFlag::Never);
    assert_eq!(BuildFlag::Never.meet(BuildFlag::Test), BuildFlag::Never);
    assert_eq!(BuildFlag::Never.meet(BuildFlag::Never), BuildFlag::Never);
}

#[test]
fn join_takes_the_greater() {
    assert_eq!(BuildFlag::Never.join(BuildFlag::Never), BuildFlag::Never);
    assert_eq!(BuildFlag::Never.join(BuildFlag::Test), BuildFlag::Test);
    assert_eq!(BuildFlag::Test.join(BuildFlag::Never), BuildFlag::Test);
    assert_eq!(BuildFlag::Test.join(BuildFlag::Test), BuildFlag::Test);
    assert_eq!(BuildFlag::Always.join(BuildFlag::Test), BuildFlag::Always);
    assert_eq!(BuildFlag::Test.join(BuildFlag::Always), BuildFlag::Always);
    assert_eq!(BuildFlag::Always.join(BuildFlag::Always), BuildFlag::Always);
}

#[test]
fn lattice_laws_hold_on_every_combination() {
    for a in flags() {
        assert_eq!(a.meet(a), a);
        assert_eq!(a.join(a), a);
        assert_eq!(a.join(BuildFlag::Never), a);
        assert_eq!(a.meet(BuildFlag::Never), BuildFlag::Never);
        assert_eq!(a.meet(BuildFlag::Always), a);
        assert_eq!(a.join(BuildFlag::Always), BuildFlag::Always);
        for b in flags() {
            assert_eq!(a.meet(b), b.meet(a));
            assert_eq!(a.join(b), b.join(a));
            for c in flags() {
                assert_eq!(a.meet(b).meet(c), a.meet(b.meet(c)));
                assert_eq!(a.join(b).join(c), a.join(b.join(c)));
            }
        }
    }
}

#[test]
fn canonical_points_have_their_documented_coordinates() {
    assert_eq!(DepKind::normal(), DepKind { host: BuildFlag::Never, target: BuildFlag::Always });
    assert_eq!(DepKind::build(), DepKind { host: BuildFlag::Always, target: BuildFlag::Never });
    assert_eq!(DepKind::dev(), DepKind { host: BuildFlag::Never, target: BuildFlag::Test });
    assert_eq!(
        DepKind::build_of_dev(),
        DepKind { host: BuildFlag::Test, target: BuildFlag::Never }
    );
    assert_eq!(DepKind::unknown(), DepKind { host: BuildFlag::Never, target: BuildFlag::Never });
}

#[test]
fn combine_incoming_joins_per_channel() {
    let mut k = DepKind::normal();
    k.combine_incoming(DepKind::dev());
    assert_eq!(k, DepKind::normal());

    let mut k = DepKind::dev();
    k.combine_incoming(DepKind::build());
    assert_eq!(k, DepKind::dev_and_build());

    let mut k = DepKind::normal();
    k.combine_incoming(DepKind::build());
    assert_eq!(k, DepKind::normal_and_build());
}

#[test]
fn combine_incoming_lets_unknown_absorb() {
    let mut k = DepKind::normal();
    k.combine_incoming(DepKind::unknown());
    assert_eq!(k, DepKind::unknown());

    let mut k = DepKind::unknown();
    k.combine_incoming(DepKind::build());
    assert_eq!(k, DepKind::unknown());
}

#[test]
fn update_outgoing_inherits_a_host_only_context() {
    // a normal edge out of a build-classified parent becomes build-time
    let mut k = DepKind::normal();
    k.update_outgoing(DepKind::build());
    assert_eq!(k, DepKind::build());
}

#[test]
fn update_outgoing_keeps_a_normal_context_unchanged() {
    let mut k = DepKind::normal();
    k.update_outgoing(DepKind::normal());
    assert_eq!(k, DepKind::normal());

    let mut k = DepKind::dev();
    k.update_outgoing(DepKind::normal());
    assert_eq!(k, DepKind::dev());
}

#[test]
fn update_outgoing_leaves_unknown_alone() {
    let mut k = DepKind::unknown();
    k.update_outgoing(DepKind::normal());
    assert_eq!(k, DepKind::unknown());

    let mut k = DepKind::dev();
    k.update_outgoing(DepKind::unknown());
    assert_eq!(k, DepKind::dev());
}

#[test]
fn dev_only_means_no_channel_is_unconditional() {
    assert!(!DepKind::normal().is_dev_only());
    assert!(!DepKind::build().is_dev_only());
    assert!(DepKind::dev().is_dev_only());
    assert!(DepKind::build_of_dev().is_dev_only());
    assert!(DepKind::unknown().is_dev_only());
    assert!(!DepKind::normal_and_build().is_dev_only());
}

#[test]
fn new_forces_macro_executing_edges_onto_the_host() {
    assert_eq!(DepKind::new(DeclaredKind::Normal, false), DepKind::normal());
    assert_eq!(DepKind::new(DeclaredKind::Build, false), DepKind::build());
    assert_eq!(DepKind::new(DeclaredKind::Development, false), DepKind::dev());
    assert_eq!(DepKind::new(DeclaredKind::Unknown, false), DepKind::unknown());
    // the host side of a macro-executing edge takes the declared
    // target-side value, and the target side collapses
    assert_eq!(DepKind::new(DeclaredKind::Normal, true), DepKind::build());
    assert_eq!(
        DepKind::new(DeclaredKind::Development, true),
        DepKind { host: BuildFlag::Test, target: BuildFlag::Never }
    );
    assert_eq!(
        DepKind::new(DeclaredKind::Build, true),
        DepKind { host: BuildFlag::Never, target: BuildFlag::Never }
    );
}

#[test]
fn default_records_are_normal_and_unvisited() {
    let d = DepInfo::default();
    assert_eq!(d.kind, DepKind::normal());
    assert!(!d.is_target_dep);
    assert!(!d.is_optional);
    assert!(!d.is_optional_direct);
    assert!(!d.visited);
    assert_eq!(DepKind::default(), DepKind::normal());
}
