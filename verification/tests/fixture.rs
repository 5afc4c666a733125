use jerky::registry::{Fetched, Freshness, RegistryClient, RegistryError};
use jerky::testing::FixtureRegistry;

#[test]
fn with_packument_registers_versions_and_their_edges() {
    let mut registry = FixtureRegistry::new().with_packument(
        "a",
        &[("1.0.0", &[("b", "^1.0.0")]), ("1.2.0", &[("b", "^2.0.0")])],
    );

    let p = registry.packument("a", Freshness::MayBeCached).unwrap();
    assert_eq!(p.versions.len(), 2);
    assert_eq!(
        p.resolve_tag("latest"),
        Some("1.2.0"),
        "latest is the highest"
    );
    let edge = |version: &str| p.versions.named(version).unwrap().dependencies.named("b").cloned();
    assert_eq!(edge("1.0.0").unwrap(), "^1.0.0");
    assert_eq!(edge("1.2.0").unwrap(), "^2.0.0");
}

fn latest_of(registry: &mut FixtureRegistry, name: &str) -> String {
    registry
        .packument(name, Freshness::MayBeCached)
        .unwrap()
        .resolve_tag("latest")
        .unwrap()
        .to_string()
}

#[test]
fn latest_does_not_point_at_a_prerelease() {
    let mut registry =
        FixtureRegistry::new().with_packument("a", &[("4.17.21", &[]), ("5.0.0-beta.1", &[])]);

    assert_eq!(latest_of(&mut registry, "a"), "4.17.21");
}

#[test]
fn latest_falls_back_when_every_version_is_a_prerelease() {
    let mut registry = FixtureRegistry::new()
        .with_packument("a", &[("1.0.0-alpha.1", &[]), ("1.0.0-alpha.2", &[])]);

    assert_eq!(latest_of(&mut registry, "a"), "1.0.0-alpha.2");
}

#[test]
fn fixture_versions_verify_against_their_own_tarballs() {
    let mut registry = FixtureRegistry::new().with_packument("a", &[("1.0.0", &[])]);

    let p = registry.packument("a", Freshness::MayBeCached).unwrap();
    let metadata = p.versions.named("1.0.0").unwrap();
    let bytes = registry.fetch_tarball(&metadata.dist.tarball).unwrap();

    assert!(metadata.dist.integrity().unwrap().verify(&bytes).is_ok());
}

#[test]
fn latest_is_the_highest_version_not_the_last_registered() {
    let mut registry = FixtureRegistry::new()
        .with_packument("a", &[("2.0.0", &[])])
        .with_packument("a", &[("1.0.0", &[])]);

    assert_eq!(latest_of(&mut registry, "a"), "2.0.0");
}

#[test]
fn packument_calls_are_counted_per_package() {
    let mut registry = FixtureRegistry::new()
        .with_packument("a", &[("1.0.0", &[])])
        .with_packument("b", &[("1.0.0", &[])]);

    registry.packument("a", Freshness::MayBeCached).unwrap();
    registry.packument("a", Freshness::MayBeCached).unwrap();
    registry.packument("b", Freshness::MayBeCached).unwrap();

    assert_eq!(registry.packument_calls_for("a"), 2);
    assert_eq!(registry.packument_calls_for("b"), 1);
    assert_eq!(registry.packument_calls(), 3, "the total is the sum");
}

#[test]
fn with_tree_collects_repeated_names_into_one_packument() {
    let mut registry = FixtureRegistry::new().with_tree(&[
        ("d", "1.5.0", &[]),
        ("d", "2.1.0", &[]),
        ("a", "1.0.0", &[("d", "^1.0.0")]),
    ]);

    let d = registry.packument("d", Freshness::MayBeCached).unwrap();
    assert_eq!(d.versions.len(), 2);
    assert_eq!(d.resolve_tag("latest"), Some("2.1.0"));

    let a = registry.packument("a", Freshness::MayBeCached).unwrap();
    let edges = &a.versions.named("1.0.0").unwrap().dependencies;
    assert_eq!(edges.named("d").unwrap(), "^1.0.0");
}

#[test]
fn a_current_version_is_seen_only_by_a_request_that_has_to_be_current() {
    let mut registry = FixtureRegistry::new()
        .with_packument("a", &[("1.0.0", &[])])
        .with_current_version("a", "2.0.0", &[]);

    assert_eq!(latest_of(&mut registry, "a"), "1.0.0");
    let current = registry.packument("a", Freshness::MustBeCurrent).unwrap();
    assert_eq!(current.resolve_tag("latest"), Some("2.0.0"));
    assert!(matches!(
        registry.packument_conditional("a", None),
        Ok(Fetched::Body { etag: None, .. })
    ));
}

#[test]
fn amending_a_version_changes_every_copy_of_it() {
    let mut registry = FixtureRegistry::new()
        .with_packument("a", &[("1.0.0", &[])])
        .with_declared_peers("a", "1.0.0", &[("react", "^18.0.0", true), ("vue", "^3.0.0", false)])
        .with_optional_dependencies("a", "1.0.0", &[("fsevents", "^2.0.0")])
        .with_platform("a", "1.0.0", &["linux", "darwin"], &["x64"])
        .with_bins("a", "1.0.0", &[("a", "./cli.js")])
        .with_dist_tag("a", "next", "1.0.0");

    for version in ["1.0.0", "latest"] {
        let metadata = registry.version_metadata("a", version).unwrap();
        assert_eq!(metadata.peer_dependencies.named("react").unwrap(), "^18.0.0");
        assert!(metadata.peer_dependencies_meta.named("react").unwrap().optional);
        assert!(metadata.peer_dependencies_meta.named("vue").is_none());
        assert_eq!(metadata.optional_dependencies.named("fsevents").unwrap(), "^2.0.0");
        assert_eq!(metadata.os, ["linux", "darwin"]);
        assert_eq!(metadata.cpu, ["x64"]);
        assert_eq!(metadata.bins().named("a").unwrap(), "cli.js");
    }
    let p = registry.packument("a", Freshness::MayBeCached).unwrap();
    assert_eq!(p.resolve_tag("next"), Some("1.0.0"));
    assert_eq!(registry.metadata_calls(), 2);
}

#[test]
fn unknown_packages_and_versions_are_told_apart() {
    let mut registry = FixtureRegistry::new().with_package("a", "1.0.0", b"bytes".to_vec());

    assert!(matches!(
        registry.version_metadata("a", "9.9.9"),
        Err(RegistryError::VersionNotFound { .. })
    ));
    assert!(matches!(
        registry.version_metadata("b", "1.0.0"),
        Err(RegistryError::PackageNotFound(_))
    ));
    assert!(matches!(
        registry.packument("b", Freshness::MayBeCached),
        Err(RegistryError::PackageNotFound(_))
    ));
    assert!(registry.fetch_tarball("https://fixture.test/nowhere.tgz").is_err());
    let url = "https://fixture.test/a/-/a-1.0.0.tgz";
    assert_eq!(registry.fetch_tarball(url).unwrap(), b"bytes");
    assert_eq!(registry.tarball_calls(), 2);
    assert_eq!(registry.tarball_calls_for("a"), 1);
}

#[test]
fn a_corrupt_package_does_not_verify() {
    let mut registry = FixtureRegistry::new().with_corrupt_package("a", "1.0.0", b"bytes".to_vec());
    let metadata = registry.version_metadata("a", "1.0.0").unwrap();
    let bytes = registry.fetch_tarball(&metadata.dist.tarball).unwrap();

    assert!(metadata.dist.integrity().unwrap().verify(&bytes).is_err());
}

#[test]
fn callers_that_come_one_by_one_never_meet() {
    let mut alone = FixtureRegistry::new()
        .with_packument("a", &[("1.0.0", &[])])
        .with_packument_rendezvous(2);
    alone.packument("a", Freshness::MayBeCached).unwrap();
    assert!(!alone.packuments_met_rendezvous());
    assert_eq!(alone.peak_concurrent_packuments(), 1);

    let mut passing = FixtureRegistry::new()
        .with_packument("a", &[("1.0.0", &[])])
        .with_packument_rendezvous_for(&["b"], 2);
    passing.packument("a", Freshness::MayBeCached).unwrap();
    assert!(passing.packuments_met_rendezvous());

    let mut single = FixtureRegistry::new()
        .with_package("a", "1.0.0", Vec::new())
        .with_tarball_rendezvous(1);
    single.fetch_tarball("https://fixture.test/a/-/a-1.0.0.tgz").unwrap();
    assert!(single.tarballs_met_rendezvous());
    assert_eq!(single.peak_concurrent_tarballs(), 1);
}

#[test]
fn a_gate_is_held_until_a_tarball_was_asked_for() {
    let gated = || {
        FixtureRegistry::new()
            .with_packument("a", &[("1.0.0", &[])])
            .with_packument_awaiting_a_tarball(&["a"])
    };

    let mut waiting = gated();
    waiting.packument("a", Freshness::MayBeCached).unwrap();
    assert!(!waiting.packuments_awaited_a_tarball());

    let mut opened = gated();
    opened.fetch_tarball("https://fixture.test/a/-/a-1.0.0.tgz").unwrap();
    opened.packument("a", Freshness::MayBeCached).unwrap();
    assert!(opened.packuments_awaited_a_tarball());
}
