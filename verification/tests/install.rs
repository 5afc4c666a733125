use jerky::cli::{parse_package_spec, VersionSpec};
use jerky::install::{
    already_satisfies, declared_range, unconstrained_range, InstallError, Mode, Request,
};
use jerky::integrity::{Algo, Integrity};
use jerky::json::{Object, Value};
use jerky::lockfile::load;
use jerky::manifest::Manifest;
use jerky::order::Duplicate;
use jerky::plan::{ImporterTarget, Plan, Step, StoreEntry, VirtualStoreEntry};
use jerky::planning::plan_for;
use jerky::platform::{Platform, PlatformSupport};
use jerky::registry::RegistryClient;
use jerky::resolver::{
    Dependency, Importer, ImporterPath, Kind, PackageId, Resolution, ResolveError, ResolvedGraph,
    ResolvedPackage,
};
use jerky::sorted::{SortedMap, SortedSet};
use jerky::store::Store;
use jerky::sync::{fetch_missing, fetch_one, install, sync, verified, Synced};
use jerky::testing::FixtureRegistry;
use jerky::workspace::{Candidate, Workspace};

fn manifest(dir: &str, name: &str, sections: &[(&str, &[(&str, &str)])]) -> Manifest {
    let mut object = Object::new().insert("name", Value::Text(name.to_string()));
    if dir == "/ws" {
        let patterns = vec![Value::Text("packages/*".to_string())];
        object = object.insert("workspaces", Value::Array(patterns));
    }
    for (section, entries) in sections {
        let mut inner = Object::new();
        for (dep, spec) in *entries {
            inner = inner.insert(dep, Value::Text(spec.to_string()));
        }
        object = object.insert(section, Value::Object(inner));
    }
    Manifest::load(&format!("{dir}/package.json"), Value::Object(object)).unwrap()
}

fn workspace_with(root: Manifest, members: Vec<(&str, Manifest)>) -> Workspace {
    let candidates = members
        .into_iter()
        .map(|(path, manifest)| Candidate {
            importer: at(path),
            manifest: Ok(manifest),
        })
        .collect();
    Workspace::discover("/ws", root, &candidates).unwrap()
}

fn solo(sections: &[(&str, &[(&str, &str)])]) -> Workspace {
    workspace_with(manifest("/ws", "ws", sections), vec![])
}

fn id(name: &str, version: &str) -> PackageId {
    PackageId::plain(name, version)
}

fn digest_of(seed: &str) -> Integrity {
    Integrity {
        algo: Algo::Sha512,
        digest: Algo::Sha512.hash(seed.as_bytes()),
    }
}

fn package(name: &str, version: &str, dependencies: &[(&str, PackageId)]) -> ResolvedPackage {
    let mut edges = SortedMap::new();
    for (link, target) in dependencies {
        edges.insert(link.to_string(), target.duplicate());
    }
    ResolvedPackage {
        id: id(name, version),
        resolved: format!("https://fixture.test/{name}-{version}.tgz"),
        integrity: digest_of(&format!("{name}@{version}")),
        dependencies: edges,
        optional_dependencies: SortedSet::new(),
        supports: PlatformSupport { os: Vec::new(), cpu: Vec::new() },
        bins: SortedMap::new(),
        declared_peers: SortedMap::new(),
        peers: SortedMap::new(),
    }
}

fn dependency(specifier: &str, resolution: Resolution) -> Dependency {
    Dependency {
        specifier: specifier.to_string(),
        kind: Kind::Prod,
        resolution,
    }
}

fn importer(dependencies: Vec<(&str, Dependency)>) -> Importer {
    let mut map = SortedMap::new();
    for (name, dep) in dependencies {
        map.insert(name.to_string(), dep);
    }
    Importer { dependencies: map }
}

fn at(path: &str) -> ImporterPath {
    ImporterPath::new(path).unwrap()
}

fn store_dir(dir_name: &str, pkg_name: &str) -> StoreEntry {
    StoreEntry {
        dir_name: dir_name.to_string(),
        pkg_name: pkg_name.to_string(),
    }
}

fn edges(pairs: Vec<(&str, StoreEntry)>) -> SortedMap<String, StoreEntry> {
    let mut map = SortedMap::new();
    for (name, entry) in pairs {
        map.insert(name.to_string(), entry);
    }
    map
}

fn links(pairs: Vec<(&str, ImporterTarget)>) -> SortedMap<String, ImporterTarget> {
    let mut map = SortedMap::new();
    for (name, target) in pairs {
        map.insert(name.to_string(), target);
    }
    map
}

#[test]
fn the_plan_names_exactly_the_entries_edges_and_links_the_graph_implies() {
    let workspace = workspace_with(
        manifest("/ws", "ws", &[]),
        vec![
            ("packages/ui", manifest("/ws/packages/ui", "ui", &[])),
            ("packages/empty", manifest("/ws/packages/empty", "empty", &[])),
        ],
    );
    let store = Store::new("/home/store");

    let mut importers = SortedMap::new();
    importers.insert(
        at("."),
        importer(vec![(
            "alpha",
            dependency("1.0.0", Resolution::Registry(id("alpha", "1.0.0"))),
        )]),
    );
    importers.insert(
        at("packages/ui"),
        importer(vec![
            (
                "width-cjs",
                dependency(
                    "npm:string-width@^4.0.0",
                    Resolution::Registry(id("string-width", "4.2.3")),
                ),
            ),
            (
                "empty",
                dependency("workspace:*", Resolution::Local("../empty".into())),
            ),
        ]),
    );
    importers.insert(at("packages/empty"), importer(vec![]));
    let mut packages = SortedMap::new();
    packages.insert(
        id("alpha", "1.0.0"),
        package(
            "alpha",
            "1.0.0",
            &[
                ("beta", id("beta", "2.0.0")),
                ("width-cjs", id("string-width", "4.2.3")),
            ],
        ),
    );
    packages.insert(id("beta", "2.0.0"), package("beta", "2.0.0", &[]));
    packages.insert(id("string-width", "4.2.3"), package("string-width", "4.2.3", &[]));
    let graph = ResolvedGraph { importers, packages };

    let mut dirs = SortedSet::new();
    for dir in ["/ws", "/ws/packages/ui", "/ws/packages/empty"] {
        dirs.insert(dir.to_string());
    }
    let mut expected = Plan::new("/ws", dirs);
    expected.add_entry(
        "alpha@1.0.0",
        VirtualStoreEntry {
            store_path: store.entry_path(&digest_of("alpha@1.0.0")),
            pkg_name: "alpha".to_string(),
            edges: edges(vec![
                ("beta", store_dir("beta@2.0.0", "beta")),
                ("width-cjs", store_dir("string-width@4.2.3", "string-width")),
            ]),
        },
    );
    expected.add_entry(
        "beta@2.0.0",
        VirtualStoreEntry {
            store_path: store.entry_path(&digest_of("beta@2.0.0")),
            pkg_name: "beta".to_string(),
            edges: edges(vec![]),
        },
    );
    expected.add_entry(
        "string-width@4.2.3",
        VirtualStoreEntry {
            store_path: store.entry_path(&digest_of("string-width@4.2.3")),
            pkg_name: "string-width".to_string(),
            edges: edges(vec![]),
        },
    );
    expected.add_importer(
        "/ws",
        links(vec![(
            "alpha",
            ImporterTarget::Entry(store_dir("alpha@1.0.0", "alpha")),
        )]),
    );
    expected.add_importer(
        "/ws/packages/ui",
        links(vec![
            (
                "width-cjs",
                ImporterTarget::Entry(store_dir("string-width@4.2.3", "string-width")),
            ),
            ("empty", ImporterTarget::Member("/ws/packages/empty".to_string())),
        ]),
    );
    expected.add_importer("/ws/packages/empty", links(vec![]));

    let plan = plan_for(&graph, &workspace, &store).unwrap();
    assert_eq!(format!("{plan:?}"), format!("{expected:?}"));

    let steps: Vec<String> = plan
        .apply()
        .iter()
        .map(|step| match step {
            Step::Populate { dir_name, .. } => format!("populate {dir_name}"),
            Step::Place(link) => format!("link {} -> {}", link.path, link.target),
            Step::Converge { importer_dir } => format!("converge {importer_dir}"),
            Step::Prune => "prune".to_string(),
        })
        .collect();
    assert_eq!(
        steps,
        [
            "populate alpha@1.0.0",
            "populate beta@2.0.0",
            "populate string-width@4.2.3",
            "link /ws/node_modules/.jerky/alpha@1.0.0/node_modules/beta -> \
             ../../beta@2.0.0/node_modules/beta",
            "link /ws/node_modules/.jerky/alpha@1.0.0/node_modules/width-cjs -> \
             ../../string-width@4.2.3/node_modules/string-width",
            "link /ws/node_modules/alpha -> .jerky/alpha@1.0.0/node_modules/alpha",
            "link /ws/packages/ui/node_modules/empty -> ../../empty",
            "link /ws/packages/ui/node_modules/width-cjs -> \
             ../../../node_modules/.jerky/string-width@4.2.3/node_modules/string-width",
            "converge /ws",
            "converge /ws/packages/empty",
            "converge /ws/packages/ui",
            "prune",
        ]
    );
    assert!(plan.expected_in("/ws/packages/ui").has("width-cjs"));
    assert_eq!(plan.expected_in("/ws/packages/empty").len(), 0);
    assert!(plan.expected_entries().has("beta@2.0.0"));
}

#[test]
fn a_project_that_is_no_member_cannot_be_planned() {
    let mut importers = SortedMap::new();
    importers.insert(at("packages/gone"), importer(vec![]));
    let graph = ResolvedGraph { importers, packages: SortedMap::new() };
    assert!(plan_for(&graph, &solo(&[]), &Store::new("/store")).is_none());
}

fn here() -> Platform {
    Platform::new("linux", "x64")
}

fn run<R: RegistryClient>(
    workspace: &Workspace,
    locked: Option<&ResolvedGraph>,
    registry: &mut R,
    mode: Mode,
) -> Result<Synced, InstallError> {
    sync(workspace, &Store::new("/store"), locked, registry, None, mode, &here())
}

fn locked_by(done: &Synced) -> ResolvedGraph {
    load(done.lock.as_ref().unwrap()).unwrap()
}

fn linked(done: &Synced) -> Vec<String> {
    done.linked.iter().map(|one| format!("{}@{}", one.name, one.version)).collect()
}

fn tree() -> FixtureRegistry {
    FixtureRegistry::new().with_tree(&[
        ("a", "1.0.0", &[("d", "^1.0.0")]),
        ("b", "1.0.0", &[("d", "^2.0.0")]),
        ("d", "1.5.0", &[]),
        ("d", "2.1.0", &[]),
    ])
}

#[test]
fn incompatible_ranges_each_get_their_own_version() {
    let workspace = solo(&[("dependencies", &[("a", "^1.0.0")]), ("devDependencies", &[("b", "^1.0.0")])]);

    let done = run(&workspace, None, &mut tree(), Mode::Develop).unwrap();

    assert_eq!(linked(&done), ["a@1.0.0", "b@1.0.0", "d@1.5.0", "d@2.1.0"]);
    assert!(done.plan.is_some());
    assert!(done.recorded.is_none());
    let outcome = done.into_outcome(Vec::new());
    assert_eq!(outcome.linked.len(), 4);
    assert!(outcome.skipped.is_empty() && outcome.unsatisfied_peers.is_empty());
}

#[test]
fn a_second_sync_asks_for_nothing_and_changes_nothing() {
    let workspace = solo(&[("dependencies", &[("a", "^1.0.0"), ("b", "1.0.0")])]);
    let first = run(&workspace, None, &mut tree(), Mode::Develop).unwrap();
    let lock = locked_by(&first);

    let mut nothing = FixtureRegistry::new();
    let second = run(&workspace, Some(&lock), &mut nothing, Mode::Develop).unwrap();

    assert_eq!(nothing.packument_calls(), 0);
    assert_eq!(linked(&first), linked(&second));
    assert_eq!(format!("{:?}", first.lock), format!("{:?}", second.lock));
}

#[test]
fn production_takes_what_the_lockfile_records_and_no_dev_dependencies() {
    let workspace = solo(&[("dependencies", &[("a", "^1.0.0")]), ("devDependencies", &[("b", "^1.0.0")])]);
    let lock = locked_by(&run(&workspace, None, &mut tree(), Mode::Develop).unwrap());

    let mut nothing = FixtureRegistry::new();
    let done = run(&workspace, Some(&lock), &mut nothing, Mode::Production).unwrap();

    assert_eq!(linked(&done), ["a@1.0.0", "d@1.5.0"]);
    assert!(done.lock.is_none());
    assert_eq!(nothing.packument_calls(), 0);
}

#[test]
fn production_refuses_a_lockfile_that_does_not_match() {
    let workspace = solo(&[("dependencies", &[("a", "^1.0.0")])]);
    let lock = locked_by(&run(&workspace, None, &mut tree(), Mode::Develop).unwrap());
    let refused = |workspace: &Workspace, lock: Option<&ResolvedGraph>| {
        run(workspace, lock, &mut FixtureRegistry::new(), Mode::Production).unwrap_err()
    };

    match refused(&workspace, None) {
        InstallError::ProductionLockfileMissing { path } => assert_eq!(path, "/ws/jerky-lock.json"),
        other => panic!("{other:?}"),
    }
    match refused(&solo(&[("devDependencies", &[("a", "^1.0.0")])]), Some(&lock)) {
        InstallError::ProductionLockfileStale { importer, name, declared, locked } => {
            assert_eq!((importer.as_str(), name.as_str()), (".", "a"));
            assert_eq!(declared, "`^1.0.0` in devDependencies");
            assert_eq!(locked, "`^1.0.0` in dependencies");
        }
        other => panic!("{other:?}"),
    }
    match refused(&solo(&[("dependencies", &[("a", "^1.0.0"), ("b", "*")])]), Some(&lock)) {
        InstallError::ProductionLockfileStale { name, locked, .. } => {
            assert_eq!((name.as_str(), locked.as_str()), ("b", "nothing"));
        }
        other => panic!("{other:?}"),
    }
    match refused(&solo(&[]), Some(&lock)) {
        InstallError::ProductionLockfileStale { name, declared, .. } => {
            assert_eq!((name.as_str(), declared.as_str()), ("a", "nothing"));
        }
        other => panic!("{other:?}"),
    }

    let wide = workspace_with(
        manifest("/ws", "ws", &[("dependencies", &[("a", "^1.0.0")])]),
        vec![("packages/ui", manifest("/ws/packages/ui", "ui", &[]))],
    );
    let lock = locked_by(&run(&wide, None, &mut tree(), Mode::Develop).unwrap());
    assert!(matches!(
        refused(&workspace, Some(&lock)),
        InstallError::ProductionLockfileImporterGone { importer } if importer == "packages/ui"
    ));
}

#[test]
fn a_republished_tarball_is_refused() {
    let workspace = solo(&[("dependencies", &[("a", "^1.0.0")])]);
    let mut before = FixtureRegistry::new().with_package("a", "1.0.0", b"before".to_vec());
    let lock = locked_by(&run(&workspace, None, &mut before, Mode::Develop).unwrap());

    let edited = solo(&[("dependencies", &[("a", "1.0.0")])]);
    let mut after = FixtureRegistry::new().with_package("a", "1.0.0", b"after".to_vec());

    match run(&edited, Some(&lock), &mut after, Mode::Develop) {
        Err(InstallError::LockedIntegrityMismatch { name, version, locked, reported }) => {
            assert_eq!((name.as_str(), version.as_str()), ("a", "1.0.0"));
            assert_ne!(locked, reported);
        }
        other => panic!("{other:?}"),
    }
}

fn add(workspace: &Workspace, spec: &str, kind: Option<Kind>) -> (Synced, Manifest) {
    let spec = parse_package_spec(spec).unwrap();
    let (done, manifest) = install(
        workspace,
        &ImporterPath::root(),
        &Store::new("/store"),
        None,
        &mut tree(),
        &spec,
        kind,
        &here(),
    )
    .unwrap();
    (done, manifest.unwrap())
}

#[test]
fn a_request_is_pinned_unless_it_is_a_range() {
    let workspace = solo(&[]);
    for (spec, recorded) in [
        ("d", "2.1.0"),
        ("d@latest", "2.1.0"),
        ("d@^1.0.0", "^1.0.0"),
        ("d@1.5.0", "1.5.0"),
        ("alias@npm:d@^1.0.0", "npm:d@^1.0.0"),
        ("alias@npm:d", "npm:d@2.1.0"),
    ] {
        let (done, manifest) = add(&workspace, spec, None);
        let kept = done.recorded.as_ref().unwrap();
        assert_eq!(kept.specifier, recorded, "{spec}");
        assert_eq!(kept.kind, Kind::Prod);
        assert_eq!(manifest.dependencies().named(&kept.name).unwrap(), recorded);

        let declared = workspace_with(manifest, vec![]);
        let again = run(
            &declared,
            Some(&locked_by(&done)),
            &mut FixtureRegistry::new(),
            Mode::Production,
        );
        assert!(again.is_ok(), "{spec} left a stale lockfile: {again:?}");
    }
}

#[test]
fn an_install_after_a_recorded_request_has_nothing_to_do() {
    let workspace = solo(&[("dependencies", &[("a", "^1.0.0")]), ("devDependencies", &[("d", "^1.0.0")])]);
    for (spec, kind) in [
        ("d@2.1.0", None),
        ("d@^1.0.0", Some(Kind::Prod)),
        ("b", Some(Kind::Dev)),
        ("a@1.0.0", None),
    ] {
        let (first, manifest) = add(&workspace, spec, kind);
        let mut nothing = FixtureRegistry::new();
        let declared = workspace_with(manifest, vec![]);
        let second =
            run(&declared, Some(&locked_by(&first)), &mut nothing, Mode::Develop).unwrap();
        assert_eq!(nothing.packument_calls(), 0, "{spec}");
        assert_eq!(format!("{:?}", first.lock), format!("{:?}", second.lock), "{spec}");
    }
}

#[test]
fn a_section_is_named_or_kept() {
    let workspace = solo(&[("devDependencies", &[("d", "^1.0.0")])]);
    let (kept, manifest) = add(&workspace, "d@2.1.0", None);
    assert_eq!(kept.recorded.unwrap().kind, Kind::Dev);
    assert_eq!(manifest.dev_dependencies().named("d").unwrap(), "2.1.0");

    let workspace = solo(&[("dependencies", &[("d", "^1.0.0")])]);
    let (moved, manifest) = add(&workspace, "d@^1.0.0", Some(Kind::Dev));
    assert_eq!(moved.recorded.unwrap().kind, Kind::Dev);
    assert!(manifest.dependencies().is_empty());
    assert_eq!(manifest.dev_dependencies().named("d").unwrap(), "^1.0.0");
}

#[test]
fn a_member_is_recorded_by_its_protocol() {
    let workspace = workspace_with(
        manifest("/ws", "ws", &[]),
        vec![("packages/ui", manifest("/ws/packages/ui", "ui", &[]))],
    );
    let (done, manifest) = add(&workspace, "ui@workspace:*", None);
    let recorded = done.recorded.as_ref().unwrap();
    assert_eq!(recorded.specifier, "workspace:*");
    assert_eq!(recorded.version, "local");
    assert_eq!(manifest.dependencies().named("ui").unwrap(), "workspace:*");
    assert!(done.linked.is_empty());
    assert!(done.plan.unwrap().expected_in("/ws").has("ui"));
}

fn request(importer: &str, seed: VersionSpec) -> Request {
    Request { importer: at(importer), name: "a".to_string(), seed, kind: None }
}

#[test]
fn a_request_that_cannot_be_served_is_refused_before_anything_is_asked() {
    let workspace = solo(&[]);
    let refused = |request: Request| {
        let mut registry = tree();
        let result = sync(
            &workspace,
            &Store::new("/store"),
            None,
            &mut registry,
            Some(&request),
            Mode::Develop,
            &here(),
        );
        assert_eq!(registry.packument_calls(), 0);
        result.unwrap_err()
    };

    assert!(matches!(
        refused(request(".", VersionSpec::Exact("*".into()))),
        InstallError::UnconstrainedRange { requested, .. } if requested == "*"
    ));
    assert!(matches!(
        refused(request("packages/none", VersionSpec::Latest)),
        InstallError::UnknownImporter { members, .. } if members == ["."]
    ));
}

#[test]
fn what_cannot_be_resolved_stops_the_sync() {
    let workspace = solo(&[("dependencies", &[("nowhere", "^1.0.0")])]);
    assert!(matches!(
        run(&workspace, None, &mut tree(), Mode::Develop),
        Err(InstallError::Resolve(ResolveError::Registry(_)))
    ));
}

#[test]
fn a_recorded_dependency_answers_a_request_for_it() {
    let recorded = importer(vec![(
        "a",
        dependency("^1.0.0", Resolution::Registry(id("a", "1.4.0"))),
    )]);
    let answers = |seed: VersionSpec, kind| {
        let mut asked = request(".", seed);
        asked.kind = kind;
        already_satisfies(&recorded, &asked)
    };
    let exact = |text: &str| VersionSpec::Exact(text.to_string());

    assert!(answers(exact("^1.0.0"), None));
    assert!(answers(exact("1.4.0"), None));
    assert!(answers(exact("1.4.0"), Some(Kind::Prod)));
    assert!(!answers(exact("1.4.0"), Some(Kind::Dev)));
    assert!(!answers(exact("1.5.0"), None));
    assert!(!answers(VersionSpec::Latest, None));
}

#[test]
fn ranges_are_told_from_versions_and_tags() {
    assert_eq!(declared_range("^4.0.0"), Some("^4.0.0"));
    assert_eq!(declared_range("4.17.21"), None);
    assert_eq!(declared_range("latest"), None);
    assert_eq!(unconstrained_range(">=0.0.0"), Some(">=0.0.0"));
    assert_eq!(unconstrained_range("^1.0.0"), None);
    assert_eq!(unconstrained_range("latest"), None);
}

#[test]
fn only_what_the_store_lacks_is_fetched_and_only_what_verifies_is_kept() {
    let workspace = solo(&[("dependencies", &[("a", "^1.0.0")])]);
    let mut registry = tree();
    let done = run(&workspace, None, &mut registry, Mode::Develop).unwrap();
    let store = Store::new("/store");
    let d = done.graph.packages.get(&id("d", "1.5.0")).unwrap();

    let mut entries = SortedSet::new();
    entries.insert(d.integrity.store_key());
    let missing: Vec<String> = fetch_missing(&done.graph, &store, &entries)
        .iter()
        .map(|id| id.to_string())
        .collect();
    assert_eq!(missing, ["a@1.0.0"]);

    assert!(fetch_one(&d.id, d, &mut registry).is_ok());
    match verified(&d.id, d, Ok(b"other bytes".to_vec())) {
        Err(InstallError::Integrity { name, version, .. }) => {
            assert_eq!((name.as_str(), version.as_str()), ("d", "1.5.0"));
        }
        other => panic!("{other:?}"),
    }
    assert!(matches!(
        fetch_one(&d.id, d, &mut FixtureRegistry::new()),
        Err(InstallError::Registry(_))
    ));
}

#[test]
fn an_optional_dependency_of_another_machine_is_skipped_here_and_locked_everywhere() {
    let workspace = solo(&[("dependencies", &[("esbuild", "1.0.0")])]);
    let mut registry = FixtureRegistry::new()
        .with_tree(&[
            ("esbuild", "1.0.0", &[]),
            ("win", "1.0.0", &[]),
            ("lin", "1.0.0", &[]),
        ])
        .with_optional_dependencies("esbuild", "1.0.0", &[("win", "1.0.0"), ("lin", "1.0.0")])
        .with_platform("win", "1.0.0", &["win32"], &[])
        .with_platform("lin", "1.0.0", &["linux"], &["x64"]);

    let done = run(&workspace, None, &mut registry, Mode::Develop).unwrap();

    assert_eq!(linked(&done), ["esbuild@1.0.0", "lin@1.0.0"]);
    assert_eq!(done.skipped.len(), 1);
    assert_eq!(done.skipped[0].name, "win");
    assert!(locked_by(&done).packages.contains(&id("win", "1.0.0")));
}

#[test]
fn peers_are_linked_and_complaints_survive_a_lockfile() {
    let workspace = solo(&[("dependencies", &[("dom", "1.0.0"), ("react", "17.0.2")])]);
    let registry = || {
        FixtureRegistry::new()
            .with_tree(&[
                ("dom", "1.0.0", &[]),
                ("react", "17.0.2", &[]),
                ("react", "18.0.0", &[]),
            ])
            .with_declared_peers("dom", "1.0.0", &[("react", "^18.0.0", false)])
    };
    let first = run(&workspace, None, &mut registry(), Mode::Develop).unwrap();
    assert_eq!(first.unsatisfied_peers.len(), 1);
    assert_eq!(first.unsatisfied_peers[0].found.as_deref(), Some("17.0.2"));

    let again = run(
        &workspace,
        Some(&locked_by(&first)),
        &mut FixtureRegistry::new(),
        Mode::Develop,
    )
    .unwrap();
    assert_eq!(again.unsatisfied_peers.len(), 1);

    let fine = solo(&[("dependencies", &[("dom", "1.0.0"), ("react", "18.0.0")])]);
    let done = run(&fine, None, &mut registry(), Mode::Develop).unwrap();
    assert!(done.unsatisfied_peers.is_empty());
    let lock = locked_by(&done);
    assert_eq!(linked(&done), ["dom@1.0.0", "react@18.0.0"]);
    let plan = done.plan.unwrap();
    let entry = plan.entries.named("dom@1.0.0(react@18.0.0)").unwrap();
    assert_eq!(entry.edges.named("react").unwrap().dir_name, "react@18.0.0");
    let mut nothing = FixtureRegistry::new();
    run(&fine, Some(&lock), &mut nothing, Mode::Develop).unwrap();
    assert_eq!(nothing.packument_calls(), 0);
}

#[test]
fn a_lockfile_made_of_old_and_new_parts_reads_back() {
    let registry = || {
        FixtureRegistry::new()
            .with_tree(&[
                ("dom", "1.0.0", &[]),
                ("react", "17.0.1", &[]),
                ("react", "17.0.2", &[]),
                ("react", "18.0.0", &[]),
                ("left", "1.0.0", &[("dom", "1.0.0"), ("react", "17.0.1")]),
                ("right", "1.0.0", &[("dom", "1.0.0"), ("react", "17.0.2")]),
            ])
            .with_declared_peers("dom", "1.0.0", &[("react", "^18.0.0", false)])
    };
    let project = |deps: &[(&str, &str)]| {
        workspace_with(
            manifest("/ws", "ws", &[("dependencies", &[("left", "1.0.0"), ("right", "1.0.0")])]),
            vec![(
                "packages/ui",
                manifest("/ws/packages/ui", "ui", &[("dependencies", deps)]),
            )],
        )
    };
    let first = run(&project(&[]), None, &mut registry(), Mode::Develop).unwrap();
    let grown = project(&[("dom", "1.0.0"), ("react", "18.0.0")]);
    let mut asked = registry();
    let second = run(&grown, Some(&locked_by(&first)), &mut asked, Mode::Develop).unwrap();
    assert_eq!(asked.packument_calls(), 2);

    let lock = locked_by(&second);
    let keys: Vec<String> =
        (0..lock.packages.len()).map(|i| lock.packages.key_at(i).to_string()).collect();
    assert_eq!(
        keys,
        [
            "dom@1.0.0",
            "dom@1.0.0(react@18.0.0)",
            "left@1.0.0",
            "react@17.0.1",
            "react@17.0.2",
            "react@18.0.0",
            "right@1.0.0",
        ]
    );
    let mut nothing = FixtureRegistry::new();
    let third = run(&grown, Some(&lock), &mut nothing, Mode::Develop).unwrap();
    assert_eq!(nothing.packument_calls(), 0);
    assert_eq!(format!("{:?}", second.lock), format!("{:?}", third.lock));
}

#[test]
fn a_version_is_linked_once_however_many_copies_of_it_there_are() {
    let workspace = solo(&[("dependencies", &[("left", "1.0.0"), ("right", "1.0.0")])]);
    let mut registry = FixtureRegistry::new()
        .with_tree(&[
            ("dom", "1.0.0", &[]),
            ("react", "17.0.0", &[]),
            ("react", "18.0.0", &[]),
            ("left", "1.0.0", &[("dom", "1.0.0"), ("react", "17.0.0")]),
            ("right", "1.0.0", &[("dom", "1.0.0"), ("react", "18.0.0")]),
        ])
        .with_declared_peers("dom", "1.0.0", &[("react", "*", false)]);
    let done = run(&workspace, None, &mut registry, Mode::Develop).unwrap();
    assert_eq!(locked_by(&done).packages.len(), 6);
    assert_eq!(
        linked(&done),
        ["dom@1.0.0", "left@1.0.0", "react@17.0.0", "react@18.0.0", "right@1.0.0"]
    );
}

#[test]
fn a_production_sync_asks_nothing_of_a_project_that_is_new_and_empty() {
    let root = || manifest("/ws", "ws", &[("dependencies", &[("a", "^1.0.0")])]);
    let first = run(&workspace_with(root(), vec![]), None, &mut tree(), Mode::Develop).unwrap();
    let grown = workspace_with(
        root(),
        vec![("packages/ui", manifest("/ws/packages/ui", "ui", &[]))],
    );
    let mut nothing = FixtureRegistry::new();
    let done = run(&grown, Some(&locked_by(&first)), &mut nothing, Mode::Production).unwrap();
    assert_eq!(nothing.packument_calls(), 0);
    assert_eq!(linked(&done), ["a@1.0.0", "d@1.5.0"]);
    assert!(done.plan.is_some() && done.recorded.is_none() && done.lock.is_none());
}
