use jerky::graph::Declared;
use jerky::lockfile::{load, save, stays_within_workspace, LockfileError, OnDisk};
use jerky::platform::Platform;
use jerky::resolver::{
    resolve, resolve_peers, resolve_watching, unsatisfied_peers, ImporterPath, Kind, Resolution,
    ResolveError, ResolvedGraph,
};
use jerky::sorted::SortedMap;
use jerky::specifier::choose_version;
use jerky::testing::FixtureRegistry;
use jerky::walk::Heard;

type Roots = SortedMap<ImporterPath, SortedMap<String, Declared>>;

fn at(path: &str) -> ImporterPath {
    ImporterPath::new(path).unwrap()
}

fn roots(projects: &[(&str, &[(&str, &str)])]) -> Roots {
    let mut roots = SortedMap::new();
    for (path, declares) in projects {
        let mut declared = SortedMap::new();
        for (name, specifier) in *declares {
            declared.insert(
                name.to_string(),
                Declared { specifier: specifier.to_string(), kind: Kind::Prod },
            );
        }
        roots.insert(at(path), declared);
    }
    roots
}

fn members(list: &[(&str, &str)]) -> SortedMap<String, ImporterPath> {
    let mut members = SortedMap::new();
    for (name, path) in list {
        members.insert(name.to_string(), at(path));
    }
    members
}

fn resolved(registry: &mut FixtureRegistry, declares: &[(&str, &str)]) -> ResolvedGraph {
    resolve(registry, &roots(&[(".", declares)]), &members(&[])).unwrap()
}

fn refused(registry: &mut FixtureRegistry, declares: &[(&str, &str)]) -> ResolveError {
    resolve(registry, &roots(&[(".", declares)]), &members(&[])).unwrap_err()
}

fn keys(graph: &ResolvedGraph) -> Vec<String> {
    (0..graph.packages.len()).map(|i| graph.packages.key_at(i).to_string()).collect()
}

fn edge(graph: &ResolvedGraph, key: &str, name: &str) -> Option<String> {
    for i in 0..graph.packages.len() {
        if graph.packages.key_at(i).to_string() == key {
            let package = graph.packages.value_at(i);
            let found = package.dependencies.named(name).or_else(|| package.peers.named(name));
            return found.map(|id| id.to_string());
        }
    }
    None
}

#[test]
fn one_walk_answers_for_every_project() {
    let mut registry = FixtureRegistry::new().with_tree(&[
        ("a", "1.0.0", &[("shared", "^1.0.0")]),
        ("b", "1.0.0", &[("shared", "^1.0.0")]),
        ("shared", "1.2.0", &[]),
    ]);
    let asked = roots(&[
        (".", &[("a", "^1.0.0")]),
        ("packages/ui", &[("b", "^1.0.0"), ("root", "workspace:*")]),
    ]);

    let graph = resolve(&mut registry, &asked, &members(&[("root", ".")])).unwrap();

    assert_eq!(keys(&graph), ["a@1.0.0", "b@1.0.0", "shared@1.2.0"]);
    assert_eq!(registry.packument_calls_for("shared"), 1);
    let ui = graph.importers.get(&at("packages/ui")).unwrap();
    assert!(matches!(
        &ui.dependencies.named("root").unwrap().resolution,
        Resolution::Local(path) if path == "../.."
    ));
}

#[test]
fn a_cycle_of_dependencies_ends() {
    let mut registry = FixtureRegistry::new()
        .with_tree(&[("a", "1.0.0", &[("b", "^1.0.0")]), ("b", "1.0.0", &[("a", "^1.0.0")])]);
    let graph = resolved(&mut registry, &[("a", "^1.0.0")]);
    assert_eq!(keys(&graph), ["a@1.0.0", "b@1.0.0"]);
    assert_eq!(edge(&graph, "b@1.0.0", "a").unwrap(), "a@1.0.0");
}

#[test]
fn an_alias_is_recorded_under_the_name_it_takes() {
    let mut registry = FixtureRegistry::new().with_tree(&[
        ("a", "1.0.0", &[("width-cjs", "npm:string-width@^4.0.0")]),
        ("string-width", "4.2.3", &[]),
    ]);
    let graph = resolved(&mut registry, &[("a", "1.0.0")]);
    assert_eq!(edge(&graph, "a@1.0.0", "width-cjs").unwrap(), "string-width@4.2.3");
}

#[test]
fn every_way_to_fail_says_what_is_wrong() {
    let mut registry = FixtureRegistry::new().with_packument("a", &[("1.0.0", &[])]);

    assert!(matches!(
        refused(&mut registry, &[("a", "^9.0.0")]),
        ResolveError::Unsatisfiable { available, .. } if available == ["1.0.0"]
    ));
    assert!(matches!(
        refused(&mut registry, &[("a", "nightly")]),
        ResolveError::UnresolvableSpec { tags, .. } if tags == ["latest"]
    ));
    assert!(matches!(
        refused(&mut registry, &[("a", "git+ssh://x")]),
        ResolveError::UnsupportedScheme { scheme, .. } if scheme == "git+ssh"
    ));
    assert!(matches!(
        refused(&mut registry, &[("a", "npm:")]),
        ResolveError::MalformedAlias { .. }
    ));
    assert!(matches!(
        refused(&mut registry, &[("a", "workspace:*")]),
        ResolveError::NoSuchMember { .. }
    ));
    assert!(matches!(
        refused(&mut registry, &[("b", "1.0.0")]),
        ResolveError::Registry(_)
    ));
}

#[test]
fn a_tag_that_names_no_published_version_dangles() {
    let mut packument = jerky::registry::Packument {
        name: "a".to_string(),
        versions: SortedMap::new(),
        dist_tags: SortedMap::new(),
    };
    packument.dist_tags.insert("latest".to_string(), "3.0.0".to_string());
    assert!(matches!(
        choose_version(&packument, "a", "latest"),
        Err(ResolveError::DanglingTag { version, .. }) if version == "3.0.0"
    ));
}

#[test]
fn a_tag_sees_what_a_range_may_not() {
    let mut registry = FixtureRegistry::new()
        .with_packument("a", &[("1.0.0", &[])])
        .with_current_version("a", "1.1.0", &[]);
    assert_eq!(keys(&resolved(&mut registry, &[("a", "^1.0.0")])), ["a@1.0.0"]);
    assert_eq!(keys(&resolved(&mut registry, &[("a", "latest")])), ["a@1.1.0"]);
}

#[test]
fn a_watcher_is_told_of_versions_and_changes_nothing() {
    let tree = || {
        FixtureRegistry::new().with_tree(&[
            ("a", "1.0.0", &[("b", "^1.0.0")]),
            ("b", "1.3.0", &[]),
        ])
    };
    let mut heard = Heard { candidates: Vec::new() };
    let watched = resolve_watching(
        &mut tree(),
        &roots(&[(".", &[("a", "^1.0.0")])]),
        &members(&[]),
        &mut heard,
    )
    .unwrap();

    assert_eq!(keys(&watched), keys(&resolved(&mut tree(), &[("a", "^1.0.0")])));
    assert_eq!(heard.candidates.len(), 2);
    for i in 0..watched.packages.len() {
        let package = watched.packages.value_at(i);
        assert!(heard.candidates.iter().any(|told| {
            told.id.to_string() == package.id.to_string()
                && told.resolved == package.resolved
                && told.integrity.to_ssri() == package.integrity.to_ssri()
        }));
    }
}

#[test]
fn projects_that_declare_nothing_ask_nothing() {
    let mut registry = FixtureRegistry::new();
    let graph = resolve(&mut registry, &roots(&[(".", &[]), ("packages/ui", &[])]), &members(&[]));
    assert_eq!(graph.unwrap().importers.len(), 2);
    assert_eq!(registry.packument_calls(), 0);
}

#[test]
fn a_lockfile_written_again_is_the_same_lockfile() {
    for graph in [peered(), tangled()] {
        let once = save(&graph);
        let again = save(&load(&once).unwrap());
        assert_eq!(format!("{once:?}"), format!("{again:?}"));
    }
}

#[test]
fn a_package_answers_its_own_peer_before_anything_above_it() {
    let mut registry = FixtureRegistry::new()
        .with_tree(&[
            ("tool", "1.0.0", &[("host", "1.0.0")]),
            ("host", "1.0.0", &[]),
            ("host", "2.0.0", &[]),
        ])
        .with_declared_peers("tool", "1.0.0", &[("host", "*", false)]);
    let declares = [("tool", "1.0.0"), ("host", "2.0.0")];
    let (graph, complaints) = resolve_peers(resolved(&mut registry, &declares));
    assert!(complaints.is_empty());
    let tool = (0..graph.packages.len())
        .map(|i| graph.packages.value_at(i))
        .find(|package| package.id.name == "tool")
        .unwrap();
    assert_eq!(tool.peers.named("host").unwrap().to_string(), "host@1.0.0");
    assert_eq!(tool.dependencies.named("host").unwrap().to_string(), "host@1.0.0");
}

#[test]
fn a_package_is_copied_for_each_answer_to_its_peers() {
    let mut registry = FixtureRegistry::new()
        .with_tree(&[
            ("plugin", "1.0.0", &[]),
            ("host", "1.0.0", &[]),
            ("host", "2.0.0", &[]),
            ("left", "1.0.0", &[("plugin", "1.0.0"), ("host", "1.0.0")]),
            ("right", "1.0.0", &[("plugin", "1.0.0"), ("host", "2.0.0")]),
        ])
        .with_declared_peers("plugin", "1.0.0", &[("host", ">=1.0.0", false)]);

    let (graph, complaints) =
        resolve_peers(resolved(&mut registry, &[("left", "1.0.0"), ("right", "1.0.0")]));

    assert!(complaints.is_empty());
    let all = keys(&graph);
    assert!(all.contains(&"plugin@1.0.0(host@1.0.0)".to_string()), "{all:?}");
    assert!(all.contains(&"plugin@1.0.0(host@2.0.0)".to_string()), "{all:?}");
    assert_eq!(
        edge(&graph, "plugin@1.0.0(host@2.0.0)", "host").unwrap(),
        "host@2.0.0"
    );
}

#[test]
fn an_optional_peer_is_missed_in_silence() {
    let mut registry = FixtureRegistry::new()
        .with_packument("a", &[("1.0.0", &[])])
        .with_declared_peers("a", "1.0.0", &[("x", "^1.0.0", true), ("y", "^1.0.0", false)]);
    let (graph, complaints) = resolve_peers(resolved(&mut registry, &[("a", "1.0.0")]));
    assert_eq!(complaints.len(), 1);
    assert_eq!(complaints[0].peer, "y");
    assert_eq!(complaints[0].found, None);
    assert_eq!(unsatisfied_peers(&graph).len(), 1);
}

fn peered() -> ResolvedGraph {
    let mut registry = FixtureRegistry::new()
        .with_tree(&[
            ("dom", "18.2.0", &[("scheduler", "^0.23.0")]),
            ("scheduler", "0.23.0", &[]),
            ("react", "18.2.0", &[]),
            ("@types/node", "20.0.0", &[]),
            ("fsevents", "2.3.0", &[]),
        ])
        .with_declared_peers("dom", "18.2.0", &[("react", "^18.2.0", false)])
        .with_optional_dependencies("dom", "18.2.0", &[("fsevents", "^2.0.0")])
        .with_platform("fsevents", "2.3.0", &["darwin"], &[])
        .with_bins("dom", "18.2.0", &[("dom", "cli.js")]);
    let declares = [("dom", "^18.0.0"), ("react", "18.2.0"), ("@types/node", "20.0.0")];
    resolve_peers(resolved(&mut registry, &declares)).0
}

#[test]
fn a_lockfile_reads_back_as_the_graph_it_was_written_from() {
    let graph = peered();
    let read = load(&save(&graph)).unwrap();
    assert_eq!(format!("{graph:?}"), format!("{read:?}"));
}

/// Three packages that are each other's peers, around a loop of dependencies.
fn tangled() -> ResolvedGraph {
    let mut registry = FixtureRegistry::new()
        .with_tree(&[
            ("a", "1.0.0", &[("b", "1.0.0")]),
            ("b", "1.0.0", &[("a", "1.0.0"), ("c", "1.0.0")]),
            ("c", "1.0.0", &[]),
            ("p", "1.0.0", &[]),
        ])
        .with_declared_peers("a", "1.0.0", &[("p", "^1.0.0", false)])
        .with_declared_peers("p", "1.0.0", &[("a", "^1.0.0", false)])
        .with_declared_peers("c", "1.0.0", &[("p", "^1.0.0", false), ("a", "^1.0.0", false)]);
    resolve_peers(resolved(&mut registry, &[("a", "1.0.0"), ("p", "1.0.0")])).0
}

#[test]
fn a_lockfile_reads_back_though_contexts_go_round_in_circles() {
    let graph = tangled();
    assert!(keys(&graph).len() >= 4);
    let read = load(&save(&graph)).unwrap();
    assert_eq!(format!("{graph:?}"), format!("{read:?}"));
}

#[test]
fn pruning_a_graph_whose_peers_were_resolved_drops_nothing() {
    for graph in [peered(), tangled()] {
        let before = format!("{graph:?}");
        assert_eq!(format!("{:?}", graph.reachable()), before);
    }
}

fn tampered(change: impl Fn(&mut OnDisk)) -> LockfileError {
    let mut lock = save(&peered());
    change(&mut lock);
    load(&lock).unwrap_err()
}

fn with_entry(lock: &mut OnDisk, key: &str, change: impl Fn(&mut jerky::lockfile::Entry)) {
    let mut entry = lock.packages.take(&key.to_string()).unwrap();
    change(&mut entry);
    lock.packages.insert(key.to_string(), entry);
}

#[test]
fn a_lockfile_that_was_tampered_with_is_refused() {
    assert!(matches!(
        tampered(|lock| lock.lockfile_version = 99),
        LockfileError::UnsupportedVersion { found: 99, .. }
    ));
    assert!(matches!(
        tampered(|lock| with_entry(lock, "react@18.2.0", |entry| entry.version = "17.0.0".into())),
        LockfileError::KeyVersionMismatch { .. }
    ));
    assert!(matches!(
        tampered(|lock| with_entry(lock, "react@18.2.0", |entry| entry.integrity = "md5-x".into())),
        LockfileError::BadIntegrity { .. }
    ));
    assert!(matches!(
        tampered(|lock| {
            lock.packages.take(&"scheduler@0.23.0".to_string());
        }),
        LockfileError::DanglingEdge { .. }
    ));
    assert!(matches!(
        tampered(|lock| {
            let entry = lock.packages.take(&"react@18.2.0".to_string()).unwrap();
            lock.packages.insert("react".to_string(), entry);
        }),
        LockfileError::BadKey { .. }
    ));
    assert!(matches!(
        tampered(|lock| {
            let project = lock.importers.take(&".".to_string()).unwrap();
            lock.importers.insert("../outside".to_string(), project);
        }),
        LockfileError::BadImporter { .. }
    ));
    assert!(matches!(
        tampered(|lock| {
            let mut project = lock.importers.take(&".".to_string()).unwrap();
            let mut react = project.dependencies.take(&"react".to_string()).unwrap();
            react.version = "link:../elsewhere".to_string();
            project.dependencies.insert("react".to_string(), react);
            lock.importers.insert(".".to_string(), project);
        }),
        LockfileError::LinkEscapesWorkspace { .. }
    ));
    assert!(matches!(
        tampered(|lock| {
            let mut project = lock.importers.take(&".".to_string()).unwrap();
            let mut react = project.dependencies.take(&"react".to_string()).unwrap();
            react.version = "9.9.9".to_string();
            project.dependencies.insert("react".to_string(), react);
            lock.importers.insert(".".to_string(), project);
        }),
        LockfileError::UnknownImporterDependency { .. }
    ));
    assert!(matches!(
        tampered(|lock| with_entry(lock, "dom@18.2.0(react@18.2.0)", |entry| {
            entry.peers = SortedMap::new();
        })),
        LockfileError::KeyIdentityMismatch { .. }
    ));
}

#[test]
fn a_link_may_climb_to_the_root_and_no_further() {
    assert!(stays_within_workspace(&at("apps/web"), "../../packages/ui"));
    assert!(!stays_within_workspace(&at("apps/web"), "../../../packages/ui"));
    assert!(!stays_within_workspace(&at("apps/web"), "/packages/ui"));
}

#[test]
fn a_platform_takes_its_part_and_leaves_no_edge_dangling() {
    let graph = peered();
    let (here, skipped) = graph.for_platform(&Platform::new("linux", "x64"));
    assert_eq!(skipped.len(), 1);
    assert_eq!(skipped[0].to_string(), "fsevents@2.3.0");
    assert_eq!(edge(&here, "dom@18.2.0(react@18.2.0)", "fsevents"), None);
    assert_eq!(here.packages.len(), graph.packages.len() - 1);

    let (there, skipped) = graph.for_platform(&Platform::new("darwin", "arm64"));
    assert!(skipped.is_empty());
    assert_eq!(there.packages.len(), graph.packages.len());
}

#[test]
fn what_no_project_leads_to_is_dropped() {
    let mut graph = peered();
    let before = graph.packages.len();
    graph.importers = SortedMap::new();
    assert!(before > 0);
    assert_eq!(graph.reachable().packages.len(), 0);
}
