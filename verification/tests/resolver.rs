use jerky::resolver::{
    alias_target, local_path, split_key, split_name_and_version, Context, ImporterPath,
    ImporterPathError, PackageId,
};
use jerky::sorted::{SortedMap, SortedSet};

fn plain(name: &str, version: &str) -> PackageId {
    PackageId::plain(name, version)
}

fn with_peers(name: &str, version: &str, peers: Vec<PackageId>) -> PackageId {
    let mut context = SortedMap::new();
    for peer in peers {
        context.insert(peer.name.clone(), peer);
    }
    PackageId {
        name: name.to_string(),
        version: version.to_string(),
        context: Context::of(&context),
    }
}

#[test]
fn an_empty_peer_context_renders_as_name_at_version() {
    assert_eq!(plain("lodash", "4.17.21").to_string(), "lodash@4.17.21");
    assert_eq!(
        plain("@types/node", "20.0.0").to_string(),
        "@types/node@20.0.0"
    );
}

#[test]
fn a_single_peer_renders_in_parentheses() {
    let id = with_peers("react-dom", "18.2.0", vec![plain("react", "18.2.0")]);
    assert_eq!(id.to_string(), "react-dom@18.2.0(react@18.2.0)");
}

#[test]
fn peers_render_sorted_whatever_the_insertion_order() {
    let forwards = with_peers("p", "1.0.0", vec![plain("a", "1.0.0"), plain("b", "2.0.0")]);
    let backwards = with_peers("p", "1.0.0", vec![plain("b", "2.0.0"), plain("a", "1.0.0")]);
    assert_eq!(forwards.to_string(), "p@1.0.0(a@1.0.0)(b@2.0.0)");
    assert_eq!(forwards.to_string(), backwards.to_string());
}

#[test]
fn a_scoped_peer_stays_inside_one_path_component() {
    let id = with_peers("p", "1.0.0", vec![plain("@babel/core", "7.24.0")]);
    assert_eq!(id.to_string(), "p@1.0.0(@babel+core@7.24.0)");
}

#[test]
fn a_peer_carrying_its_own_peers_renders_nested() {
    let inner = with_peers("b", "2.0.0", vec![plain("c", "3.0.0")]);
    let id = with_peers("a", "1.0.0", vec![inner, plain("d", "4.0.0")]);
    assert_eq!(id.to_string(), "a@1.0.0(b@2.0.0(c@3.0.0))(d@4.0.0)");
}

fn long_context() -> Vec<PackageId> {
    (0..40)
        .map(|n| plain(&format!("a-rather-long-peer-name-{n}"), "1.0.0"))
        .collect()
}

#[test]
fn a_long_peer_context_collapses_to_a_hash() {
    let rendered = with_peers("p", "1.0.0", long_context()).to_string();

    assert!(
        rendered.len() <= jerky::package_id::MAX_KEY_BYTES,
        "a key must fit a path component, got {} bytes",
        rendered.len()
    );
    assert!(rendered.starts_with("p@1.0.0_"), "got {rendered}");
    assert!(!rendered.contains('('), "the suffix collapsed, got {rendered}");
}

#[test]
fn distinct_long_contexts_hash_differently() {
    let long = |extra: &str| {
        let mut peers = long_context();
        peers.push(plain(extra, "1.0.0"));
        with_peers("p", "1.0.0", peers).to_string()
    };
    assert_ne!(long("x"), long("y"));
}

#[test]
fn a_key_splits_into_its_name_and_version() {
    assert_eq!(split_key("lodash@4.17.21"), Some(("lodash", "4.17.21")));
    assert_eq!(
        split_key("@types/node@20.0.0"),
        Some(("@types/node", "20.0.0")),
        "a scope's leading @ is not the separator"
    );
    assert_eq!(
        split_key("react-dom@18.2.0(react@18.2.0)"),
        Some(("react-dom", "18.2.0")),
        "the peer suffix is not part of the version"
    );
    assert_eq!(
        split_key("a@1.0.0(b@2.0.0(c@3.0.0))(d@4.0.0)"),
        Some(("a", "1.0.0")),
        "however deeply the suffix nests"
    );
    assert_eq!(
        split_key("p@1.0.0_0123456789abcdef"),
        Some(("p", "1.0.0")),
        "a collapsed suffix is still a suffix"
    );
    assert_eq!(split_key("nope"), None);
    assert_eq!(split_key("@scope/only"), None);
}

#[test]
fn an_underscore_in_a_package_name_is_not_a_collapsed_suffix() {
    assert_eq!(split_key("my_pkg@1.0.0"), Some(("my_pkg", "1.0.0")));
    assert_eq!(
        split_key("a_0123456789abcdef@1.0.0"),
        Some(("a_0123456789abcdef", "1.0.0")),
        "hex in the name, but the key does not end with it"
    );
    assert_eq!(
        split_key("my_pkg@1.0.0_0123456789abcdef"),
        Some(("my_pkg", "1.0.0")),
        "a real suffix on a name that also carries an underscore"
    );
    assert_eq!(
        split_key("p@1.0.0_nothex0123456"),
        Some(("p", "1.0.0_nothex0123456")),
        "not hex, so not a suffix — and the version keeps it"
    );
}

#[test]
fn every_rendered_key_splits_back_to_its_name_and_version() {
    for id in [
        plain("lodash", "4.17.21"),
        plain("@types/node", "20.0.0"),
        with_peers("react-dom", "18.2.0", vec![plain("react", "18.2.0")]),
        with_peers(
            "@storybook/react",
            "7.6.0",
            vec![plain("@babel/core", "7.24.0"), plain("react", "18.2.0")],
        ),
        with_peers(
            "a",
            "1.0.0",
            vec![with_peers("b", "2.0.0", vec![plain("c", "3.0.0")])],
        ),
    ] {
        let rendered = id.to_string();
        assert_eq!(
            split_key(&rendered),
            Some((id.name.as_str(), id.version.as_str())),
            "{rendered} did not split back"
        );
    }
}

#[test]
fn splitting_an_alias_target_is_unchanged_by_peers() {
    assert_eq!(
        split_name_and_version("string-width@^4.0.0"),
        Some(("string-width", "^4.0.0"))
    );
    assert_eq!(
        alias_target("npm:safe-execa@0.3.0"),
        Some(("safe-execa", "0.3.0"))
    );
}

#[test]
fn the_root_importer_is_dot_and_has_no_depth() {
    let root = ImporterPath::root();
    assert_eq!(root.as_str(), ".");
    assert!(root.is_root());
    assert_eq!(root.depth(), 0);
}

#[test]
fn depth_counts_directories_below_the_root() {
    assert_eq!(ImporterPath::new("packages").unwrap().depth(), 1);
    assert_eq!(ImporterPath::new("packages/ui").unwrap().depth(), 2);
    assert_eq!(ImporterPath::new("apps/web/inner").unwrap().depth(), 3);
}

#[test]
fn a_leading_current_directory_does_not_count_as_depth() {
    assert_eq!(ImporterPath::new("./packages/ui").unwrap().depth(), 2);
}

#[test]
fn paths_escaping_the_workspace_are_refused() {
    for raw in ["../escape", "packages/../../escape", ".."] {
        assert!(
            matches!(
                ImporterPath::new(raw),
                Err(ImporterPathError::EscapesRoot(_))
            ),
            "{raw} should be refused"
        );
    }
}

#[test]
fn absolute_paths_are_refused() {
    assert!(matches!(
        ImporterPath::new("/etc"),
        Err(ImporterPathError::Absolute(_))
    ));
}

#[test]
fn an_empty_path_is_refused_because_the_root_is_dot() {
    assert!(matches!(
        ImporterPath::new(""),
        Err(ImporterPathError::Empty)
    ));
}

#[test]
fn importers_sort_with_the_root_first() {
    let mut paths = SortedSet::new();
    paths.insert(ImporterPath::new("packages/ui").unwrap());
    paths.insert(ImporterPath::root());
    paths.insert(ImporterPath::new("apps/web").unwrap());
    let order: Vec<String> = (0..paths.len())
        .map(|i| paths.key_at(i).as_str().to_string())
        .collect();
    assert_eq!(order, [".", "apps/web", "packages/ui"]);
}

#[test]
fn a_member_is_seen_from_another_by_climbing_to_the_root() {
    let at = |path| ImporterPath::new(path).unwrap();
    assert_eq!(local_path(&at("apps/web"), &at("packages/ui")), "../../packages/ui");
    assert_eq!(local_path(&ImporterPath::root(), &at("packages/ui")), "packages/ui");
    assert_eq!(local_path(&at("apps/web"), &ImporterPath::root()), "../..");
    assert_eq!(local_path(&ImporterPath::root(), &ImporterPath::root()), ".");
}
