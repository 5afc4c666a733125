use jerky::linker::{
    converge, copy_tree, hard_link_tree, link_file, normalize, ownership, place_symlink,
    populate_virtual_store, populated, prune_virtual_store, relative_path, symlink_dependency_from,
    symlink_into_store, symlink_local, Converged, Found, HardLink, LinkError, Listing, Placing,
    Populate, Recreate, TreeEntry, UnownedReason,
};
use jerky::sorted::{SortedMap, SortedSet};

fn names(list: &[&str]) -> SortedSet<String> {
    let mut set = SortedSet::new();
    for name in list {
        set.insert(name.to_string());
    }
    set
}

fn listing(entries: Vec<(&str, Found)>, scopes: Vec<(&str, Vec<(&str, Found)>)>) -> Listing {
    let mut top = SortedMap::new();
    for (name, found) in entries {
        top.insert(name.to_string(), found);
    }
    let mut inside = SortedMap::new();
    for (scope, children) in scopes {
        let mut map = SortedMap::new();
        for (name, found) in children {
            map.insert(name.to_string(), found);
        }
        top.insert(scope.to_string(), Found::Directory);
        inside.insert(scope.to_string(), map);
    }
    Listing { entries: top, scopes: inside }
}

fn link(target: &str) -> Found {
    Found::Link(target.to_string())
}

fn converged(expected: &[&str], found: Listing) -> Converged {
    converge("/ws", "/ws", &names(&[]), &names(expected), &found)
}

#[test]
fn hard_link_tree_recreates_nested_directories() {
    let tree = vec![
        TreeEntry { relative: "lib".into(), is_dir: true },
        TreeEntry { relative: "lib/core.js".into(), is_dir: false },
    ];

    let ops = hard_link_tree("/store/x", "/dst", &tree);

    let seen: Vec<(&str, &str, Recreate)> =
        ops.iter().map(|op| (op.from.as_str(), op.to.as_str(), op.how)).collect();
    assert_eq!(
        seen,
        [
            ("/store/x", "/dst", Recreate::Directory),
            ("/store/x/lib", "/dst/lib", Recreate::Directory),
            ("/store/x/lib/core.js", "/dst/lib/core.js", Recreate::Link),
        ]
    );
    assert_eq!(copy_tree("/store/x", "/dst", &tree)[2].how, Recreate::Copy);
}

#[test]
fn only_another_device_makes_a_link_a_copy() {
    assert!(matches!(link_file("/a", "/b", HardLink::Linked), Ok(false)));
    assert!(matches!(link_file("/a", "/b", HardLink::CrossDevice), Ok(true)));
    match link_file("/a", "/b", HardLink::Failed("denied".to_string())) {
        Err(LinkError::Io { from, to, source }) => assert_eq!(
            (from.as_str(), to.as_str(), source.as_str()),
            ("/a", "/b", "denied")
        ),
        other => panic!("{other:?}"),
    }
}

#[test]
fn populate_virtual_store_nests_the_package_under_its_own_node_modules() {
    match populate_virtual_store("/ws/node_modules", "lodash@4.17.21", "lodash", false) {
        Populate::Build { package, target } => {
            assert_eq!(target, "/ws/node_modules/.jerky/lodash@4.17.21");
            assert_eq!(package, "node_modules/lodash");
        }
        other => panic!("{other:?}"),
    }
    match populate_virtual_store("/ws/node_modules", "lodash@4.17.21", "lodash", true) {
        Populate::Present(at) => assert_eq!(at, "/ws/node_modules/.jerky/lodash@4.17.21"),
        other => panic!("{other:?}"),
    }
    let lost = || Some("not empty".to_string());
    assert_eq!(populated("/s", "/t", None, false).unwrap(), "/t");
    assert_eq!(populated("/s", "/t", lost(), true).unwrap(), "/t");
    assert!(matches!(
        populated("/s", "/t", lost(), false),
        Err(LinkError::Io { source, .. }) if source == "not empty"
    ));
}

#[test]
fn symlink_dependency_creates_a_relative_link_that_resolves() {
    let made = symlink_dependency_from("/ws", "/ws", "lodash", "lodash@4.17.21", "lodash");

    assert_eq!(made.path, "/ws/node_modules/lodash");
    assert_eq!(made.target, ".jerky/lodash@4.17.21/node_modules/lodash");
}

#[test]
fn symlink_dependency_replaces_an_existing_link() {
    let path = "/ws/node_modules/lodash";
    let there = Some(link(".jerky/lodash@3.0.0/node_modules/lodash"));
    assert!(matches!(place_symlink(path, &there), Ok(Placing::Replace)));
    assert!(matches!(place_symlink(path, &None), Ok(Placing::Create)));
    for taken in [Found::Directory, Found::File] {
        match place_symlink(path, &Some(taken)) {
            Err(LinkError::ConflictingEntry { path: at }) => assert_eq!(at, path),
            other => panic!("{other:?}"),
        }
    }
}

#[test]
fn a_root_importer_link_climbs_nowhere() {
    let made = symlink_dependency_from("/tmp/ws", "/tmp/ws", "lodash", "lodash@4.17.21", "lodash");
    assert_eq!(made.target, ".jerky/lodash@4.17.21/node_modules/lodash");
}

#[test]
fn depth_is_computed_not_assumed() {
    for (importer, dir_name, expected) in [
        (
            "packages/ui",
            "lodash@4.17.21",
            "../../../node_modules/.jerky/lodash@4.17.21/node_modules/lodash",
        ),
        (
            "apps/web",
            "lodash@4.18.0",
            "../../../node_modules/.jerky/lodash@4.18.0/node_modules/lodash",
        ),
    ] {
        let dir = format!("/tmp/ws/{importer}");
        let made = symlink_dependency_from(&dir, "/tmp/ws", "lodash", dir_name, "lodash");
        assert_eq!(
            made.target, expected,
            "{importer} got a target shaped for another depth"
        );
    }
}

#[test]
fn a_one_level_importer_climbs_twice() {
    let made =
        symlink_dependency_from("/tmp/ws/ui", "/tmp/ws", "lodash", "lodash@4.17.21", "lodash");
    assert_eq!(
        made.target,
        "../../node_modules/.jerky/lodash@4.17.21/node_modules/lodash"
    );
}

#[test]
fn an_intra_store_link_climbs_out_of_its_own_node_modules() {
    let made = symlink_into_store("/tmp/ws/node_modules/.jerky", "b@1.0.0", "d", "d@1.5.0", "d");
    assert_eq!(
        made.path,
        "/tmp/ws/node_modules/.jerky/b@1.0.0/node_modules/d"
    );
    assert_eq!(made.target, "../../d@1.5.0/node_modules/d");
}

#[test]
fn a_local_package_links_straight_at_its_directory() {
    let made = symlink_local("/tmp/ws/apps/web", "ui", "/tmp/ws/packages/ui");
    assert_eq!(made.path, "/tmp/ws/apps/web/node_modules/ui");
    assert_eq!(made.target, "../../../packages/ui");
}

#[test]
fn a_local_link_from_the_root_importer_needs_one_climb() {
    let made = symlink_local("/tmp/ws", "ui", "/tmp/ws/packages/ui");
    assert_eq!(made.target, "../packages/ui");
}

#[test]
fn a_scoped_link_climbs_out_of_its_scope() {
    let made = symlink_dependency_from(
        "/ws",
        "/ws",
        "@types/node",
        "@types/node@20.0.0",
        "@types/node",
    );
    assert_eq!(made.path, "/ws/node_modules/@types/node");
    assert_eq!(
        made.target,
        "../.jerky/@types/node@20.0.0/node_modules/@types/node"
    );
}

#[test]
fn a_dangling_link_into_the_virtual_store_is_recognised_as_ours_and_removed() {
    let found = listing(
        vec![("lodash", link(".jerky/lodash@4.17.21/node_modules/lodash"))],
        vec![],
    );

    let outcome = converged(&[], found);

    assert!(
        outcome.left_alone.is_empty(),
        "a link jerky wrote was reported as someone else's"
    );
    assert_eq!(outcome.remove, ["/ws/node_modules/lodash"]);
}

#[test]
fn a_link_to_a_workspace_member_is_ours() {
    let made = symlink_local("/ws/apps/web", "ui", "/ws/packages/ui");
    let found = listing(vec![("ui", Found::Link(made.target))], vec![]);
    let members = names(&["/ws", "/ws/apps/web", "/ws/packages/ui"]);

    let outcome = converge("/ws/apps/web", "/ws", &members, &names(&[]), &found);

    assert!(
        outcome.left_alone.is_empty(),
        "a link at a workspace member read as unowned"
    );
    assert_eq!(outcome.remove, ["/ws/apps/web/node_modules/ui"]);
}

#[test]
fn an_emptied_scope_directory_is_removed() {
    let found = listing(
        vec![],
        vec![
            (
                "@types",
                vec![("node", link("../.jerky/@types/node@20.0.0/node_modules/@types/node"))],
            ),
            (
                "@scope",
                vec![("live", link("../.jerky/@scope/live@1.0.0/node_modules/@scope/live"))],
            ),
        ],
    );

    let outcome = converged(&["@scope/live"], found);

    assert!(outcome.left_alone.is_empty());
    assert_eq!(outcome.remove, ["/ws/node_modules/@types/node"]);
    assert_eq!(outcome.remove_dirs, ["/ws/node_modules/@types"]);
}

#[test]
fn what_jerky_did_not_write_is_left_and_reported() {
    let found = listing(
        vec![
            (".jerky", Found::Directory),
            ("left-pad", Found::Directory),
            ("linked", link("../../elsewhere")),
            ("stray", Found::File),
            ("wanted", Found::Directory),
        ],
        vec![("@mixed", vec![("ours", link("../.jerky/x/node_modules/x")), ("theirs", Found::File)])],
    );

    let outcome = converged(&["wanted"], found);

    let left: Vec<(&str, UnownedReason)> =
        outcome.left_alone.iter().map(|left| (left.path.as_str(), left.reason)).collect();
    assert_eq!(
        left,
        [
            ("/ws/node_modules/@mixed/theirs", UnownedReason::NotASymlink),
            ("/ws/node_modules/left-pad", UnownedReason::NotASymlink),
            ("/ws/node_modules/linked", UnownedReason::PointsOutside),
            ("/ws/node_modules/stray", UnownedReason::NotASymlink),
        ]
    );
    assert_eq!(outcome.remove, ["/ws/node_modules/@mixed/ours"]);
    assert!(outcome.remove_dirs.is_empty());
}

#[test]
fn the_virtual_store_is_pruned_to_the_graph() {
    let found = listing(
        vec![
            ("lodash@4.17.21", Found::Directory),
            ("lodash@3.10.1", Found::Directory),
            (".staging", Found::Directory),
        ],
        vec![],
    );

    let outcome = prune_virtual_store("/ws/node_modules", &names(&["lodash@4.17.21"]), &found);

    assert_eq!(outcome.remove, ["/ws/node_modules/.jerky/lodash@3.10.1"]);
    assert!(outcome.remove_dirs.is_empty());
}

#[test]
fn a_scoped_store_entry_the_graph_still_names_survives_the_prune() {
    let found = listing(
        vec![],
        vec![(
            "@types",
            vec![("node@20.0.0", Found::Directory), ("node@18.0.0", Found::Directory)],
        )],
    );

    let outcome = prune_virtual_store("/ws/node_modules", &names(&["@types/node@20.0.0"]), &found);

    assert_eq!(outcome.remove, ["/ws/node_modules/.jerky/@types/node@18.0.0"]);
    assert!(outcome.remove_dirs.is_empty(), "the scope still holds a live entry");
}

#[test]
fn a_scope_emptied_by_the_prune_goes_with_its_last_entry() {
    let found = listing(vec![], vec![("@types", vec![("node@20.0.0", Found::Directory)])]);

    let outcome = prune_virtual_store("/ws/node_modules", &names(&[]), &found);

    assert_eq!(outcome.remove, ["/ws/node_modules/.jerky/@types/node@20.0.0"]);
    assert_eq!(outcome.remove_dirs, ["/ws/node_modules/.jerky/@types"]);
}

#[test]
fn a_scope_directory_convergence_did_not_empty_is_left_alone() {
    let found = listing(vec![], vec![("@someone-elses", vec![])]);

    let outcome = converged(&[], found);

    assert!(outcome.remove.is_empty());
    assert!(outcome.remove_dirs.is_empty());
    assert!(outcome.left_alone.is_empty());
}

#[test]
fn a_link_that_climbs_out_of_the_filesystem_is_not_ours() {
    assert_eq!(
        ownership(&link("../../../.."), "/ws", "/ws/node_modules/.jerky", &names(&["/"])),
        Some(UnownedReason::PointsOutside)
    );
    assert_eq!(normalize("/a/./b/../c").len(), 3);
    assert_eq!(relative_path("/a/b", "/a/b"), "");
}
