use jerky::directory::{ancestors, create_all, create_level, AfterMkdir, Mkdir, MODE};
use jerky::error::JerkyError;
use jerky::globs::{collect, DirEntry, MemberGlobs};
use jerky::json::{Object, Value};
use jerky::manifest::{Manifest, ManifestError};
use jerky::resolver::ImporterPath;
use jerky::workspace::{
    claims, importer_for, Candidate, Level, Standing, Warning, Workspace, WorkspaceError,
};

fn manifest(dir: &str, name: Option<&str>, patterns: &[&str]) -> Manifest {
    let mut object = Object::new();
    if let Some(name) = name {
        object = object.insert("name", Value::Text(name.to_string()));
    }
    if !patterns.is_empty() {
        let items = patterns.iter().map(|p| Value::Text(p.to_string())).collect();
        object = object.insert("workspaces", Value::Array(items));
    }
    Manifest::load(&format!("{dir}/package.json"), Value::Object(object)).unwrap()
}

fn member(path: &str, name: Option<&str>) -> Candidate {
    Candidate {
        importer: ImporterPath::new(path).unwrap(),
        manifest: Ok(manifest(&format!("/ws/{path}"), name, &[])),
    }
}

fn stray(path: &str) -> Candidate {
    Candidate {
        importer: ImporterPath::new(path).unwrap(),
        manifest: Err(ManifestError::NotFound(format!("/ws/{path}"))),
    }
}

fn monorepo() -> Workspace {
    Workspace::discover(
        "/ws",
        manifest("/ws", Some("ws"), &["packages/*"]),
        &vec![member("packages/ui", Some("ui")), member("packages/api", Some("api"))],
    )
    .unwrap()
}

fn globs(patterns: &[&str]) -> MemberGlobs {
    let list: Vec<String> = patterns.iter().map(|p| p.to_string()).collect();
    match MemberGlobs::compile(&list) {
        Ok(globs) => globs,
        Err(error) => panic!("{error:?}"),
    }
}

#[test]
fn a_spec_from_a_directory_belonging_to_no_member_is_refused() {
    let workspace = monorepo();

    match importer_for(&workspace, "/ws/tools/scripts", Some("/ws/tools/scripts")) {
        Err(JerkyError::NotInAMember { members, directory }) => {
            assert_eq!(members, [".", "packages/api", "packages/ui"]);
            assert_eq!(directory, "/ws/tools/scripts");
        }
        other => panic!("expected NotInAMember, got {other:?}"),
    }
}

#[test]
fn a_bare_install_asks_no_such_question() {
    let levels = vec![
        Level { dir: "/ws/tools/scripts".into(), manifest: Standing::Missing },
        Level { dir: "/ws/tools".into(), manifest: Standing::Missing },
        Level { dir: "/ws".into(), manifest: Standing::Declares { claims: false } },
        Level { dir: "/".into(), manifest: Standing::Missing },
    ];

    assert_eq!(Workspace::find_root(&levels).unwrap(), "/ws");
}

#[test]
fn a_spec_from_inside_a_member_names_that_member() {
    let workspace = monorepo();

    let importer = importer_for(&workspace, "/ws/packages/ui", Some("/ws/packages/ui")).unwrap();
    assert_eq!(importer.as_str(), "packages/ui");
}

#[test]
fn a_workspace_of_one_has_nothing_to_be_ambiguous_about() {
    let workspace =
        Workspace::discover("/solo", manifest("/solo", Some("solo"), &[]), &vec![]).unwrap();

    let importer =
        importer_for(&workspace, "/solo/tools/scripts", Some("/solo/tools/scripts")).unwrap();
    assert!(importer.is_root());
}

#[test]
fn standing_at_the_root_is_not_being_lost() {
    let workspace = monorepo();
    assert!(importer_for(&workspace, "/ws", Some("/ws")).unwrap().is_root());
    assert!(matches!(
        importer_for(&workspace, "/elsewhere", None),
        Err(JerkyError::NoManifestAnywhere(_))
    ));
}

#[test]
fn the_nearest_enclosing_member_is_the_one() {
    let workspace = Workspace::discover(
        "/ws",
        manifest("/ws", None, &["packages/*", "packages/ui/*"]),
        &vec![
            member("packages/ui", Some("ui")),
            member("packages/ui/inner", Some("inner")),
            member("packages/ui-kit", Some("kit")),
        ],
    )
    .unwrap();
    let standing = |dir| workspace.member_for(dir).map(|member| member.importer.as_str());

    assert_eq!(standing("/ws/packages/ui/src"), Some("packages/ui"));
    assert_eq!(standing("/ws/packages/ui/inner/src"), Some("packages/ui/inner"));
    assert_eq!(standing("/ws/packages/ui-kit"), Some("packages/ui-kit"));
    assert_eq!(standing("/ws/docs"), Some("."));
    assert_eq!(standing("/elsewhere"), None);
    assert_eq!(workspace.member_by_name("kit").unwrap().path, "/ws/packages/ui-kit");
    assert!(workspace.member_by_name("nobody").is_none());
    assert_eq!(workspace.root(), "/ws");
}

#[test]
fn a_pattern_that_finds_no_member_is_warned_about() {
    let workspace = Workspace::discover(
        "/ws",
        manifest("/ws", None, &["packages/*", "tools/*", "apps/*"]),
        &vec![member("packages/ui", None), stray("tools/cache")],
    )
    .unwrap();

    let patterns: Vec<&str> = workspace
        .warnings()
        .iter()
        .map(|Warning::PatternMatchedNothing(pattern)| pattern.as_str())
        .collect();
    assert_eq!(patterns, ["tools/*", "apps/*"]);
    assert_eq!(workspace.members().len(), 2);
}

#[test]
fn two_members_cannot_have_one_name() {
    let result = Workspace::discover(
        "/ws",
        manifest("/ws", None, &["packages/*"]),
        &vec![member("packages/b", Some("ui")), member("packages/a", Some("ui"))],
    );

    match &result {
        Err(WorkspaceError::DuplicateName { name, first, second }) => {
            assert_eq!(name, "ui");
            assert_eq!((first.as_str(), second.as_str()), ("packages/a", "packages/b"));
        }
        other => panic!("{other:?}"),
    }
    assert!(claims(&result, "/ws/packages/a"), "what is wrong has to come to light");
    assert!(claims(&Ok(monorepo()), "/ws/packages/ui/src"));
    assert!(!claims(&Ok(monorepo()), "/ws/docs"));
}

#[test]
fn a_manifest_that_cannot_be_read_is_a_failure() {
    let broken = Candidate {
        importer: ImporterPath::new("packages/ui").unwrap(),
        manifest: Err(ManifestError::NotAnObject("/ws/packages/ui/package.json".into())),
    };
    let unmatched = Candidate {
        importer: ImporterPath::new("docs").unwrap(),
        manifest: Err(ManifestError::NotAnObject("/ws/docs/package.json".into())),
    };

    let root = || manifest("/ws", None, &["packages/*"]);
    assert!(Workspace::discover("/ws", root(), &vec![unmatched]).is_ok());
    assert!(matches!(
        Workspace::discover("/ws", root(), &vec![broken]),
        Err(WorkspaceError::Manifest(ManifestError::NotAnObject(_)))
    ));
}

#[test]
fn patterns_outside_the_workspace_and_broken_ones_are_refused() {
    let refused = |pattern: &str| {
        Workspace::discover("/ws", manifest("/ws", None, &[pattern]), &vec![]).err().unwrap()
    };
    assert!(matches!(
        refused("../siblings/*"),
        WorkspaceError::EscapesRoot { .. }
    ));
    assert!(matches!(refused("packages/["), WorkspaceError::BadPattern { .. }));
}

#[test]
fn a_star_stays_inside_one_level_and_bounds_the_depth() {
    let flat = globs(&["packages/*", "tools"]);
    assert_eq!(flat.matches("packages/ui"), [0]);
    assert_eq!(flat.matches("tools"), [1]);
    assert!(flat.matches("packages/ui/src").is_empty());
    assert!(flat.can_reach_below(1));
    assert!(!flat.can_reach_below(2));

    let deep = globs(&["packages/**"]);
    assert_eq!(deep.matches("packages/a/b"), [0]);
    assert!(deep.can_reach_below(40));
    assert!(!globs(&[]).can_reach_below(0));
}

#[test]
fn a_walk_passes_over_installed_packages_and_links() {
    let entry = |name: &str, is_dir| DirEntry { name: name.to_string(), is_dir };
    let entries = vec![
        entry("packages", true),
        entry("node_modules", true),
        entry(".git", true),
        entry("README.md", false),
        entry("docs", true),
    ];

    let children = collect(&globs(&["packages/*", "docs"]), "", &entries);

    let seen: Vec<(&str, bool, bool)> = children
        .iter()
        .map(|child| (child.relative.as_str(), child.matched, child.descend))
        .collect();
    assert_eq!(seen, [("packages", false, true), ("docs", true, true)]);

    let below = collect(&globs(&["packages/*"]), "packages", &vec![entry("ui", true)]);
    assert_eq!(below[0].relative, "packages/ui");
    assert!(below[0].matched && !below[0].descend);
    assert!(collect(&globs(&["docs"]), "packages/ui", &entries).is_empty());
}

#[test]
fn a_claiming_workspace_beats_a_nearer_manifest() {
    let level = |dir: &str, manifest| Level { dir: dir.to_string(), manifest };
    let above = |outer| {
        vec![
            level("/ws/packages/ui", Standing::Plain),
            level("/ws/packages", Standing::Missing),
            level("/ws", outer),
        ]
    };
    let root = |outer| Workspace::find_root(&above(outer)).unwrap();
    assert_eq!(root(Standing::Declares { claims: true }), "/ws");
    assert_eq!(root(Standing::Declares { claims: false }), "/ws/packages/ui");
    assert_eq!(Workspace::find_root(&vec![level("/", Standing::Missing)]), None);
}

#[test]
fn only_missing_levels_are_made_the_outermost_first() {
    let levels = ancestors("/a/b/c");
    assert_eq!(levels, ["/a/b/c", "/a/b", "/a", "/"]);
    assert_eq!(
        create_all(&levels, &vec![false, false, true, true]),
        ["/a/b", "/a/b/c"]
    );
    assert!(create_all(&levels, &vec![true, true, true, true]).is_empty());
    assert_eq!(ancestors("x/y"), ["x/y", "x", ""]);
    assert_eq!(create_all(&ancestors("x/y"), &vec![false, false, false]), ["x", "x/y"]);
    assert_eq!(MODE, 0o755);
}

#[test]
fn a_level_that_another_made_first_is_left_alone() {
    assert_eq!(create_level(Mkdir::Made), AfterMkdir::SetMode);
    assert_eq!(create_level(Mkdir::Taken { is_dir: true }), AfterMkdir::Leave);
    assert_eq!(create_level(Mkdir::Taken { is_dir: false }), AfterMkdir::Fail);
    assert_eq!(create_level(Mkdir::Failed), AfterMkdir::Fail);
}
