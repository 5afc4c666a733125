use jerky::directory::{ancestors, create_all, create_level, AfterMkdir, Mkdir, MODE};
use jerky::integrity::{Algo, Integrity};
use jerky::order::Duplicate;
use jerky::registry::{Dist, Packument, VersionMetadata};
use jerky::sorted::{SortedMap, SortedSet};
use jerky::store::{CommitStep, Progress, Store, StoreError};

/// What is made so that a directory is there, if these are the directories
/// there are.
fn made(path: &str, there: &[&str]) -> Vec<String> {
    let levels = ancestors(path);
    let is_dir = levels.iter().map(|level| there.contains(&level.as_str())).collect();
    create_all(&levels, &is_dir)
}

#[test]
fn every_level_it_creates_is_0o755() {
    assert_eq!(made("/tmp/d/a/b/c", &["/", "/tmp", "/tmp/d"]), [
        "/tmp/d/a",
        "/tmp/d/a/b",
        "/tmp/d/a/b/c",
    ]);
    assert_eq!(MODE, 0o755);
    assert_eq!(create_level(Mkdir::Made), AfterMkdir::SetMode);
}

#[test]
fn a_level_that_already_existed_keeps_its_own_mode() {
    assert_eq!(made("/d/existing/made", &["/", "/d", "/d/existing"]), ["/d/existing/made"]);
    assert_eq!(create_level(Mkdir::Taken { is_dir: true }), AfterMkdir::Leave);
}

#[test]
fn a_plain_file_in_the_way_is_an_error_at_any_level() {
    assert_eq!(made("/d/file", &["/", "/d"]), ["/d/file"]);
    assert_eq!(made("/d/file/under", &["/", "/d"]), ["/d/file", "/d/file/under"]);
    assert_eq!(create_level(Mkdir::Taken { is_dir: false }), AfterMkdir::Fail);
    assert_eq!(create_level(Mkdir::Failed), AfterMkdir::Fail);
}

#[test]
fn creating_a_directory_that_is_already_there_is_not_an_error() {
    assert!(made("/d", &["/", "/d"]).is_empty());
    assert_eq!(create_level(Mkdir::Taken { is_dir: true }), AfterMkdir::Leave);
}

#[test]
fn a_relative_path_is_made_from_where_one_stands() {
    assert_eq!(ancestors("a/b"), ["a/b", "a", ""]);
    assert_eq!(made("a/b", &[]), ["a", "a/b"]);
    assert_eq!(ancestors("/a"), ["/a", "/"]);
}

fn abc() -> Integrity {
    Integrity { algo: Algo::Sha512, digest: vec![0xab; 64] }
}

/// A store in memory: what is in it, and what is being written.
struct Shelf {
    store: Store,
    entries: SortedSet<String>,
    staging: usize,
    populated: usize,
}

impl Shelf {
    fn new() -> Self {
        Shelf {
            store: Store::new("/store"),
            entries: SortedSet::new(),
            staging: 0,
            populated: 0,
        }
    }

    fn holds(&self, integrity: &Integrity) -> bool {
        self.store.contains(integrity, &self.entries)
    }

    /// Commit an entry, with what comes of writing it and of renaming it.
    fn commit(
        &mut self,
        integrity: &Integrity,
        written: Option<&str>,
        renamed: Option<&str>,
    ) -> Result<String, StoreError> {
        let mut progress = Progress::Looked { present: self.holds(integrity) };
        loop {
            progress = match self.store.commit(integrity, progress) {
                CommitStep::Stage => {
                    self.staging += 1;
                    Progress::Staged { failure: None }
                }
                CommitStep::Populate => {
                    self.populated += 1;
                    Progress::Populated { failure: written.map(str::to_string) }
                }
                CommitStep::Publish(place) => {
                    assert_eq!(place, self.store.entry_path(integrity));
                    if renamed.is_none() {
                        self.staging -= 1;
                        self.entries.insert(integrity.store_key());
                    }
                    Progress::Published {
                        failure: renamed.map(str::to_string),
                        present: self.holds(integrity),
                    }
                }
                CommitStep::Discard(outcome) => {
                    self.staging -= 1;
                    return outcome;
                }
                CommitStep::Finish(outcome) => return outcome,
            };
        }
    }
}

#[test]
fn commit_creates_an_entry_and_contains_reports_it() {
    let mut shelf = Shelf::new();
    assert!(!shelf.holds(&abc()));
    let path = shelf.commit(&abc(), None, None).unwrap();
    assert!(shelf.holds(&abc()));
    assert_eq!(path, shelf.store.entry_path(&abc()));
    assert_eq!(shelf.staging, 0);
}

#[test]
fn a_failed_populate_leaves_the_store_empty() {
    let mut shelf = Shelf::new();
    let other = Integrity { algo: Algo::Sha512, digest: vec![0xcd; 64] };
    shelf.commit(&other, None, None).unwrap();

    let result = shelf.commit(&abc(), Some("boom"), None);

    assert!(matches!(result, Err(StoreError::Populate { source, .. }) if source == "boom"));
    assert!(!shelf.holds(&abc()));
    assert!(shelf.holds(&other));
    assert_eq!(shelf.staging, 0);
}

#[test]
fn an_existing_entry_is_not_repopulated() {
    let mut shelf = Shelf::new();
    shelf.commit(&abc(), None, None).unwrap();
    shelf.commit(&abc(), Some("never"), Some("called")).unwrap();
    assert_eq!(shelf.populated, 1);
}

#[test]
fn commit_is_idempotent() {
    let mut shelf = Shelf::new();
    let first = shelf.commit(&abc(), None, None).unwrap();
    let second = shelf.commit(&abc().duplicate(), None, None).unwrap();
    assert_eq!(first, second);
}

#[test]
fn a_commit_that_cannot_be_finished_says_why() {
    let mut shelf = Shelf::new();
    match shelf.commit(&abc(), None, Some("denied")) {
        Err(StoreError::CommitFailed { key, source }) => {
            assert_eq!(key, abc().store_key());
            assert_eq!(source, "denied");
        }
        other => panic!("{other:?}"),
    }
    assert!(!shelf.holds(&abc()));
    let nowhere = Some(("/store/v1".to_string(), "read-only".to_string()));
    assert!(matches!(
        shelf.store.commit(&abc(), Progress::Staged { failure: nowhere }),
        CommitStep::Finish(Err(StoreError::StagingFailed { path, .. })) if path == "/store/v1"
    ));
}

fn published(name: &str, versions: &[&str]) -> Packument {
    let mut map = SortedMap::new();
    for version in versions {
        let metadata = VersionMetadata {
            name: name.to_string(),
            version: version.to_string(),
            dist: Dist {
                tarball: "https://r.test/a.tgz".to_string(),
                integrity: None,
                shasum: None,
            },
            dependencies: SortedMap::new(),
            optional_dependencies: SortedMap::new(),
            os: Vec::new(),
            cpu: Vec::new(),
            peer_dependencies: SortedMap::new(),
            peer_dependencies_meta: SortedMap::new(),
            bin: None,
        };
        map.insert(version.to_string(), metadata);
    }
    Packument { name: name.to_string(), versions: map, dist_tags: SortedMap::new() }
}

#[test]
fn packument_skips_versions_it_cannot_parse() {
    let sorted = published("old", &["1.0.0", "not-a-ver"]).versions_sorted();
    assert_eq!(sorted.len(), 1, "the unparseable version is dropped, not fatal");
    assert_eq!(sorted[0].as_str(), "1.0.0");
}

#[test]
fn packument_versions_come_back_in_precedence_order() {
    let sorted = published("p", &["1.9.0", "1.10.0"]).versions_sorted();
    let order: Vec<&str> = sorted.iter().map(|v| v.as_str()).collect();
    assert_eq!(order, ["1.9.0", "1.10.0"]);
}
