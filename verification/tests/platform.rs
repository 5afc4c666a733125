use jerky::linker::{BinCollision, Unowned, UnownedReason};
use jerky::platform::{node_cpu, node_os, Platform, PlatformSupport};
use jerky::report::{
    added_line, collision_warning, installed_line, pattern_warning, peer_warning, plural,
    skipped_line, unowned_warning,
};
use jerky::resolver::{PackageId, UnsatisfiedPeer};

fn supports(os: &[&str], cpu: &[&str]) -> PlatformSupport {
    PlatformSupport {
        os: os.iter().map(|s| s.to_string()).collect(),
        cpu: cpu.iter().map(|s| s.to_string()).collect(),
    }
}

#[test]
fn a_package_that_declares_nothing_runs_everywhere() {
    let anywhere = supports(&[], &[]);
    assert!(anywhere.admits(&Platform::new("linux", "x64")));
    assert!(anywhere.admits(&Platform::new("darwin", "arm64")));
}

#[test]
fn a_positive_list_admits_only_what_it_names() {
    let darwin_arm64 = supports(&["darwin"], &["arm64"]);
    assert!(darwin_arm64.admits(&Platform::new("darwin", "arm64")));
    assert!(!darwin_arm64.admits(&Platform::new("darwin", "x64")));
    assert!(!darwin_arm64.admits(&Platform::new("linux", "arm64")));
}

#[test]
fn both_lists_have_to_admit() {
    let fsevents = supports(&["darwin"], &[]);
    assert!(fsevents.admits(&Platform::new("darwin", "x64")));
    assert!(fsevents.admits(&Platform::new("darwin", "arm64")));
    assert!(!fsevents.admits(&Platform::new("linux", "x64")));
}

#[test]
fn an_all_negated_list_admits_everything_it_does_not_forbid() {
    let not_windows = supports(&["!win32"], &[]);
    assert!(not_windows.admits(&Platform::new("linux", "x64")));
    assert!(not_windows.admits(&Platform::new("darwin", "arm64")));
    assert!(!not_windows.admits(&Platform::new("win32", "x64")));
}

#[test]
fn a_mixed_list_is_a_whitelist_not_an_exclusion() {
    let mixed = supports(&["!win32", "darwin"], &[]);
    assert!(mixed.admits(&Platform::new("darwin", "x64")));
    assert!(!mixed.admits(&Platform::new("linux", "x64")));
    assert!(!mixed.admits(&Platform::new("win32", "x64")));
}

#[test]
fn a_negated_entry_beats_a_positive_one_for_the_same_value() {
    let contradictory = supports(&["darwin", "!darwin"], &[]);
    assert!(!contradictory.admits(&Platform::new("darwin", "x64")));
}

#[test]
fn the_any_marker_admits_anything() {
    let any = supports(&["any"], &["any"]);
    assert!(any.admits(&Platform::new("win32", "ia32")));
}

#[test]
fn rust_platform_names_are_translated_into_nodes() {
    assert_eq!(node_os("macos"), "darwin");
    assert_eq!(node_os("linux"), "linux");
    assert_eq!(node_cpu("x86_64"), "x64");
    assert_eq!(node_cpu("aarch64"), "arm64");
    assert_eq!(
        node_cpu("s390x"),
        "s390x",
        "an unlisted name passes through rather than becoming nothing"
    );
}

#[test]
fn a_platform_reads_the_way_the_ecosystem_names_one() {
    assert_eq!(Platform::new("linux", "x64").to_string(), "linux-x64");
    assert_eq!(Platform::from_rust("macos", "aarch64").to_string(), "darwin-arm64");
}

fn unmet(peer: &str, range: &str, found: Option<&str>) -> UnsatisfiedPeer {
    UnsatisfiedPeer {
        dependent: PackageId::plain("react-dom", "18.2.0"),
        peer: peer.to_string(),
        range: range.to_string(),
        found: found.map(str::to_string),
    }
}

#[test]
fn a_missing_peer_and_an_out_of_range_one_read_differently() {
    assert_eq!(
        peer_warning(&unmet("react", "^18.2.0", Some("17.0.2"))),
        "react-dom@18.2.0 wants peer react@^18.2.0, \
         but the nearest provider has react@17.0.2"
    );
    assert_eq!(
        peer_warning(&unmet("react", "^18.2.0", None)),
        "react-dom@18.2.0 wants peer react@^18.2.0, which nothing provides"
    );
}

#[test]
fn the_summary_line_counts_in_the_singular() {
    assert_eq!(plural(0, "package"), "0 packages");
    assert_eq!(plural(1, "importer"), "1 importer");
    assert_eq!(plural(12, "package"), "12 packages");
}

#[test]
fn every_report_reads_as_a_sentence() {
    assert_eq!(installed_line(1, 2), "installed 1 package across 2 importers");
    assert_eq!(added_line("lodash", "4.17.21", "."), "added lodash@4.17.21 to .");
    assert_eq!(
        pattern_warning("packages/*"),
        "workspace pattern `packages/*` matched no package"
    );
    let here = Platform::new("linux", "x64");
    assert_eq!(skipped_line(0, &here), None);
    assert_eq!(
        skipped_line(70, &here).unwrap(),
        "skipped 70 optional packages unsupported on linux-x64"
    );
    let left = |reason| Unowned { path: "/ws/node_modules/x".into(), reason };
    assert_eq!(
        unowned_warning(&left(UnownedReason::NotASymlink)),
        "left /ws/node_modules/x alone — jerky did not create it"
    );
    assert_eq!(
        unowned_warning(&left(UnownedReason::PointsOutside)),
        "left /ws/node_modules/x alone — it links outside this workspace"
    );
    let collision = BinCollision {
        bin_dir: "/ws/node_modules/.bin".into(),
        name: "tsc".into(),
        winner: "a@1.0.0".into(),
        loser: "b@1.0.0".into(),
    };
    assert_eq!(
        collision_warning(&collision),
        "a@1.0.0 and b@1.0.0 both publish a `tsc` binary — /ws/node_modules/.bin links a@1.0.0's"
    );
}
