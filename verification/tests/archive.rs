use jerky::archive::{
    extract, normalise_mode, strip_prefix_component, unpack_all, ArchiveError, Extraction, RawEntry,
    Unpacked, GLOBAL_HEADER, HARD_LINK, LOCAL_HEADER, REGULAR,
};
use jerky::tarball::{build_tarball, TarEntry};

fn text(path: &Vec<u8>) -> String {
    String::from_utf8(path.clone()).unwrap()
}

fn files(extraction: &Extraction) -> Vec<(String, u32, String)> {
    extraction
        .unpacked
        .iter()
        .map(|made| match made {
            Unpacked::File { path, mode, contents, .. } => (
                text(path),
                *mode,
                String::from_utf8(contents.clone()).unwrap(),
            ),
            Unpacked::Directory { path, mode } => (text(path), *mode, "<dir>".to_string()),
        })
        .collect()
}

fn is_unsafe(extraction: &Extraction) -> bool {
    matches!(extraction.fault, Some(ArchiveError::UnsafePath { .. }))
}

#[test]
fn strips_the_leading_package_component() {
    let tarball = build_tarball(&[
        TarEntry::file("package/package.json", r#"{"name":"demo"}"#),
        TarEntry::file("package/lib/index.js", "module.exports = 1;"),
    ]);

    let extraction = extract(&tarball, "/dest");

    assert!(extraction.fault.is_none());
    let paths: Vec<String> = files(&extraction).into_iter().map(|(path, ..)| path).collect();
    assert_eq!(paths, ["/dest/package.json", "/dest/lib/index.js"]);
}

#[test]
fn preserves_file_contents() {
    let tarball = build_tarball(&[TarEntry::file("package/index.js", "hello")]);

    let extraction = extract(&tarball, "/dest");

    assert_eq!(files(&extraction)[0].2, "hello");
}

#[test]
fn accepts_a_leading_current_directory_component() {
    let tarball = build_tarball(&[TarEntry::file("./package/index.js", "hello")]);

    let extraction = extract(&tarball, "/dest");

    assert_eq!(
        files(&extraction),
        [("/dest/index.js".to_string(), 0o644, "hello".to_string())]
    );
}

#[test]
fn rejects_parent_directory_escapes() {
    let tarball = build_tarball(&[TarEntry::file("package/../../evil.js", "pwned")]);

    let extraction = extract(&tarball, "/dest");

    assert!(is_unsafe(&extraction));
    assert!(extraction.unpacked.is_empty(), "nothing may escape dest");
}

#[test]
fn rejects_absolute_paths() {
    let tarball = build_tarball(&[TarEntry::file("/etc/evil.js", "pwned")]);

    assert!(is_unsafe(&extract(&tarball, "/dest")));
}

#[test]
fn rejects_symlink_entries() {
    let tarball = build_tarball(&[TarEntry::Symlink {
        path: "package/link",
        target: "/etc/passwd",
    }]);

    assert!(is_unsafe(&extract(&tarball, "/dest")));
}

#[test]
fn rejects_an_entry_that_is_only_the_prefix() {
    let tarball = build_tarball(&[TarEntry::file("package", "")]);

    let extraction = extract(&tarball, "/dest");

    assert!(extraction.fault.is_none());
    assert!(extraction.unpacked.is_empty());
}

#[test]
fn a_world_writable_file_is_narrowed_to_its_owner() {
    let tarball = build_tarball(&[TarEntry::file_with_mode(
        "package/index.js",
        "module.exports = 1;",
        0o666,
    )]);

    assert_eq!(files(&extract(&tarball, "/dest"))[0].1, 0o644);
}

#[test]
fn an_executable_file_stays_executable() {
    let tarball = build_tarball(&[TarEntry::file_with_mode(
        "package/bin/cli.js",
        "#!/usr/bin/env node\n",
        0o755,
    )]);

    assert_eq!(
        files(&extract(&tarball, "/dest"))[0],
        (
            "/dest/bin/cli.js".to_string(),
            0o755,
            "#!/usr/bin/env node\n".to_string()
        )
    );
}

#[test]
fn setuid_and_setgid_do_not_survive_extraction() {
    let tarball = build_tarball(&[
        TarEntry::file_with_mode("package/setuid", "", 0o4755),
        TarEntry::file_with_mode("package/setgid", "", 0o2644),
    ]);

    let modes: Vec<u32> = files(&extract(&tarball, "/dest")).iter().map(|file| file.1).collect();
    assert_eq!(modes, [0o755, 0o644]);
}

#[test]
fn a_directory_is_always_traversable() {
    let tarball = build_tarball(&[
        TarEntry::Dir {
            path: "package/lib",
            mode: 0o666,
        },
        TarEntry::file("package/lib/index.js", "module.exports = 1;"),
    ]);

    let found = files(&extract(&tarball, "/dest"));
    assert_eq!(found[0], ("/dest/lib".to_string(), 0o755, "<dir>".to_string()));
    assert_eq!(found[1].0, "/dest/lib/index.js");
}

#[test]
fn rejects_garbage_that_is_not_gzip() {
    assert!(matches!(
        extract(b"this is not a gzip stream", "/dest").fault,
        Some(ArchiveError::Read(_))
    ));
}

#[test]
fn an_old_style_directory_is_a_directory() {
    let tarball = build_tarball(&[TarEntry::OldStyleDir {
        path: "package/lib/",
        mode: 0o600,
    }]);

    assert_eq!(
        files(&extract(&tarball, "/dest")),
        [("/dest/lib".to_string(), 0o755, "<dir>".to_string())]
    );
}

#[test]
fn an_entry_that_names_no_file_unpacks_to_nothing() {
    let tarball = build_tarball(&[
        TarEntry::metadata("package/pax_global_header", GLOBAL_HEADER),
        TarEntry::dir_with_mode("package/src", 0o700),
        TarEntry::file("package/index.js", "1"),
    ]);

    let extraction = extract(&tarball, "/dest");

    assert!(extraction.fault.is_none());
    let paths: Vec<String> = files(&extraction).into_iter().map(|(path, ..)| path).collect();
    assert_eq!(paths, ["/dest/src", "/dest/index.js"]);
}

#[test]
fn what_came_before_a_refused_entry_was_unpacked() {
    let tarball = build_tarball(&[
        TarEntry::file("package/a.js", "a"),
        TarEntry::file("../b.js", "b"),
        TarEntry::file("package/c.js", "c"),
    ]);

    let extraction = extract(&tarball, "/dest");

    assert_eq!(extraction.unpacked.len(), 1);
    match &extraction.fault {
        Some(ArchiveError::UnsafePath { entry, reason }) => {
            assert_eq!(entry, "../b.js");
            assert_eq!(*reason, "path is absolute or starts outside the package root");
        }
        other => panic!("{other:?}"),
    }
}

fn raw(path: &str, flag: u8) -> RawEntry {
    RawEntry {
        path: path.as_bytes().to_vec(),
        flag,
        ustar: true,
        mode: None,
        mtime: None,
        size: 1,
        contents: Ok(vec![7]),
    }
}

#[test]
fn entries_are_judged_one_by_one() {
    let all = |entry| unpack_all(&vec![Ok(entry)], "/dest");

    assert!(is_unsafe(&all(raw("package/link", HARD_LINK))));
    assert!(all(raw("package/pax", LOCAL_HEADER)).unpacked.is_empty());
    assert_eq!(normalise_mode(&raw("package/x", REGULAR)), 0o644);
    let newer = all(raw("package/odd/", REGULAR));
    assert!(matches!(newer.unpacked[0], Unpacked::File { mode: 0o644, .. }));

    let mut short = raw("package/short", REGULAR);
    short.size = 9;
    assert!(matches!(
        all(short).fault,
        Some(ArchiveError::Write { source, .. }) if source == "failed to write entire file"
    ));
    let mut unreadable = raw("package/unreadable", REGULAR);
    unreadable.contents = Err("corrupt".to_string());
    match all(unreadable).fault {
        Some(ArchiveError::Write { path, source }) => {
            assert_eq!(text(&path), "/dest/unreadable");
            assert_eq!(source, "corrupt");
        }
        other => panic!("{other:?}"),
    }
    assert!(matches!(
        unpack_all(&vec![Err("corrupt".to_string())], "/dest").fault,
        Some(ArchiveError::Read(source)) if source == "corrupt"
    ));
}

#[test]
fn a_path_that_is_no_text_keeps_its_bytes() {
    let odd = |byte: u8| {
        let mut entry = raw("package/x", REGULAR);
        entry.path = vec![b'p', b'/', byte, 0xe2, b'/', b'y'];
        Ok(entry)
    };
    let extraction = unpack_all(&vec![odd(0xff), odd(0xfe)], "/d\u{e9}st");
    let paths: Vec<Vec<u8>> = extraction
        .unpacked
        .iter()
        .map(|made| match made {
            Unpacked::File { path, .. } => path.clone(),
            Unpacked::Directory { path, .. } => path.clone(),
        })
        .collect();
    let mut first = "/d\u{e9}st/".as_bytes().to_vec();
    let mut second = first.clone();
    first.extend([0xff, 0xe2, b'/', b'y']);
    second.extend([0xfe, 0xe2, b'/', b'y']);
    assert_eq!(paths, [first, second]);
}

#[test]
fn only_the_first_name_of_a_path_is_dropped() {
    assert_eq!(strip_prefix_component("package/a/./b", "package/a/./b").unwrap(), "a/b");
    assert_eq!(strip_prefix_component("anything/a", "anything/a").unwrap(), "a");
    assert_eq!(strip_prefix_component("./.", "./.").unwrap(), "");
    assert!(strip_prefix_component("package/a/..", "package/a/..").is_err());
}

#[test]
fn a_file_lands_with_the_time_it_was_recorded_with() {
    let time_of = |mtime: Option<u64>| {
        let mut entry = raw("package/x", REGULAR);
        entry.mtime = mtime;
        match &unpack_all(&vec![Ok(entry)], "/dest").unpacked[0] {
            Unpacked::File { time, .. } => *time,
            other => panic!("{other:?}"),
        }
    };
    assert_eq!(time_of(Some(499162500)), Some(499162500));
    assert_eq!(time_of(Some(0)), Some(1));
    assert_eq!(time_of(Some(u64::MAX)), Some(-1));
    assert_eq!(time_of(None), None);

    let built = extract(&build_tarball(&[TarEntry::file("package/x", "1")]), "/dest");
    assert!(matches!(built.unpacked[0], Unpacked::File { time: Some(1), .. }));
}

#[test]
fn a_plain_file_is_given_no_flag_in_its_header() {
    let plain = build_tarball(&[TarEntry::file("package/x", "")]);
    let flagged = build_tarball(&[TarEntry::metadata("package/x", REGULAR)]);
    assert_ne!(plain, flagged);
    assert_eq!(files(&extract(&plain, "/dest")), files(&extract(&flagged, "/dest")));
}
