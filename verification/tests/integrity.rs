use jerky::integrity::{Algo, Integrity, IntegrityError};
use jerky::registry::Dist;
use jerky::sorted::SortedSet;
use jerky::store::{CommitStep, Progress, Store, StoreError};
use jerky::testing::ABC_SHA512_SSRI;

fn filled(algo: Algo, byte: u8) -> Integrity {
    let len = algo.digest_len();
    Integrity { algo, digest: vec![byte; len] }
}

fn abc() -> Integrity {
    filled(Algo::Sha512, 0xab)
}

#[test]
fn parses_a_sha512_ssri_string() {
    let integrity = Integrity::parse(ABC_SHA512_SSRI).unwrap();
    assert_eq!(integrity.algo, Algo::Sha512);
    assert_eq!(integrity.digest.len(), 64);
}

#[test]
fn verifies_matching_bytes() {
    let integrity = Integrity::parse(ABC_SHA512_SSRI).unwrap();
    assert!(integrity.verify(b"abc").is_ok());
}

#[test]
fn rejects_mismatched_bytes() {
    let integrity = Integrity::parse(ABC_SHA512_SSRI).unwrap();
    assert!(matches!(
        integrity.verify(b"abd"),
        Err(IntegrityError::Mismatch { .. })
    ));
}

#[test]
fn store_keys_are_lowercase_and_algo_prefixed() {
    let integrity = Integrity::parse(ABC_SHA512_SSRI).unwrap();
    let key = integrity.store_key();
    assert!(key.starts_with("sha512-"));
    assert_eq!(key, key.to_lowercase(), "store keys must be case-safe on macOS");
    assert_eq!(key.len(), 7 + 128);
}

#[test]
fn parses_a_legacy_sha1_shasum() {
    let integrity =
        Integrity::from_shasum_hex("a9993e364706816aba3e25717850c26c9cd0d89d").unwrap();
    assert_eq!(integrity.algo, Algo::Sha1);
    assert!(integrity.verify(b"abc").is_ok());
}

#[test]
fn rejects_an_unsupported_algorithm() {
    assert!(matches!(
        Integrity::parse("md5-abcdef"),
        Err(IntegrityError::UnsupportedAlgorithm(_))
    ));
}

#[test]
fn rejects_a_string_without_a_separator() {
    assert!(matches!(
        Integrity::parse("sha512"),
        Err(IntegrityError::Unparseable(_))
    ));
}

#[test]
fn rejects_invalid_base64() {
    assert!(matches!(
        Integrity::parse("sha512-!!!not base64!!!"),
        Err(IntegrityError::Unparseable(_))
    ));
}

#[test]
fn rejects_a_digest_of_the_wrong_length() {
    assert!(matches!(
        Integrity::parse("sha512-YWJj"),
        Err(IntegrityError::Unparseable(_))
    ));
}

#[test]
fn round_trips_through_ssri() {
    let integrity = Integrity::parse(ABC_SHA512_SSRI).unwrap();
    assert_eq!(integrity.to_ssri(), ABC_SHA512_SSRI);
}

#[test]
fn a_shasum_that_is_no_hex_is_rejected() {
    assert!(matches!(
        Integrity::from_shasum_hex("a9993e364706816aba3e25717850c26c9cd0d89"),
        Err(IntegrityError::Unparseable(_))
    ));
    assert!(matches!(
        Integrity::from_shasum_hex("g9993e364706816aba3e25717850c26c9cd0d89d"),
        Err(IntegrityError::Unparseable(_))
    ));
}

#[test]
fn dist_prefers_the_integrity_field() {
    let dist = Dist {
        tarball: "https://example.test/x.tgz".into(),
        integrity: Some(ABC_SHA512_SSRI.into()),
        shasum: Some("a9993e364706816aba3e25717850c26c9cd0d89d".into()),
    };
    assert_eq!(dist.integrity().unwrap().algo, Algo::Sha512);
}

#[test]
fn dist_falls_back_to_a_legacy_shasum() {
    let dist = Dist {
        tarball: "https://example.test/x.tgz".into(),
        integrity: None,
        shasum: Some("a9993e364706816aba3e25717850c26c9cd0d89d".into()),
    };
    assert_eq!(dist.integrity().unwrap().algo, Algo::Sha1);
}

#[test]
fn dist_reports_when_neither_is_present() {
    let dist = Dist {
        tarball: "https://example.test/x.tgz".into(),
        integrity: None,
        shasum: None,
    };
    assert!(matches!(dist.integrity(), Err(IntegrityError::Missing)));
}

#[test]
fn one_integrity_value_addresses_one_entry_across_every_operation() {
    let store = Store::new("/home/me/.jerky/store");
    let place = store.entry_path(&abc());

    let mut entries = SortedSet::new();
    assert!(!store.contains(&abc(), &entries));
    match store.commit(&abc(), Progress::Populated { failure: None }) {
        CommitStep::Publish(target) => assert_eq!(target, place),
        other => panic!("{other:?}"),
    }
    match store.commit(&abc(), Progress::Published { failure: None, present: true }) {
        CommitStep::Finish(Ok(target)) => assert_eq!(target, place),
        other => panic!("{other:?}"),
    }

    entries.insert(abc().store_key());
    assert!(store.contains(&abc(), &entries));
    match store.commit(&abc(), Progress::Looked { present: true }) {
        CommitStep::Finish(Ok(target)) => assert_eq!(target, place),
        other => panic!("{other:?}"),
    }
}

#[test]
fn distinct_integrity_values_never_collide() {
    let store = Store::new("/store");
    let other = filled(Algo::Sha512, 0xcd);
    let legacy = filled(Algo::Sha1, 0xab);
    let mut entries = SortedSet::new();
    entries.insert(abc().store_key());

    assert!(!store.contains(&other, &entries));
    assert!(!store.contains(&legacy, &entries));
    assert_ne!(store.entry_path(&abc()), store.entry_path(&other));
    assert_ne!(store.entry_path(&abc()), store.entry_path(&legacy));
}

#[test]
fn entry_keys_are_lowercase_and_algo_prefixed() {
    let store = Store::new("/store");
    let path = store.entry_path(&abc());
    let key = path.rsplit('/').next().unwrap();

    assert!(key.starts_with("sha512-"));
    assert_eq!(key, key.to_lowercase(), "store keys must be case-safe on macOS");
    assert_eq!(key.len(), 7 + 128);
}

#[test]
fn entries_live_under_a_versioned_directory() {
    let store = Store::new("/store");
    let entry = store.entry_path(&abc());

    assert_eq!(entry.rsplit_once('/').unwrap().0, "/store/v1");
    assert_eq!(store.entry_path_root(), "/store/v1");
}

#[test]
fn losing_a_race_is_success_and_anything_else_is_a_failure() {
    let store = Store::new("/store");
    let lost = |present: bool| Progress::Published {
        failure: Some("not empty".to_string()),
        present,
    };
    assert!(matches!(store.commit(&abc(), lost(true)), CommitStep::Discard(Ok(_))));
    assert!(matches!(
        store.commit(&abc(), lost(false)),
        CommitStep::Discard(Err(StoreError::CommitFailed { source, .. })) if source == "not empty"
    ));
}

#[test]
fn a_sign_is_no_hexadecimal_digit() {
    let signed = "+f".repeat(20);
    match Integrity::from_shasum_hex(&signed) {
        Err(IntegrityError::Unparseable(text)) => assert_eq!(text, signed),
        other => panic!("{other:?}"),
    }
    let accents = "\u{e9}".repeat(20);
    assert!(Integrity::from_shasum_hex(&accents).is_err());
}
