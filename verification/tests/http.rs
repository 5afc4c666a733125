use jerky::http::{
    after_failure, encode_name, from_metadata_body, from_transport, missing_version, package_url,
    read_status, retry_after, trim_base, version_url, Deadlines, Next, Retry, Verdict,
};
use jerky::registry::RegistryError;

#[test]
fn a_scoped_name_is_one_segment_of_an_address() {
    assert_eq!(encode_name("@types/node"), "@types%2fnode");
    let base = trim_base("https://registry.npmjs.org///");
    assert_eq!(base, "https://registry.npmjs.org");
    assert_eq!(
        package_url(&base, "@types/node"),
        "https://registry.npmjs.org/@types%2fnode"
    );
    assert_eq!(
        version_url(&base, "lodash", "4.17.21"),
        "https://registry.npmjs.org/lodash/4.17.21"
    );
}

#[test]
fn a_status_is_read_in_the_right_order() {
    assert!(matches!(read_status(304, None, true), Verdict::NotModified));
    assert!(matches!(read_status(304, None, false), Verdict::Failed(Retry::Transient)));
    assert!(matches!(read_status(404, None, true), Verdict::NotFound));
    assert!(matches!(read_status(200, None, true), Verdict::Read));
    assert!(matches!(read_status(503, None, true), Verdict::Failed(Retry::Transient)));
    assert!(matches!(
        read_status(429, Some(2), true),
        Verdict::Failed(Retry::RateLimited(Some(2)))
    ));
    assert!(matches!(
        read_status(429, None, true),
        Verdict::Failed(Retry::RateLimited(None))
    ));
    assert!(matches!(read_status(429, Some(100_000), true), Verdict::Failed(Retry::No)));
}

#[test]
fn a_header_that_names_no_seconds_is_no_wait() {
    assert_eq!(retry_after("120"), Some(120));
    assert_eq!(retry_after("soon"), None);
    assert_eq!(retry_after(""), None);
}

#[test]
fn waits_double_and_attempts_run_out() {
    assert_eq!(Retry::Transient.backoff(1), 2 * Retry::Transient.backoff(0));
    assert_eq!(Retry::Transient.backoff(2), 4 * Retry::Transient.backoff(0));
    assert_eq!(Retry::RateLimited(Some(7)).backoff(3), 7000);
    assert_eq!(Retry::No.backoff(0), 0);
    assert!(matches!(after_failure(0, Retry::No), Next::GiveUp));
    assert!(matches!(after_failure(0, Retry::Transient), Next::TryAgain(_)));
    assert!(matches!(after_failure(99, Retry::Transient), Next::GiveUp));
}

#[test]
fn a_stall_and_an_outage_are_told_apart() {
    assert!(matches!(
        from_transport("u", true, "s"),
        (RegistryError::Stalled { .. }, Retry::Transient)
    ));
    assert!(matches!(
        from_transport("u", false, "s").0,
        RegistryError::Network { .. }
    ));
    assert!(matches!(
        from_metadata_body("u", true, "s").0,
        RegistryError::Stalled { .. }
    ));
    assert!(matches!(
        from_metadata_body("u", false, "s").0,
        RegistryError::MalformedResponse { .. }
    ));
}

#[test]
fn a_missing_version_of_a_known_package_is_a_missing_version() {
    assert!(matches!(
        missing_version("a", "1.0.0", Ok(true)),
        RegistryError::VersionNotFound { .. }
    ));
    assert!(matches!(
        missing_version("a", "1.0.0", Ok(false)),
        RegistryError::PackageNotFound(_)
    ));
    let failed = RegistryError::Network { url: "u".into(), source: "s".into() };
    assert!(matches!(
        missing_version("a", "1.0.0", Err(failed)),
        RegistryError::Network { .. }
    ));
}

#[test]
fn deadlines_are_what_they_were_chosen_to_be() {
    let standard = Deadlines::standard();
    assert_eq!(standard.connect, 10_000);
    assert_eq!(standard.tarball_body, 300_000);
    assert_eq!(Deadlines::short(50).connect, 50);
}
