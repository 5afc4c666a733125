use jerky::cli::{parse_package_spec, CliError, Command, Intent, VersionSpec};

fn is_exact(version: &VersionSpec, expected: &str) -> bool {
    matches!(version, VersionSpec::Exact(version) if version == expected)
}

#[test]
fn bare_name_resolves_to_latest() {
    let spec = parse_package_spec("lodash").unwrap();
    assert_eq!(spec.name, "lodash");
    assert!(matches!(spec.version, VersionSpec::Latest));
}

#[test]
fn name_with_version_is_exact() {
    let spec = parse_package_spec("lodash@4.17.21").unwrap();
    assert_eq!(spec.name, "lodash");
    assert!(is_exact(&spec.version, "4.17.21"));
}

#[test]
fn scoped_name_without_version_resolves_to_latest() {
    let spec = parse_package_spec("@types/node").unwrap();
    assert_eq!(spec.name, "@types/node");
    assert!(matches!(spec.version, VersionSpec::Latest));
}

#[test]
fn scoped_name_with_version_splits_on_the_second_at() {
    let spec = parse_package_spec("@types/node@20.1.0").unwrap();
    assert_eq!(spec.name, "@types/node");
    assert!(is_exact(&spec.version, "20.1.0"));
}

#[test]
fn dist_tag_is_treated_as_an_exact_request() {
    let spec = parse_package_spec("react@next").unwrap();
    assert!(is_exact(&spec.version, "next"));
    assert_eq!(spec.version.as_request(), "next");
}

#[test]
fn latest_requests_the_latest_tag() {
    assert_eq!(VersionSpec::Latest.as_request(), "latest");
}

#[test]
fn empty_spec_is_rejected() {
    assert!(matches!(parse_package_spec(""), Err(CliError::EmptySpec)));
}

#[test]
fn empty_version_is_rejected() {
    assert!(matches!(
        parse_package_spec("lodash@"),
        Err(CliError::EmptyVersion(_))
    ));
}

#[test]
fn bare_at_sign_is_rejected() {
    assert!(matches!(
        parse_package_spec("@"),
        Err(CliError::InvalidName(_))
    ));
}

#[test]
fn scope_without_a_package_name_is_rejected() {
    assert!(matches!(
        parse_package_spec("@scope"),
        Err(CliError::InvalidName(_))
    ));
}

#[test]
fn a_command_comes_down_to_one_intent() {
    assert!(matches!(Command::Init.intent(), Ok(Intent::Create)));

    let sync = |production| Command::Install {
        spec: None,
        save_dev: false,
        production,
    };
    assert!(matches!(
        sync(false).intent(),
        Ok(Intent::Sync(jerky::install::Mode::Develop))
    ));
    assert!(matches!(
        sync(true).intent(),
        Ok(Intent::Sync(jerky::install::Mode::Production))
    ));

    let add = |spec: &str, save_dev| Command::Install {
        spec: Some(spec.to_string()),
        save_dev,
        production: false,
    };
    assert!(matches!(
        add("lodash", false).intent(),
        Ok(Intent::Add { kind: None, .. })
    ));
    assert!(matches!(
        add("lodash", true).intent(),
        Ok(Intent::Add { kind: Some(jerky::resolver::Kind::Dev), .. })
    ));
    assert!(matches!(
        add("lodash@", false).intent(),
        Err(CliError::EmptyVersion(_))
    ));
}
