use jerky::range::{Range, RangeError, Version};
use jerky::Order;

fn versions(list: &[&str]) -> Vec<Version> {
    list.iter().map(|v| Version::parse(v).unwrap()).collect()
}

#[test]
fn caret_allows_minor_and_patch_on_one_x() {
    let r = Range::parse("^1.2.3").unwrap();
    assert!(r.matches(&Version::parse("1.9.9").unwrap()));
    assert!(!r.matches(&Version::parse("2.0.0").unwrap()));
}

#[test]
fn caret_on_zero_x_is_narrower() {
    let r = Range::parse("^0.2.3").unwrap();
    assert!(r.matches(&Version::parse("0.2.4").unwrap()));
    assert!(!r.matches(&Version::parse("0.3.0").unwrap()));
}

#[test]
fn max_satisfying_picks_the_highest_not_the_first() {
    let r = Range::parse("^1.0.0").unwrap();
    let vs = versions(&["1.0.0", "1.9.9", "1.2.3", "2.0.0"]);
    assert_eq!(r.max_satisfying(&vs).unwrap().as_str(), "1.9.9");
}

#[test]
fn max_satisfying_is_none_when_nothing_matches() {
    let r = Range::parse("^3.0.0").unwrap();
    assert!(r.max_satisfying(&versions(&["1.0.0", "2.0.0"])).is_none());
}

#[test]
fn prereleases_are_excluded_unless_the_range_asks() {
    let plain = Range::parse("^1.0.0").unwrap();
    assert!(!plain.matches(&Version::parse("1.2.3-beta.1").unwrap()));

    let asks = Range::parse("^1.2.3-beta.1").unwrap();
    assert!(asks.matches(&Version::parse("1.2.3-beta.2").unwrap()));
}

#[test]
fn parses_the_syntax_cargo_refuses() {
    for r in [
        "1.2.3 - 2.3.4",
        ">=1.2.3 <2.0.0",
        "1.2.3 || >=3.0.0",
        "1.2.x",
        "*",
    ] {
        assert!(Range::parse(r).is_ok(), "{r} should parse");
    }
}

#[test]
fn rejects_nonsense() {
    assert!(matches!(
        Range::parse("not a range"),
        Err(RangeError::Unparseable(_))
    ));
}

#[test]
fn admits_everything_finds_every_spelling_of_the_wildcard() {
    for r in ["*", "x", "X", "*.*.*", "x.x.x", ">=0.0.0", "1.0.0 || *"] {
        assert!(
            Range::parse(r).unwrap().admits_everything(),
            "{r} rules nothing out"
        );
    }
}

#[test]
fn admits_everything_is_not_fooled_by_a_merely_large_bound() {
    for r in [
        "<9999999.0.0",
        "^0.0.0",
        "0.x",
        ">=1.0.0",
        "^4.0.0",
        "~4.17.0",
        ">=4 <5",
    ] {
        assert!(
            !Range::parse(r).unwrap().admits_everything(),
            "{r} rules something out"
        );
    }
}

#[test]
fn is_prerelease_ignores_build_metadata() {
    assert!(Version::parse("5.0.0-beta.1").unwrap().is_prerelease());
    assert!(!Version::parse("5.0.0").unwrap().is_prerelease());
    assert!(!Version::parse("1.0.0+build-7").unwrap().is_prerelease());
    assert!(Version::parse("1.0.0-rc.1+build-7").unwrap().is_prerelease());
}

#[test]
fn versions_order_by_precedence_with_prereleases_lower() {
    let vs = versions(&["1.0.0", "1.0.0-alpha", "0.9.9"]);
    assert!(matches!(vs[2].weigh(&vs[1]), Order::Before));
    assert!(matches!(vs[1].weigh(&vs[0]), Order::Before));
    assert!(matches!(vs[0].weigh(&vs[2]), Order::After));
    assert!(matches!(vs[0].weigh(&vs[0]), Order::Same));
}

#[test]
fn as_str_preserves_the_registry_spelling() {
    assert_eq!(Version::parse("1.2.3").unwrap().as_str(), "1.2.3");
    assert_eq!(
        Version::parse("1.2.3-beta.2").unwrap().as_str(),
        "1.2.3-beta.2"
    );
}

#[test]
fn rejects_an_unparseable_version() {
    assert!(matches!(
        Version::parse("not-a-version"),
        Err(RangeError::BadVersion(_))
    ));
}
