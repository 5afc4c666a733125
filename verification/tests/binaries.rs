use jerky::binaries::{deserialize_lenient, single_component, Declared};
use jerky::json::{Object, Value};
use jerky::sorted::SortedMap;

fn many(pairs: &[(&str, &str)]) -> Declared {
    let mut map = SortedMap::new();
    for (name, target) in pairs {
        map.insert(name.to_string(), target.to_string());
    }
    Declared::Many(map)
}

fn listed(bins: &SortedMap<String, String>) -> Vec<(String, String)> {
    let mut pairs = Vec::new();
    for i in 0..bins.len() {
        pairs.push((bins.key_at(i).clone(), bins.value_at(i).clone()));
    }
    pairs
}

fn pair(name: &str, target: &str) -> Vec<(String, String)> {
    vec![(name.to_string(), target.to_string())]
}

#[test]
fn the_object_form_is_taken_as_published() {
    let bins = many(&[("tsc", "bin/tsc"), ("tsserver", "bin/tsserver")]).named_for("typescript");

    assert_eq!(bins.named("tsc").unwrap(), "bin/tsc");
    assert_eq!(bins.named("tsserver").unwrap(), "bin/tsserver");
    assert_eq!(bins.len(), 2);
}

#[test]
fn the_string_form_takes_the_package_name_with_any_scope_stripped() {
    assert_eq!(
        listed(&Declared::One("./bin/babel.js".into()).named_for("@babel/cli")),
        pair("cli", "bin/babel.js")
    );
    assert_eq!(
        listed(&Declared::One("cli.js".into()).named_for("rimraf")),
        pair("rimraf", "cli.js")
    );
}

#[test]
fn a_leading_dot_slash_is_noise_and_is_cleaned_off() {
    let bins = many(&[("tsc", "./bin/tsc")]).named_for("typescript");

    assert_eq!(bins.named("tsc").unwrap(), "bin/tsc");
}

#[test]
fn a_name_that_is_not_one_path_component_is_dropped() {
    for name in ["../evil", "a/b", "..", ".", "", "/abs"] {
        let bins = many(&[(name, "cli.js"), ("fine", "cli.js")]).named_for("p");

        assert_eq!(
            listed(&bins),
            pair("fine", "cli.js"),
            "`{name}` was accepted as a bin name, or took the valid one down with it"
        );
    }
}

#[test]
fn a_target_that_leaves_the_package_is_dropped() {
    for target in [
        "../../../../etc/cron.daily/x",
        "/etc/passwd",
        "..",
        "a/../../b",
        ".",
        "",
    ] {
        let bins = many(&[("evil", target), ("fine", "cli.js")]).named_for("p");

        assert_eq!(
            listed(&bins),
            pair("fine", "cli.js"),
            "`{target}` was accepted as a bin target, or took the valid one down with it"
        );
    }
}

#[test]
fn a_deep_target_inside_the_package_is_kept() {
    let bins = many(&[("rimraf", "./dist/esm/bin.mjs")]).named_for("rimraf");

    assert_eq!(bins.named("rimraf").unwrap(), "dist/esm/bin.mjs");
}

#[test]
fn a_string_form_whose_package_name_is_unusable_is_dropped() {
    assert!(Declared::One("cli.js".into()).named_for("..").is_empty());
    assert!(Declared::One("cli.js".into()).named_for("").is_empty());
}

#[test]
fn a_bin_field_of_no_known_shape_declares_nothing() {
    assert!(matches!(
        deserialize_lenient(&Value::Text("cli.js".into())),
        Some(Declared::One(_))
    ));
    assert!(deserialize_lenient(&Value::Bool(true)).is_none());
    assert!(deserialize_lenient(&Value::Array(Vec::new())).is_none());

    let fine = Object::new()
        .insert("a", Value::Text("a.js".into()))
        .insert("b", Value::Text("b.js".into()));
    match deserialize_lenient(&Value::Object(fine)) {
        Some(Declared::Many(files)) => {
            assert_eq!(files.len(), 2);
            assert_eq!(files.named("b").unwrap(), "b.js");
        }
        other => panic!("{other:?}"),
    }

    let odd = Object::new()
        .insert("a", Value::Text("a.js".into()))
        .insert("b", Value::Null);
    assert!(deserialize_lenient(&Value::Object(odd)).is_none());
}

#[test]
fn a_name_with_a_separator_anywhere_is_no_component() {
    for name in ["foo/", "foo/.", "/foo", "./foo", ".", "..", ""] {
        assert_eq!(single_component(name), None, "{name}");
    }
    assert_eq!(single_component("foo").as_deref(), Some("foo"));
    assert!(many(&[("foo/", "cli.js")]).named_for("p").is_empty());
}
