use jerky::init::init;
use jerky::json::{Object, Value};
use jerky::manifest::{declared_by, section_for, Manifest, ManifestError};
use jerky::resolver::Kind;

fn text(value: &str) -> Value {
    Value::Text(value.to_string())
}

fn object(members: Vec<(&str, Value)>) -> Value {
    let mut object = Object::new();
    for (name, value) in members {
        object = object.insert(name, value);
    }
    Value::Object(object)
}

fn load(members: Vec<(&str, Value)>) -> Manifest {
    Manifest::load("/web/package.json", object(members)).unwrap()
}

fn order(manifest: &Manifest) -> Vec<String> {
    let value = manifest.value();
    (0..value.len()).map(|i| value.name_at(i).clone()).collect()
}

fn entry(manifest: &Manifest, section: &str, name: &str) -> Option<String> {
    manifest.section(section).named(name).cloned()
}

#[test]
fn create_default_uses_the_directory_name() {
    let manifest = Manifest::create_default("/home/me/my-app", false).unwrap();

    assert_eq!(manifest.path(), "/home/me/my-app/package.json");
    assert_eq!(manifest.name(), Some("my-app"));
    assert_eq!(manifest.version(), Some("1.0.0"));
    let member = |name| manifest.value().get(name);
    assert!(matches!(member("main"), Some(Value::Text(main)) if main == "index.js"));
    assert!(matches!(member("license"), Some(Value::Text(license)) if license == "ISC"));
    assert!(matches!(member("scripts"), Some(Value::Object(_))));
}

#[test]
fn create_default_refuses_to_overwrite() {
    assert!(matches!(
        Manifest::create_default("/home/me/my-app", true),
        Err(ManifestError::AlreadyExists(_))
    ));
}

#[test]
fn a_directory_without_a_name_cannot_be_a_project() {
    assert!(matches!(
        Manifest::create_default("/", false),
        Err(ManifestError::UnnameableDirectory(_))
    ));
}

#[test]
fn writes_a_manifest_and_returns_its_path() {
    let (path, manifest) = init("/home/me/demo", false).unwrap();

    assert_eq!(path, "/home/me/demo/package.json");
    assert_eq!(manifest.name(), Some("demo"));
}

#[test]
fn refuses_to_overwrite_an_existing_manifest() {
    assert!(matches!(
        init("/home/me/demo", true),
        Err(ManifestError::AlreadyExists(_))
    ));
}

#[test]
fn a_manifest_has_to_be_an_object() {
    assert!(matches!(
        Manifest::load("/web/package.json", Value::Array(Vec::new())),
        Err(ManifestError::NotAnObject(_))
    ));
}

#[test]
fn round_trip_preserves_unknown_fields_and_key_order() {
    let mut manifest = load(vec![
        ("name", text("demo")),
        ("zzz", text("last")),
        ("aaa", Value::Array(vec![Value::Number("1".into()), Value::Number("2".into())])),
        ("version", text("1.0.0")),
    ]);
    assert_eq!(order(&manifest), ["name", "zzz", "aaa", "version"]);

    manifest.add_dependency("lodash", "4.17.21", Kind::Prod);

    assert_eq!(order(&manifest), ["name", "zzz", "aaa", "version", "dependencies"]);
    assert!(matches!(manifest.value().get("aaa"), Some(Value::Array(items)) if items.len() == 2));
}

#[test]
fn add_dependency_inserts_into_a_new_dependencies_object() {
    let mut manifest = load(vec![("name", text("demo"))]);
    manifest.add_dependency("lodash", "4.17.21", Kind::Prod);

    assert_eq!(entry(&manifest, "dependencies", "lodash").unwrap(), "4.17.21");
    assert_eq!(manifest.name(), Some("demo"));
}

#[test]
fn add_dependency_replaces_an_existing_entry() {
    let mut manifest = load(vec![("dependencies", object(vec![("lodash", text("3.0.0"))]))]);
    manifest.add_dependency("lodash", "4.17.21", Kind::Prod);

    assert_eq!(entry(&manifest, "dependencies", "lodash").unwrap(), "4.17.21");
}

#[test]
fn add_dependency_leaves_a_duplicate_in_the_other_section_alone() {
    let mut manifest = load(vec![
        ("dependencies", object(vec![("lodash", text("4.17.21"))])),
        ("devDependencies", object(vec![("lodash", text("3.0.0"))])),
    ]);
    manifest.add_dependency("lodash", "4.18.0", Kind::Prod);

    assert_eq!(entry(&manifest, "dependencies", "lodash").unwrap(), "4.18.0");
    assert_eq!(
        entry(&manifest, "devDependencies", "lodash").unwrap(),
        "3.0.0",
        "a version change must not delete a declaration it was not asked about"
    );
}

#[test]
fn move_dependency_takes_the_name_out_of_the_section_it_left() {
    let mut manifest = load(vec![(
        "dependencies",
        object(vec![("alpha", text("1.0.0")), ("lodash", text("4.17.21"))]),
    )]);
    manifest.move_dependency("lodash", "4.17.21", Kind::Dev);

    assert_eq!(entry(&manifest, "devDependencies", "lodash").unwrap(), "4.17.21");
    assert_eq!(entry(&manifest, "dependencies", "lodash"), None);
    assert_eq!(
        entry(&manifest, "dependencies", "alpha").unwrap(),
        "1.0.0",
        "the rest of the section it left is not jerky's to touch"
    );
}

#[test]
fn a_section_emptied_by_a_move_is_dropped() {
    let mut manifest = load(vec![("dependencies", object(vec![("lodash", text("4.17.21"))]))]);
    manifest.move_dependency("lodash", "4.17.21", Kind::Dev);

    assert!(
        manifest.value().get("dependencies").is_none(),
        "an empty object jerky wrote is jerky's to take away"
    );
}

#[test]
fn dependencies_are_read_back_as_declared() {
    let manifest = load(vec![
        ("name", text("web")),
        (
            "dependencies",
            object(vec![("lodash", text("^4.17.21")), ("ui", text("workspace:*"))]),
        ),
    ]);
    let deps = manifest.dependencies();

    assert_eq!(deps.named("lodash").unwrap(), "^4.17.21");
    assert_eq!(deps.named("ui").unwrap(), "workspace:*");
}

#[test]
fn the_two_sections_are_read_separately() {
    let manifest = load(vec![
        ("name", text("web")),
        ("dependencies", object(vec![("lodash", text("^4.17.21"))])),
        (
            "devDependencies",
            object(vec![("vitest", text("^1.0.0")), ("lodash", text("^3.0.0"))]),
        ),
    ]);

    assert_eq!(manifest.dependencies().len(), 1);
    assert_eq!(manifest.dependencies().named("lodash").unwrap(), "^4.17.21");
    assert_eq!(manifest.dev_dependencies().named("vitest").unwrap(), "^1.0.0");
    assert_eq!(manifest.dev_dependencies().named("lodash").unwrap(), "^3.0.0");

    let declared = declared_by(&manifest);
    assert_eq!(declared.len(), 2);
    assert_eq!(declared.named("lodash").unwrap().specifier, "^4.17.21");
    assert_eq!(declared.named("lodash").unwrap().kind, Kind::Prod);
    assert_eq!(section_for(Kind::Dev), "devDependencies");
}

#[test]
fn a_manifest_without_dependencies_declares_none() {
    let manifest = load(vec![("name", text("web"))]);

    assert!(manifest.dependencies().is_empty());
    assert!(manifest.dev_dependencies().is_empty());
}

#[test]
fn patterns_are_the_texts_of_the_workspaces_array() {
    let manifest = load(vec![(
        "workspaces",
        Value::Array(vec![text("packages/*"), Value::Null, text("apps/*")]),
    )]);
    assert_eq!(manifest.workspaces(), ["packages/*", "apps/*"]);
    assert!(load(vec![("workspaces", text("packages/*"))]).workspaces().is_empty());
}
