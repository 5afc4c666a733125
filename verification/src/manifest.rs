//! A project's `package.json`: what it declares, and how a dependency is
//! recorded in it without disturbing anything else.

use vstd::prelude::*;
use vstd::string::*;
use crate::graph::{Declared, DeclaredModel, Kind};
use crate::json::{
    distinct, holds, is_at, items_model, member, one_place, setting_a_member, taking_a_member_out,
    with, without, Json, Members, Object, Value,
};
use crate::order::Duplicate;
use crate::path::{file_name, join, last_name, put_after};
use crate::sorted::{take_one_more, SortedMap};

verus! {

/// The section that a kind of dependency is declared in.
pub open spec fn section_name(kind: Kind) -> Seq<char> {
    match kind {
        Kind::Prod => "dependencies"@,
        Kind::Dev => "devDependencies"@,
    }
}

/// The section that a kind of dependency is declared in.
pub fn section_for(kind: Kind) -> (section: &'static str)
    ensures
        section@ == section_name(kind),
{
    match kind {
        Kind::Prod => "dependencies",
        Kind::Dev => "devDependencies",
    }
}

/// Why there is no manifest to work with.
#[derive(Debug)]
#[allow(inconsistent_fields)]
pub enum ManifestError {
    NotFound(String),
    AlreadyExists(String),
    Malformed { path: String, source: String },
    NotAnObject(String),
    UnnameableDirectory(String),
    Io { path: String, source: String },
}

/// What a [`ManifestError`] says.
pub enum ManifestFault {
    NotFound(Seq<char>),
    AlreadyExists(Seq<char>),
    Malformed { path: Seq<char>, source: Seq<char> },
    NotAnObject(Seq<char>),
    UnnameableDirectory(Seq<char>),
    Io { path: Seq<char>, source: Seq<char> },
}

impl DeepView for ManifestError {
    type V = ManifestFault;

    open spec fn deep_view(&self) -> ManifestFault {
        match self {
            ManifestError::NotFound(path) => ManifestFault::NotFound(path@),
            ManifestError::AlreadyExists(path) => ManifestFault::AlreadyExists(path@),
            ManifestError::Malformed { path, source } => ManifestFault::Malformed {
                path: path@,
                source: source@,
            },
            ManifestError::NotAnObject(path) => ManifestFault::NotAnObject(path@),
            ManifestError::UnnameableDirectory(path) => ManifestFault::UnnameableDirectory(path@),
            ManifestError::Io { path, source } => ManifestFault::Io { path: path@, source: source@ },
        }
    }
}

impl Duplicate for ManifestError {
    fn duplicate(&self) -> (copy: Self) {
        match self {
            ManifestError::NotFound(path) => ManifestError::NotFound(path.clone()),
            ManifestError::AlreadyExists(path) => ManifestError::AlreadyExists(path.clone()),
            ManifestError::Malformed { path, source } => ManifestError::Malformed {
                path: path.clone(),
                source: source.clone(),
            },
            ManifestError::NotAnObject(path) => ManifestError::NotAnObject(path.clone()),
            ManifestError::UnnameableDirectory(path) => ManifestError::UnnameableDirectory(
                path.clone(),
            ),
            ManifestError::Io { path, source } => ManifestError::Io {
                path: path.clone(),
                source: source.clone(),
            },
        }
    }
}

/// An order-preserving view of a `package.json`.
#[derive(Debug)]
pub struct Manifest {
    path: String,
    value: Object,
}

/// What a [`Manifest`] means: where it is, and what it holds.
pub struct ManifestModel {
    pub path: Seq<char>,
    pub members: Members,
}

impl DeepView for Manifest {
    type V = ManifestModel;

    closed spec fn deep_view(&self) -> ManifestModel {
        ManifestModel { path: self.path@, members: self.value.model() }
    }
}

impl Duplicate for Manifest {
    fn duplicate(&self) -> (copy: Self) {
        Manifest { path: self.path.clone(), value: self.value.duplicate() }
    }
}

/// The text that an object has under a name, if it is text.
pub open spec fn text_under(members: Members, name: Seq<char>) -> Option<Seq<char>> {
    match member(members, name) {
        Some(Json::Text(text)) => Some(text),
        _ => None,
    }
}

/// The object that an object has under a name, or an empty one.
pub open spec fn object_under(members: Members, name: Seq<char>) -> Members {
    match member(members, name) {
        Some(Json::Object(inner)) => inner,
        _ => seq![],
    }
}

/// The texts among some values, in order.
pub open spec fn texts_among(items: Seq<Json>) -> Seq<Seq<char>>
    decreases items.len(),
{
    if items.len() == 0 {
        seq![]
    } else {
        let before = texts_among(items.drop_last());
        match items.last() {
            Json::Text(text) => before.push(text),
            _ => before,
        }
    }
}

/// The `workspaces` patterns that a manifest declares.
pub open spec fn patterns_in(members: Members) -> Seq<Seq<char>> {
    match member(members, "workspaces"@) {
        Some(Json::Array(items)) => texts_among(items),
        _ => seq![],
    }
}

/// The specifiers that one section declares, by name.
pub open spec fn specifiers_in(members: Members, section: Seq<char>) -> Map<Seq<char>, Seq<char>> {
    let inner = object_under(members, section);
    Map::new(
        |name: Seq<char>| text_under(inner, name) is Some,
        |name: Seq<char>| text_under(inner, name)->0,
    )
}

/// Everything a manifest declares. A name in both sections is the production
/// one.
pub open spec fn declared_in(members: Members) -> Map<Seq<char>, DeclaredModel> {
    let prod = specifiers_in(members, section_name(Kind::Prod));
    let dev = specifiers_in(members, section_name(Kind::Dev));
    Map::new(
        |name: Seq<char>| prod.contains_key(name) || dev.contains_key(name),
        |name: Seq<char>|
            if prod.contains_key(name) {
                DeclaredModel { specifier: prod[name], kind: Kind::Prod }
            } else {
                DeclaredModel { specifier: dev[name], kind: Kind::Dev }
            },
    )
}

/// A manifest with a dependency recorded in one section, and everything else
/// as it was.
pub open spec fn with_dependency(
    members: Members,
    name: Seq<char>,
    version: Seq<char>,
    kind: Kind,
) -> Members {
    let section = section_name(kind);
    with(
        members,
        section,
        Json::Object(with(object_under(members, section), name, Json::Text(version))),
    )
}

/// A manifest with a dependency taken out of a section, and the section taken
/// out with it if that was its last.
pub open spec fn without_dependency(
    members: Members,
    section: Seq<char>,
    name: Seq<char>,
) -> Members {
    let inner = object_under(members, section);
    if !holds(inner, name) {
        members
    } else {
        let left = without(inner, name);
        if left.len() == 0 {
            without(members, section)
        } else {
            with(members, section, Json::Object(left))
        }
    }
}

/// The other kind.
pub open spec fn other_kind(kind: Kind) -> Kind {
    match kind {
        Kind::Prod => Kind::Dev,
        Kind::Dev => Kind::Prod,
    }
}

/// A manifest with a dependency moved into one section: recorded there, and
/// taken out of the other.
pub open spec fn with_dependency_moved(
    members: Members,
    name: Seq<char>,
    version: Seq<char>,
    kind: Kind,
) -> Members {
    with_dependency(
        without_dependency(members, section_name(other_kind(kind)), name),
        name,
        version,
        kind,
    )
}

/// What a new manifest holds.
pub open spec fn default_members(name: Seq<char>) -> Members {
    seq![
        ("name"@, Json::Text(name)),
        ("version"@, Json::Text("1.0.0"@)),
        ("main"@, Json::Text("index.js"@)),
        ("scripts"@, Json::Object(seq![])),
        ("license"@, Json::Text("ISC"@)),
    ]
}

impl Manifest {
    /// Where the manifest is.
    pub fn path(&self) -> (path: &str)
        ensures
            path@ == self.deep_view().path,
    {
        self.path.as_str()
    }

    /// What the manifest holds.
    pub fn value(&self) -> (value: &Object)
        ensures
            value.model() == self.deep_view().members,
    {
        &self.value
    }

    /// Take a parsed `package.json`, which has to be an object.
    pub fn load(path: &str, value: Value) -> (manifest: Result<Self, ManifestError>)
        ensures
            match manifest {
                Ok(manifest) => value.deep_view() == Json::Object(manifest.deep_view().members)
                    && manifest.deep_view().path == path@,
                Err(error) => !(value.deep_view() is Object) && error.deep_view()
                    == ManifestFault::NotAnObject(path@),
            },
    {
        match value {
            Value::Object(value) => Ok(Manifest { path: path.to_owned(), value }),
            _ => Err(ManifestError::NotAnObject(path.to_owned())),
        }
    }

    /// A new manifest for a directory, named after it. `taken` says whether
    /// anything is at its path already, of any kind: nothing is overwritten,
    /// and nothing is written through a link.
    pub fn create_default(project_dir: &str, taken: bool) -> (manifest: Result<Self, ManifestError>)
        ensures
            match manifest {
                Ok(manifest) => {
                    &&& !taken
                    &&& last_name(project_dir@) is Some
                    &&& manifest.deep_view() == (ManifestModel {
                        path: put_after(project_dir@, "package.json"@),
                        members: default_members(last_name(project_dir@)->0),
                    })
                },
                Err(error) => if taken {
                    error.deep_view() == ManifestFault::AlreadyExists(
                        put_after(project_dir@, "package.json"@),
                    )
                } else {
                    last_name(project_dir@) is None && error.deep_view()
                        == ManifestFault::UnnameableDirectory(project_dir@)
                },
            },
    {
        let path = join(project_dir, "package.json");
        if taken {
            return Err(ManifestError::AlreadyExists(path));
        }
        let name = match file_name(project_dir) {
            Some(name) => name,
            None => {
                return Err(ManifestError::UnnameableDirectory(project_dir.to_owned()));
            },
        };
        let ghost named = name@;
        let value = Object::new().insert("name", Value::Text(name));
        let value = value.insert("version", Value::Text("1.0.0".to_owned()));
        let value = value.insert("main", Value::Text("index.js".to_owned()));
        let value = value.insert("scripts", Value::Object(Object::new()));
        let value = value.insert("license", Value::Text("ISC".to_owned()));
        proof {
            default_is_fresh(named);
        }
        Ok(Manifest { path, value })
    }

    /// The package's name, if it has one.
    pub fn name(&self) -> (name: Option<&str>)
        ensures
            match name {
                Some(name) => text_under(self.deep_view().members, "name"@) == Some(name@),
                None => text_under(self.deep_view().members, "name"@) is None,
            },
    {
        match self.value.get("name") {
            Some(Value::Text(name)) => Some(name.as_str()),
            _ => None,
        }
    }

    /// The package's version, if it has one.
    pub fn version(&self) -> (version: Option<&str>)
        ensures
            match version {
                Some(version) => text_under(self.deep_view().members, "version"@) == Some(version@),
                None => text_under(self.deep_view().members, "version"@) is None,
            },
    {
        match self.value.get("version") {
            Some(Value::Text(version)) => Some(version.as_str()),
            _ => None,
        }
    }

    /// The `workspaces` patterns this manifest declares. Without any it is a
    /// workspace of one.
    pub fn workspaces(&self) -> (patterns: Vec<String>)
        ensures
            patterns.deep_view() == patterns_in(self.deep_view().members),
    {
        let mut patterns: Vec<String> = Vec::new();
        assert(patterns.deep_view() =~= seq![]);
        let items = match self.value.get("workspaces") {
            Some(Value::Array(items)) => items,
            _ => {
                return patterns;
            },
        };
        let ghost all = items_model(*items);
        let mut i: usize = 0;
        while i < items.len()
            invariant
                i <= items@.len(),
                all == items_model(*items),
                patterns.deep_view() == texts_among(all.take(i as int)),
            decreases items.len() - i,
        {
            let ghost before = patterns.deep_view();
            assert(all.take(i + 1).drop_last() =~= all.take(i as int));
            assert(all.take(i + 1).last() == items@[i as int].deep_view());
            match &items[i] {
                Value::Text(text) => {
                    patterns.push(text.clone());
                    assert(patterns.deep_view() =~= before.push(text@));
                },
                _ => {},
            }
            i = i + 1;
        }
        assert(all.take(all.len() as int) =~= all);
        patterns
    }

    /// The `dependencies` this manifest declares, specifiers verbatim.
    pub fn dependencies(&self) -> (specifiers: SortedMap<String, String>)
        ensures
            specifiers.deep_view() == specifiers_in(
                self.deep_view().members,
                section_name(Kind::Prod),
            ),
    {
        self.section("dependencies")
    }

    /// The `devDependencies` this manifest declares, specifiers verbatim.
    pub fn dev_dependencies(&self) -> (specifiers: SortedMap<String, String>)
        ensures
            specifiers.deep_view() == specifiers_in(
                self.deep_view().members,
                section_name(Kind::Dev),
            ),
    {
        self.section("devDependencies")
    }

    /// The specifiers that one section declares.
    pub fn section(&self, field: &str) -> (specifiers: SortedMap<String, String>)
        ensures
            specifiers.deep_view() == specifiers_in(self.deep_view().members, field@),
    {
        let ghost goal = specifiers_in(self.deep_view().members, field@);
        let mut specifiers: SortedMap<String, String> = SortedMap::new();
        let inner = match self.value.get(field) {
            Some(Value::Object(inner)) => inner,
            _ => {
                assert(goal =~= Map::<Seq<char>, Seq<char>>::empty()) by {
                    assert forall|name: Seq<char>| !goal.contains_key(name) by {
                        assert(!holds(Seq::<(Seq<char>, Json)>::empty(), name));
                    }
                }
                return specifiers;
            },
        };
        let ghost deps = inner.model();
        let n: usize = inner.len();
        let mut i: usize = 0;
        while i < n
            invariant
                i <= n == deps.len(),
                deps == inner.model(),
                distinct(deps),
                deps == object_under(self.deep_view().members, field@),
                goal == specifiers_in(self.deep_view().members, field@),
                forall|name: Seq<char>| #[trigger]
                    specifiers.deep_view().contains_key(name) <==> exists|k: int|
                        0 <= k < i && is_at(deps, name, k) && deps[k].1 is Text,
                forall|name: Seq<char>| #[trigger]
                    specifiers.deep_view().contains_key(name) ==> goal.contains_key(name)
                        && specifiers.deep_view()[name] == goal[name],
            decreases n - i,
        {
            let ghost before = specifiers.deep_view();
            match inner.value_at(i) {
                Value::Text(spec) => {
                    let name = inner.name_at(i);
                    proof {
                        assert(is_at(deps, name@, i as int));
                        one_place(deps, name@, i as int);
                    }
                    specifiers.insert(name.clone(), spec.clone());
                    proof {
                        assert forall|other: Seq<char>| #[trigger]
                            specifiers.deep_view().contains_key(other) <==> exists|k: int|
                                0 <= k < i + 1 && is_at(deps, other, k) && deps[k].1 is Text by {
                            if before.contains_key(other) {
                                let k = choose|k: int|
                                    0 <= k < i && is_at(deps, other, k) && deps[k].1 is Text;
                                assert(is_at(deps, other, k));
                            }
                            if other == name@ {
                                assert(is_at(deps, other, i as int));
                            }
                            if exists|k: int|
                                0 <= k < i + 1 && is_at(deps, other, k) && deps[k].1 is Text {
                                let k = choose|k: int|
                                    0 <= k < i + 1 && is_at(deps, other, k) && deps[k].1 is Text;
                                if k < i {
                                    assert(before.contains_key(other));
                                }
                            }
                        }
                    }
                },
                _ => {
                    assert(!(deps[i as int].1 is Text));
                },
            }
            i = i + 1;
        }
        proof {
            assert forall|name: Seq<char>| #[trigger] goal.contains_key(
                name,
            ) implies specifiers.deep_view().contains_key(name) by {
                let k = choose|k: int| is_at(deps, name, k);
                assert(is_at(deps, name, k));
            }
            assert(specifiers.deep_view() =~= goal);
        }
        specifiers
    }

    /// Record a dependency in the section its kind names, leaving every other
    /// section exactly as it was found.
    pub fn add_dependency(&mut self, name: &str, version: &str, kind: Kind)
        ensures
            final(self).deep_view() == (ManifestModel {
                members: with_dependency(old(self).deep_view().members, name@, version@, kind),
                ..old(self).deep_view()
            }),
    {
        let section = section_for(kind);
        let inner = match self.value.get(section) {
            Some(Value::Object(inner)) => inner.duplicate(),
            _ => Object::new(),
        };
        let grown = inner.insert(name, Value::Text(version.to_owned()));
        let mut value = Object::new();
        std::mem::swap(&mut value, &mut self.value);
        self.value = value.insert(section, Value::Object(grown));
    }

    /// Record a dependency in the section its kind names, and take it out of
    /// the other one.
    pub fn move_dependency(&mut self, name: &str, version: &str, kind: Kind)
        ensures
            final(self).deep_view() == (ManifestModel {
                members: with_dependency_moved(
                    old(self).deep_view().members,
                    name@,
                    version@,
                    kind,
                ),
                ..old(self).deep_view()
            }),
    {
        let vacated = match kind {
            Kind::Prod => Kind::Dev,
            Kind::Dev => Kind::Prod,
        };
        self.undeclare(section_for(vacated), name);
        self.add_dependency(name, version, kind);
    }

    /// Take a dependency out of a section, and the section out of the manifest
    /// if that leaves it empty.
    pub fn undeclare(&mut self, section: &str, name: &str)
        ensures
            final(self).deep_view() == (ManifestModel {
                members: without_dependency(old(self).deep_view().members, section@, name@),
                ..old(self).deep_view()
            }),
    {
        let inner = match self.value.get(section) {
            Some(Value::Object(inner)) => inner,
            _ => {
                assert(!holds(Seq::<(Seq<char>, Json)>::empty(), name@));
                return;
            },
        };
        if inner.get(name).is_none() {
            return;
        }
        let left = inner.duplicate().remove(name);
        let mut value = Object::new();
        std::mem::swap(&mut value, &mut self.value);
        if left.len() == 0 {
            self.value = value.remove(section);
        } else {
            self.value = value.insert(section, Value::Object(left));
        }
    }
}

proof fn default_is_fresh(name: Seq<char>)
    ensures
        ({
            let a = with(Seq::<(Seq<char>, Json)>::empty(), "name"@, Json::Text(name));
            let b = with(a, "version"@, Json::Text("1.0.0"@));
            let c = with(b, "main"@, Json::Text("index.js"@));
            let d = with(c, "scripts"@, Json::Object(seq![]));
            with(d, "license"@, Json::Text("ISC"@)) == default_members(name)
        }),
{
    reveal_strlit("name");
    reveal_strlit("version");
    reveal_strlit("main");
    reveal_strlit("scripts");
    reveal_strlit("license");
    let none = Seq::<(Seq<char>, Json)>::empty();
    assert("name"@.len() == 4 && "version"@.len() == 7 && "main"@.len() == 4 && "scripts"@.len()
        == 7 && "license"@.len() == 7);
    assert("name"@[0] == 'n' && "main"@[0] == 'm');
    assert("version"@[0] == 'v' && "scripts"@[0] == 's' && "license"@[0] == 'l');
    assert(!holds(none, "name"@));
    let a = none.push(("name"@, Json::Text(name)));
    assert(!holds(a, "version"@));
    let b = a.push(("version"@, Json::Text("1.0.0"@)));
    assert(!holds(b, "main"@));
    let c = b.push(("main"@, Json::Text("index.js"@)));
    assert(!holds(c, "scripts"@));
    let d = c.push(("scripts"@, Json::Object(seq![])));
    assert(!holds(d, "license"@));
    assert(d.push(("license"@, Json::Text("ISC"@))) =~= default_members(name));
}

proof fn sections_differ()
    ensures
        section_name(Kind::Prod) != section_name(Kind::Dev),
{
    reveal_strlit("dependencies");
    reveal_strlit("devDependencies");
    assert("dependencies"@.len() != "devDependencies"@.len());
}

/// Recording a dependency declares it as asked, and leaves every other
/// declaration of the section, and every other field, alone.
pub proof fn adding_records(
    members: Members,
    name: Seq<char>,
    version: Seq<char>,
    kind: Kind,
    other: Seq<char>,
)
    requires
        distinct(members),
        distinct(object_under(members, section_name(kind))),
    ensures
        ({
            let section = section_name(kind);
            let after = with_dependency(members, name, version, kind);
            &&& specifiers_in(after, section) == specifiers_in(members, section).insert(
                name,
                version,
            )
            &&& other != section ==> member(after, other) == member(members, other)
        }),
{
    let section = section_name(kind);
    let inner = object_under(members, section);
    let grown = with(inner, name, Json::Text(version));
    setting_a_member(members, section, Json::Object(grown), other);
    let after = with_dependency(members, name, version, kind);
    assert(object_under(after, section) == grown);
    assert forall|n: Seq<char>| text_under(grown, n) == if n == name {
        Some(version)
    } else {
        #[trigger] text_under(inner, n)
    } by {
        setting_a_member(inner, name, Json::Text(version), n);
    }
    assert(specifiers_in(after, section) =~= specifiers_in(members, section).insert(name, version));
}

/// Moving a dependency leaves it declared in the section it was moved to, and
/// in no other.
pub proof fn moving_leaves_one_declaration(
    members: Members,
    name: Seq<char>,
    version: Seq<char>,
    kind: Kind,
)
    requires
        distinct(members),
        distinct(object_under(members, section_name(kind))),
        distinct(object_under(members, section_name(other_kind(kind)))),
    ensures
        ({
            let after = with_dependency_moved(members, name, version, kind);
            &&& specifiers_in(after, section_name(kind)).contains_key(name)
            &&& specifiers_in(after, section_name(kind))[name] == version
            &&& !holds(object_under(after, section_name(other_kind(kind))), name)
        }),
{
    sections_differ();
    let here = section_name(kind);
    let there = section_name(other_kind(kind));
    let inner = object_under(members, there);
    let middle = without_dependency(members, there, name);
    if holds(inner, name) {
        let left = without(inner, name);
        taking_a_member_out(inner, name, name);
        if left.len() == 0 {
            taking_a_member_out(members, there, here);
            taking_a_member_out(members, there, there);
            assert(!holds(Seq::<(Seq<char>, Json)>::empty(), name));
        } else {
            setting_a_member(members, there, Json::Object(left), here);
        }
        assert(member(without(inner, name), name) is None);
    }
    assert(object_under(middle, here) == object_under(members, here));
    assert(!holds(object_under(middle, there), name));
    adding_records(middle, name, version, kind, there);
}

/// A dependency taken out of one section leaves every other field alone.
pub proof fn undeclaring_disturbs_nothing_else(
    members: Members,
    section: Seq<char>,
    name: Seq<char>,
    other: Seq<char>,
)
    requires
        distinct(members),
        other != section,
    ensures
        member(without_dependency(members, section, name), other) == member(members, other),
{
    let left = without(object_under(members, section), name);
    setting_a_member(members, section, Json::Object(left), other);
    taking_a_member_out(members, section, other);
}

/// Recording a dependency changes one declaration, unless the other section
/// has the last word on the name.
pub proof fn adding_changes_one_declaration(
    members: Members,
    name: Seq<char>,
    version: Seq<char>,
    kind: Kind,
)
    requires
        distinct(members),
        distinct(object_under(members, section_name(kind))),
        kind == Kind::Dev ==> !specifiers_in(members, section_name(Kind::Prod)).contains_key(name),
    ensures
        declared_in(with_dependency(members, name, version, kind)) == declared_in(members).insert(
            name,
            DeclaredModel { specifier: version, kind },
        ),
{
    sections_differ();
    let after = with_dependency(members, name, version, kind);
    let there = section_name(other_kind(kind));
    adding_records(members, name, version, kind, there);
    assert(specifiers_in(after, there) == specifiers_in(members, there));
    assert(declared_in(after) =~= declared_in(members).insert(
        name,
        DeclaredModel { specifier: version, kind },
    ));
}

/// Moving a dependency changes one declaration.
pub proof fn moving_changes_one_declaration(
    members: Members,
    name: Seq<char>,
    version: Seq<char>,
    kind: Kind,
)
    requires
        distinct(members),
        distinct(object_under(members, section_name(kind))),
        distinct(object_under(members, section_name(other_kind(kind)))),
    ensures
        declared_in(with_dependency_moved(members, name, version, kind)) == declared_in(
            members,
        ).insert(name, DeclaredModel { specifier: version, kind }),
{
    sections_differ();
    let here = section_name(kind);
    let there = section_name(other_kind(kind));
    let inner = object_under(members, there);
    let middle = without_dependency(members, there, name);
    if holds(inner, name) {
        let left = without(inner, name);
        if left.len() == 0 {
            taking_a_member_out(members, there, here);
            taking_a_member_out(members, there, there);
        } else {
            setting_a_member(members, there, Json::Object(left), here);
            setting_a_member(members, there, Json::Object(left), there);
        }
        assert(object_under(middle, there) =~= left);
    }
    undeclaring_disturbs_nothing_else(members, there, name, here);
    assert forall|n: Seq<char>| #[trigger]
        text_under(object_under(middle, there), n) == if n == name {
            None
        } else {
            text_under(inner, n)
        } by {
        taking_a_member_out(inner, name, n);
        taking_a_member_out(inner, name, name);
    }
    assert(specifiers_in(middle, there) =~= specifiers_in(members, there).remove(name));
    assert(specifiers_in(middle, here) == specifiers_in(members, here));
    moving_leaves_one_declaration(members, name, version, kind);
    adding_changes_one_declaration(middle, name, version, kind);
    assert(declared_in(middle).insert(name, DeclaredModel { specifier: version, kind })
        =~= declared_in(members).insert(name, DeclaredModel { specifier: version, kind }));
}

/// Everything one project declares, both sections in one map.
pub fn declared_by(manifest: &Manifest) -> (declared: SortedMap<String, Declared>)
    ensures
        declared.deep_view() == declared_in(manifest.deep_view().members),
{
    let ghost goal = declared_in(manifest.deep_view().members);
    let dev = manifest.dev_dependencies();
    let prod = manifest.dependencies();
    let mut declared: SortedMap<String, Declared> = SortedMap::new();
    let n: usize = dev.len();
    let ghost names = dev.keys();
    assert(names.take(0).to_set() =~= Set::<Seq<char>>::empty());
    let mut i: usize = 0;
    while i < n
        invariant
            i <= n == names.len(),
            names == dev.keys(),
            declared.deep_view().dom() == names.take(i as int).to_set(),
            forall|name: Seq<char>| #[trigger]
                declared.deep_view().contains_key(name) ==> declared.deep_view()[name] == (
                DeclaredModel { specifier: dev.deep_view()[name], kind: Kind::Dev }),
        decreases n - i,
    {
        declared.insert(
            dev.key_at(i).duplicate(),
            Declared { specifier: dev.value_at(i).duplicate(), kind: Kind::Dev },
        );
        proof {
            take_one_more(names, i as int);
            assert(declared.deep_view().dom() =~= names.take(i + 1).to_set());
        }
        i = i + 1;
    }
    assert(names.take(n as int) =~= names);
    let m: usize = prod.len();
    let ghost others = prod.keys();
    assert(others.take(0).to_set() =~= Set::<Seq<char>>::empty());
    let mut j: usize = 0;
    while j < m
        invariant
            j <= m == others.len(),
            others == prod.keys(),
            forall|name: Seq<char>| #[trigger]
                declared.deep_view().contains_key(name) <==> dev.deep_view().contains_key(name)
                    || others.take(j as int).to_set().contains(name),
            forall|name: Seq<char>| #[trigger]
                declared.deep_view().contains_key(name) ==> declared.deep_view()[name]
                    == if others.take(j as int).to_set().contains(name) {
                    DeclaredModel { specifier: prod.deep_view()[name], kind: Kind::Prod }
                } else {
                    DeclaredModel { specifier: dev.deep_view()[name], kind: Kind::Dev }
                },
        decreases m - j,
    {
        declared.insert(
            prod.key_at(j).duplicate(),
            Declared { specifier: prod.value_at(j).duplicate(), kind: Kind::Prod },
        );
        proof {
            take_one_more(others, j as int);
        }
        j = j + 1;
    }
    assert(others.take(m as int) =~= others);
    assert(declared.deep_view() =~= goal);
    declared
}

} // verus!
