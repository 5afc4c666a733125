//! What a dependency specifier asks of the registry, and which published
//! version answers it.

use vstd::prelude::*;
use vstd::string::*;
use crate::graph::{DeclaredPeer, PeerModel};
use crate::integrity::{IntegrityError, IntegrityFault};
use crate::order::{Duplicate, Key};
use crate::package_id::{name_and_version, split_name_and_version};
use crate::range::{best_of, is_pick, range_parses, Range, RangeError, RangeFault};
use crate::registry::{
    published_versions, result_view, MetadataModel, Packument, PackumentModel, RegistryError,
    RegistryFault, VersionMetadata,
};
use crate::sorted::{
    ascending, ascending_is_unique, in_order, in_order_lists, take_one_more, SortedMap,
};
use crate::text::{after_opening, chars_of, cut_first, opens_with, split_first};

verus! {

/// The scheme that renames a package: `npm:<name>@<range>`.
pub const ALIAS_PROTOCOL: &'static str = "npm:";

/// The scheme that names a workspace member rather than a registry package.
pub const WORKSPACE_PROTOCOL: &'static str = "workspace:";

/// Why a resolution failed.
#[derive(Debug)]
pub enum ResolveError {
    Registry(RegistryError),
    Range(RangeError),
    Unsatisfiable { name: String, range: String, available: Vec<String> },
    DanglingTag { name: String, tag: String, version: String },
    UnresolvableSpec { name: String, spec: String, tags: Vec<String> },
    UnsupportedScheme { name: String, specifier: String, scheme: String },
    MalformedAlias { name: String, specifier: String },
    NoSuchMember { name: String, specifier: String, members: Vec<String> },
    Integrity { name: String, version: String, source: IntegrityError },
}

/// What a [`ResolveError`] says.
pub enum ResolveFault {
    Registry(RegistryFault),
    Range(RangeFault),
    Unsatisfiable { name: Seq<char>, range: Seq<char>, available: Seq<Seq<char>> },
    DanglingTag { name: Seq<char>, tag: Seq<char>, version: Seq<char> },
    UnresolvableSpec { name: Seq<char>, spec: Seq<char>, tags: Seq<Seq<char>> },
    UnsupportedScheme { name: Seq<char>, specifier: Seq<char>, scheme: Seq<char> },
    MalformedAlias { name: Seq<char>, specifier: Seq<char> },
    NoSuchMember { name: Seq<char>, specifier: Seq<char>, members: Seq<Seq<char>> },
    Integrity { name: Seq<char>, version: Seq<char>, source: IntegrityFault },
}

impl DeepView for ResolveError {
    type V = ResolveFault;

    open spec fn deep_view(&self) -> ResolveFault {
        match self {
            ResolveError::Registry(error) => ResolveFault::Registry(error.deep_view()),
            ResolveError::Range(error) => ResolveFault::Range(error.deep_view()),
            ResolveError::Unsatisfiable { name, range, available } => ResolveFault::Unsatisfiable {
                name: name@,
                range: range@,
                available: available.deep_view(),
            },
            ResolveError::DanglingTag { name, tag, version } => ResolveFault::DanglingTag {
                name: name@,
                tag: tag@,
                version: version@,
            },
            ResolveError::UnresolvableSpec { name, spec, tags } => ResolveFault::UnresolvableSpec {
                name: name@,
                spec: spec@,
                tags: tags.deep_view(),
            },
            ResolveError::UnsupportedScheme { name, specifier, scheme } => {
                ResolveFault::UnsupportedScheme {
                    name: name@,
                    specifier: specifier@,
                    scheme: scheme@,
                }
            },
            ResolveError::MalformedAlias { name, specifier } => ResolveFault::MalformedAlias {
                name: name@,
                specifier: specifier@,
            },
            ResolveError::NoSuchMember { name, specifier, members } => ResolveFault::NoSuchMember {
                name: name@,
                specifier: specifier@,
                members: members.deep_view(),
            },
            ResolveError::Integrity { name, version, source } => ResolveFault::Integrity {
                name: name@,
                version: version@,
                source: source.deep_view(),
            },
        }
    }
}

/// A target cut into the package and the range asked of it, which is `latest`
/// when none is given.
pub open spec fn target_parts(target: Seq<char>) -> (Seq<char>, Seq<char>) {
    match name_and_version(target) {
        Some(halves) => halves,
        None => (target, "latest"@),
    }
}

/// The package an `npm:` specifier names, and the range it asks of it.
pub open spec fn alias_parts(specifier: Seq<char>) -> Option<(Seq<char>, Seq<char>)> {
    if opens_with(specifier, ALIAS_PROTOCOL@) {
        Some(target_parts(specifier.skip(ALIAS_PROTOCOL@.len() as int)))
    } else {
        None
    }
}

/// Could the registry conceivably answer to this name? A scope has to be
/// followed by a package, and both have to be something.
pub open spec fn plausible(name: Seq<char>) -> bool {
    if name.len() > 0 && name[0] == '@' {
        match cut_first(name.skip(1), '/') {
            Some((scope, package)) => scope.len() > 0 && package.len() > 0,
            None => false,
        }
    } else {
        name.len() > 0
    }
}

/// An ASCII letter.
pub open spec fn is_letter(c: char) -> bool {
    'a' <= c <= 'z' || 'A' <= c <= 'Z'
}

/// A character that a scheme may hold after its first.
pub open spec fn is_scheme_char(c: char) -> bool {
    is_letter(c) || '0' <= c <= '9' || c == '+' || c == '.' || c == '-'
}

/// The scheme of a `<scheme>:...` specifier: a letter, then letters, digits,
/// plus signs, dots and dashes.
pub open spec fn scheme_in(specifier: Seq<char>) -> Option<Seq<char>> {
    match cut_first(specifier, ':') {
        Some((scheme, _)) => if scheme.len() > 0 && is_letter(scheme[0]) && forall|i: int|
            0 < i < scheme.len() ==> is_scheme_char(#[trigger] scheme[i]) {
            Some(scheme)
        } else {
            None
        },
        None => None,
    }
}

/// What a specifier asks for: a package and a range.
pub struct AskedModel {
    pub name: Seq<char>,
    pub range: Seq<char>,
}

/// What a specifier declared under a name asks for. An alias asks for the
/// package it names, any other scheme is refused, and everything else is a
/// range or a dist-tag of the package it is declared under.
pub open spec fn asked_reading(name: Seq<char>, specifier: Seq<char>) -> Result<
    AskedModel,
    ResolveFault,
> {
    match alias_parts(specifier) {
        Some((aliased, range)) => if plausible(aliased) {
            Ok(AskedModel { name: aliased, range })
        } else {
            Err(ResolveFault::MalformedAlias { name, specifier })
        },
        None => match scheme_in(specifier) {
            Some(scheme) => Err(ResolveFault::UnsupportedScheme { name, specifier, scheme }),
            None => Ok(AskedModel { name, range: specifier }),
        },
    }
}

/// Cut an alias target into the package and the range asked of it.
pub fn split_target<'a>(target: &'a str) -> (parts: (&'a str, &'a str))
    ensures
        (parts.0@, parts.1@) == target_parts(target@),
{
    match split_name_and_version(target) {
        Some(halves) => halves,
        None => (target, "latest"),
    }
}

/// The package an `npm:` specifier names, and the range it asks of it.
pub fn alias_target<'a>(specifier: &'a str) -> (parts: Option<(&'a str, &'a str)>)
    ensures
        match parts {
            Some((name, range)) => alias_parts(specifier@) == Some((name@, range@)),
            None => alias_parts(specifier@) is None,
        },
{
    match after_opening(specifier, ALIAS_PROTOCOL) {
        Some(target) => Some(split_target(target)),
        None => None,
    }
}

/// Could the registry conceivably answer to this name?
pub fn is_plausible_name(name: &str) -> (yes: bool)
    ensures
        yes == plausible(name@),
{
    proof {
        reveal_strlit("@");
    }
    match after_opening(name, "@") {
        Some(scoped) => {
            assert(name@.take(1)[0] == name@[0]);
            match split_first(scoped, '/') {
                Some((scope, package)) => !scope.is_empty() && !package.is_empty(),
                None => false,
            }
        },
        None => {
            assert(name@.len() > 0 && name@[0] == '@' ==> name@.take(1) =~= "@"@);
            !name.is_empty()
        },
    }
}

/// The `<scheme>` of a `<scheme>:...` specifier, if it has one.
pub fn scheme_of<'a>(specifier: &'a str) -> (scheme: Option<&'a str>)
    ensures
        match scheme {
            Some(scheme) => scheme_in(specifier@) == Some(scheme@),
            None => scheme_in(specifier@) is None,
        },
{
    let scheme = match split_first(specifier, ':') {
        Some((scheme, _)) => scheme,
        None => {
            return None;
        },
    };
    let chars = chars_of(scheme);
    if chars.len() == 0 {
        return None;
    }
    let first: char = chars[0];
    if !(('a' <= first && first <= 'z') || ('A' <= first && first <= 'Z')) {
        return None;
    }
    let mut i: usize = 1;
    while i < chars.len()
        invariant
            1 <= i <= chars@.len(),
            chars@ == scheme@,
            cut_first(specifier@, ':') is Some,
            (cut_first(specifier@, ':')->0).0 == scheme@,
            forall|j: int| 0 < j < i ==> is_scheme_char(#[trigger] scheme@[j]),
        decreases chars.len() - i,
    {
        let c: char = chars[i];
        if !(('a' <= c && c <= 'z') || ('A' <= c && c <= 'Z') || ('0' <= c && c <= '9') || c == '+'
            || c == '.' || c == '-') {
            assert(!is_scheme_char(scheme@[i as int]));
            return None;
        }
        i = i + 1;
    }
    Some(scheme)
}

/// The package a specifier asks for, and the range it asks of it.
#[derive(Debug)]
pub struct Asked {
    pub name: String,
    pub range: String,
}

impl DeepView for Asked {
    type V = AskedModel;

    open spec fn deep_view(&self) -> AskedModel {
        AskedModel { name: self.name@, range: self.range@ }
    }
}

impl Duplicate for Asked {
    fn duplicate(&self) -> (copy: Self) {
        Asked { name: self.name.clone(), range: self.range.clone() }
    }
}

impl Asked {
    /// Read a specifier for the package it names.
    pub fn read(name: &str, specifier: &str) -> (asked: Result<Self, ResolveError>)
        ensures
            result_view(asked) == asked_reading(name@, specifier@),
    {
        if let Some((aliased, range)) = alias_target(specifier) {
            if !is_plausible_name(aliased) {
                return Err(
                    ResolveError::MalformedAlias {
                        name: name.to_owned(),
                        specifier: specifier.to_owned(),
                    },
                );
            }
            return Ok(Asked { name: aliased.to_owned(), range: range.to_owned() });
        }
        if let Some(scheme) = scheme_of(specifier) {
            return Err(
                ResolveError::UnsupportedScheme {
                    name: name.to_owned(),
                    specifier: specifier.to_owned(),
                    scheme: scheme.to_owned(),
                },
            );
        }
        Ok(Asked { name: name.to_owned(), range: specifier.to_owned() })
    }
}

/// Which version of a packument a spec selects. A range picks the highest
/// version it admits; only what is no range is looked up as a dist-tag, so
/// that no tag can change what a range means.
pub open spec fn chosen(packument: PackumentModel, name: Seq<char>, range: Seq<char>) -> Result<
    Seq<char>,
    ResolveFault,
> {
    if range_parses(range) {
        let available = published_versions(packument.versions.dom());
        match best_of(range, available) {
            Some(version) => Ok(version),
            None => Err(ResolveFault::Unsatisfiable { name, range, available }),
        }
    } else if packument.dist_tags.contains_key(range) {
        let version = packument.dist_tags[range];
        if packument.versions.contains_key(version) {
            Ok(version)
        } else {
            Err(ResolveFault::DanglingTag { name, tag: range, version })
        }
    } else {
        Err(
            ResolveFault::UnresolvableSpec {
                name,
                spec: range,
                tags: in_order::<String>(packument.dist_tags.dom()),
            },
        )
    }
}

/// Which version of a packument a spec selects. One that is selected is one
/// that the packument publishes.
pub fn choose_version(packument: &Packument, name: &str, range: &str) -> (version: Result<
    String,
    ResolveError,
>)
    ensures
        result_view(version) == chosen(packument.deep_view(), name@, range@),
        version is Ok ==> packument.versions.deep_view().contains_key(version->Ok_0@),
{
    match Range::parse(range) {
        Ok(parsed) => {
            let available = packument.versions_sorted();
            let ghost listed = available.deep_view();
            match parsed.max_satisfying(&available) {
                Some(version) => {
                    proof {
                        let i = choose|i: int|
                            is_pick(range@, listed, i) && version.deep_view() == listed[i];
                        assert(listed.to_set().contains(listed[i]));
                    }
                    Ok(version.as_str().to_owned())
                },
                None => {
                    let mut spelled: Vec<String> = Vec::new();
                    let mut i: usize = 0;
                    while i < available.len()
                        invariant
                            i <= available@.len(),
                            spelled@.len() == i,
                            forall|j: int|
                                0 <= j < i ==> (#[trigger] spelled@[j])@
                                    == available@[j].deep_view(),
                        decreases available.len() - i,
                    {
                        spelled.push(available[i].as_str().to_owned());
                        i = i + 1;
                    }
                    assert(spelled.deep_view() =~= listed);
                    Err(
                        ResolveError::Unsatisfiable {
                            name: name.to_owned(),
                            range: range.to_owned(),
                            available: spelled,
                        },
                    )
                },
            }
        },
        Err(_) => match packument.resolve_tag(range) {
            Some(tagged) => {
                if !packument.versions.has(tagged) {
                    return Err(
                        ResolveError::DanglingTag {
                            name: name.to_owned(),
                            tag: range.to_owned(),
                            version: tagged.to_owned(),
                        },
                    );
                }
                Ok(tagged.to_owned())
            },
            None => Err(
                ResolveError::UnresolvableSpec {
                    name: name.to_owned(),
                    spec: range.to_owned(),
                    tags: packument.dist_tags.list_keys(),
                },
            ),
        },
    }
}

/// The peers a version publishes, each with the flag its meta entry carries.
/// A meta entry with no peer to flag is never read.
pub open spec fn peers_of(metadata: MetadataModel) -> Map<Seq<char>, PeerModel> {
    Map::new(
        |name: Seq<char>| metadata.peer_dependencies.contains_key(name),
        |name: Seq<char>|
            PeerModel {
                range: metadata.peer_dependencies[name],
                optional: metadata.peer_dependencies_meta.contains_key(name)
                    && metadata.peer_dependencies_meta[name],
            },
    )
}

/// Read a version's published peers.
pub fn declared_peers(metadata: &VersionMetadata) -> (peers: SortedMap<String, DeclaredPeer>)
    ensures
        peers.deep_view() == peers_of(metadata.deep_view()),
{
    let mut peers: SortedMap<String, DeclaredPeer> = SortedMap::new();
    let ghost goal = peers_of(metadata.deep_view());
    let n: usize = metadata.peer_dependencies.len();
    let ghost names = metadata.peer_dependencies.keys();
    assert(goal.restrict(names.take(0).to_set()) =~= Map::<Seq<char>, PeerModel>::empty());
    let mut i: usize = 0;
    while i < n
        invariant
            i <= n == names.len(),
            names == metadata.peer_dependencies.keys(),
            goal == peers_of(metadata.deep_view()),
            peers.deep_view() == goal.restrict(names.take(i as int).to_set()),
        decreases n - i,
    {
        let name = metadata.peer_dependencies.key_at(i);
        let optional = match metadata.peer_dependencies_meta.get(name) {
            Some(meta) => meta.optional,
            None => false,
        };
        peers.insert(
            name.duplicate(),
            DeclaredPeer { range: metadata.peer_dependencies.value_at(i).duplicate(), optional },
        );
        proof {
            take_one_more(names, i as int);
            assert(peers.deep_view() =~= goal.restrict(names.take(i + 1).to_set()));
        }
        i = i + 1;
    }
    assert(names.take(n as int) =~= names);
    assert(goal.restrict(names.to_set()) =~= goal);
    peers
}

/// One edge that a version declares.
pub struct EdgeModel {
    pub name: Seq<char>,
    pub specifier: Seq<char>,
    pub optional: bool,
}

/// The entries of a block of dependencies under some names, as edges.
pub open spec fn edges_named(
    names: Seq<Seq<char>>,
    block: Map<Seq<char>, Seq<char>>,
    optional: bool,
) -> Seq<EdgeModel> {
    Seq::new(
        names.len(),
        |i: int| EdgeModel { name: names[i], specifier: block[names[i]], optional },
    )
}

/// Every edge a version declares: the required ones, then the optional ones.
/// A name in both blocks is an optional edge and no other.
pub open spec fn edges_of(metadata: MetadataModel) -> Seq<EdgeModel> {
    let required = metadata.dependencies.dom().difference(metadata.optional_dependencies.dom());
    edges_named(in_order::<String>(required), metadata.dependencies, false) + edges_named(
        in_order::<String>(metadata.optional_dependencies.dom()),
        metadata.optional_dependencies,
        true,
    )
}

/// One edge that a version declares.
#[derive(Debug)]
pub struct Edge {
    pub name: String,
    pub specifier: String,
    pub optional: bool,
}

impl DeepView for Edge {
    type V = EdgeModel;

    open spec fn deep_view(&self) -> EdgeModel {
        EdgeModel { name: self.name@, specifier: self.specifier@, optional: self.optional }
    }
}

/// Every dependency edge a version declares, and whether it is optional.
pub fn declared_edges(metadata: &VersionMetadata) -> (edges: Vec<Edge>)
    ensures
        edges.deep_view() == edges_of(metadata.deep_view()),
{
    let mut edges: Vec<Edge> = Vec::new();
    let ghost required = metadata.dependencies.deep_view();
    let ghost optional = metadata.optional_dependencies.deep_view();
    let n: usize = metadata.dependencies.len();
    let ghost names = metadata.dependencies.keys();
    let ghost mut kept: Seq<Seq<char>> = seq![];
    let mut i: usize = 0;
    assert(kept.to_set() =~= names.take(0).to_set().difference(optional.dom()));
    while i < n
        invariant
            i <= n == names.len(),
            names == metadata.dependencies.keys(),
            ascending::<String>(names),
            required == metadata.dependencies.deep_view(),
            optional == metadata.optional_dependencies.deep_view(),
            edges@.len() == kept.len(),
            ascending::<String>(kept),
            forall|j: int| 0 <= j < kept.len() ==> #[trigger] names.take(i as int).contains(kept[j]),
            kept.to_set() == names.take(i as int).to_set().difference(optional.dom()),
            forall|j: int|
                0 <= j < kept.len() ==> (#[trigger] edges@[j]).deep_view() == (EdgeModel {
                    name: kept[j],
                    specifier: required[kept[j]],
                    optional: false,
                }),
        decreases n - i,
    {
        let name = metadata.dependencies.key_at(i);
        let ghost before = kept;
        proof {
            take_one_more(names, i as int);
        }
        if !metadata.optional_dependencies.contains(name) {
            edges.push(
                Edge {
                    name: name.duplicate(),
                    specifier: metadata.dependencies.value_at(i).duplicate(),
                    optional: false,
                },
            );
            proof {
                kept = before.push(names[i as int]);
                assert forall|p: int, q: int| 0 <= p < q < kept.len() implies String::before(
                    kept[p],
                    kept[q],
                ) by {
                    if q == before.len() {
                        assert(names.take(i as int).contains(before[p]));
                        let k = names.take(i as int).index_of(before[p]);
                        assert(String::before(names[k], names[i as int]));
                    }
                }
                assert(kept.to_set() =~= before.to_set().insert(names[i as int])) by {
                    assert(kept.take(before.len() as int) =~= before);
                    take_one_more(kept, before.len() as int);
                    assert(kept.take(before.len() as int + 1) =~= kept);
                }
                assert(kept.to_set() =~= names.take(i + 1).to_set().difference(optional.dom()));
            }
        } else {
            assert(kept.to_set() =~= names.take(i + 1).to_set().difference(optional.dom()));
        }
        proof {
            assert forall|j: int| 0 <= j < kept.len() implies #[trigger] names.take(i + 1).contains(
                kept[j],
            ) by {
                assert(kept.to_set().contains(kept[j]));
                assert(names.take(i + 1).to_set().contains(kept[j]));
            }
        }
        i = i + 1;
    }
    proof {
        assert(names.take(n as int) =~= names);
        let goal = in_order::<String>(required.dom().difference(optional.dom()));
        assert(ascending::<String>(kept) && kept.to_set() == required.dom().difference(
            optional.dom(),
        ));
        ascending_is_unique::<String>(goal, kept);
    }
    let ghost first = edges.deep_view();
    assert(first =~= edges_named(
        in_order::<String>(required.dom().difference(optional.dom())),
        required,
        false,
    ));
    let m: usize = metadata.optional_dependencies.len();
    let ghost others = metadata.optional_dependencies.keys();
    let mut j: usize = 0;
    while j < m
        invariant
            j <= m == others.len(),
            others == metadata.optional_dependencies.keys(),
            optional == metadata.optional_dependencies.deep_view(),
            edges.deep_view() == first + edges_named(others.take(j as int), optional, true),
        decreases m - j,
    {
        let ghost before = edges.deep_view();
        edges.push(
            Edge {
                name: metadata.optional_dependencies.key_at(j).duplicate(),
                specifier: metadata.optional_dependencies.value_at(j).duplicate(),
                optional: true,
            },
        );
        proof {
            let added = EdgeModel {
                name: others[j as int],
                specifier: optional[others[j as int]],
                optional: true,
            };
            assert(edges.deep_view() =~= before.push(added));
            assert(edges_named(others.take(j + 1), optional, true) =~= edges_named(
                others.take(j as int),
                optional,
                true,
            ).push(added));
            assert(edges.deep_view() =~= first + edges_named(others.take(j + 1), optional, true));
        }
        j = j + 1;
    }
    assert(others.take(m as int) =~= others);
    edges
}

/// A name in both blocks is an edge of the optional kind and of no other, and
/// every name in either block is an edge.
pub proof fn optional_wins(metadata: MetadataModel, name: Seq<char>)
    requires
        metadata.dependencies.dom().finite(),
        metadata.optional_dependencies.dom().finite(),
    ensures
        forall|i: int|
            0 <= i < edges_of(metadata).len() && #[trigger] edges_of(metadata)[i].name == name ==> (
            edges_of(metadata)[i].optional <==> metadata.optional_dependencies.contains_key(name)),
        metadata.dependencies.contains_key(name) || metadata.optional_dependencies.contains_key(
            name,
        ) <==> exists|i: int|
            0 <= i < edges_of(metadata).len() && #[trigger] edges_of(metadata)[i].name == name,
{
    let required = metadata.dependencies.dom().difference(metadata.optional_dependencies.dom());
    let optional = metadata.optional_dependencies.dom();
    in_order_lists::<String>(required);
    in_order_lists::<String>(optional);
    let first = in_order::<String>(required);
    let second = in_order::<String>(optional);
    let edges = edges_of(metadata);
    assert forall|i: int| 0 <= i < edges.len() implies {
        &&& i < first.len() ==> required.contains(#[trigger] edges[i].name) && !edges[i].optional
        &&& i >= first.len() ==> optional.contains(edges[i].name) && edges[i].optional
    } by {
        if i < first.len() {
            assert(first.to_set().contains(first[i]));
        } else {
            assert(second.to_set().contains(second[i - first.len()]));
        }
    }
    if optional.contains(name) {
        assert(second.to_set().contains(name));
        let k = second.index_of(name);
        assert(edges[first.len() + k].name == name);
    } else if metadata.dependencies.contains_key(name) {
        assert(first.to_set().contains(name));
        let k = first.index_of(name);
        assert(edges[k].name == name);
    }
}

} // verus!
