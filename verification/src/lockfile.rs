//! The resolved graph, written down.
//!
//! What is recorded is a type of its own rather than the graph: the graph is
//! whatever resolving finds convenient, and a lockfile is what is stable to
//! commit.

use vstd::prelude::*;
use vstd::string::*;
use vstd::utf8::encode_utf8;
use crate::binaries::Bins;
use crate::copies::{CopyModel, PeerCopy};
use crate::graph::{
    DeclaredPeer, Dependency, DependencyModel, GraphModel, Importer, ImporterModel, Kind,
    PackageModel, PeerModel, Resolution, ResolutionModel, ResolvedGraph, ResolvedPackage,
};
use crate::importer::{
    depth_of, importer_reading, ImporterFault, ImporterPath, ImporterPathError,
};
use crate::integrity::{
    ssri_of, ssri_reading, Integrity, IntegrityError, IntegrityFault, IntegrityModel,
};
use crate::lock_laws::{is_lockable, is_recordable, is_storable, locks_read_back};
use crate::peer_lock_laws::{is_resolved_from, links_are_no_packages, peer_resolved_locks_read_back};
use crate::naming::{all_identified, identify_each, naming_all_covers, CopiesOf, NamesOf, Node};
use crate::order::Duplicate;
use crate::package_id::{
    context_digest, context_opens, hex_text_is_hex, is_hex_digit, is_keyed_name, is_keyed_version,
    is_sound_key, key_parts, keys_split_back, name_and_version, plain_id, rendered,
    rendered_context, split_key, without_hash, IdModel, PackageId,
};
use crate::path::{components, is_absolute, steps, Component, Step};
use crate::platform::{PlatformSupport, SupportModel};
use crate::registry::result_view;
use crate::rewrite_laws::{
    is_read_whole, is_spelling, locks_are_finite, reading_and_writing_changes_nothing,
    what_is_read_is_whole,
};
use crate::sorted::{in_order, in_order_lists, take_one_more, SortedMap, SortedSet};
use crate::text::{after_opening, chars_of, cut_first_at, cut_last_at, opens_with, same};

verus! {

/// The file a lockfile is kept in.
pub const LOCKFILE_NAME: &'static str = "jerky-lock.json";

/// The version of the recorded shape.
pub const LOCKFILE_VERSION: u32 = 1;

/// What marks a linked workspace member.
pub const LINK_PREFIX: &'static str = "link:";

/// Why a lockfile cannot be read.
#[derive(Debug)]
#[allow(inconsistent_fields)]
pub enum LockfileError {
    UnsupportedVersion { found: u32, supported: u32 },
    BadKey { entry: String },
    KeyVersionMismatch { entry: String, declared: String },
    BadIntegrity { entry: String, source: IntegrityError },
    DanglingEdge { entry: String, dependency: String },
    KeyIdentityMismatch { entry: String, rebuilt: String },
    BadImporter { importer: String, source: ImporterPathError },
    LinkEscapesWorkspace { importer: String, name: String, target: String },
    UnknownImporterDependency { importer: String, name: String, version: String },
    Malformed { path: String, source: String },
    Io { path: String, source: String },
}

/// What a [`LockfileError`] says.
#[allow(inconsistent_fields)]
pub enum LockfileFault {
    UnsupportedVersion { found: u32, supported: u32 },
    BadKey { entry: Seq<char> },
    KeyVersionMismatch { entry: Seq<char>, declared: Seq<char> },
    BadIntegrity { entry: Seq<char>, source: IntegrityFault },
    DanglingEdge { entry: Seq<char>, dependency: Seq<char> },
    KeyIdentityMismatch { entry: Seq<char>, rebuilt: Seq<char> },
    BadImporter { importer: Seq<char>, source: ImporterFault },
    LinkEscapesWorkspace { importer: Seq<char>, name: Seq<char>, target: Seq<char> },
    UnknownImporterDependency { importer: Seq<char>, name: Seq<char>, version: Seq<char> },
    Malformed { path: Seq<char>, source: Seq<char> },
    Io { path: Seq<char>, source: Seq<char> },
}

impl DeepView for LockfileError {
    type V = LockfileFault;

    open spec fn deep_view(&self) -> LockfileFault {
        match self {
            LockfileError::UnsupportedVersion { found, supported } => {
                LockfileFault::UnsupportedVersion { found: *found, supported: *supported }
            },
            LockfileError::BadKey { entry } => LockfileFault::BadKey { entry: entry@ },
            LockfileError::KeyVersionMismatch { entry, declared } => {
                LockfileFault::KeyVersionMismatch { entry: entry@, declared: declared@ }
            },
            LockfileError::BadIntegrity { entry, source } => LockfileFault::BadIntegrity {
                entry: entry@,
                source: source.deep_view(),
            },
            LockfileError::DanglingEdge { entry, dependency } => LockfileFault::DanglingEdge {
                entry: entry@,
                dependency: dependency@,
            },
            LockfileError::KeyIdentityMismatch { entry, rebuilt } => {
                LockfileFault::KeyIdentityMismatch { entry: entry@, rebuilt: rebuilt@ }
            },
            LockfileError::BadImporter { importer, source } => LockfileFault::BadImporter {
                importer: importer@,
                source: source.deep_view(),
            },
            LockfileError::LinkEscapesWorkspace { importer, name, target } => {
                LockfileFault::LinkEscapesWorkspace {
                    importer: importer@,
                    name: name@,
                    target: target@,
                }
            },
            LockfileError::UnknownImporterDependency { importer, name, version } => {
                LockfileFault::UnknownImporterDependency {
                    importer: importer@,
                    name: name@,
                    version: version@,
                }
            },
            LockfileError::Malformed { path, source } => LockfileFault::Malformed {
                path: path@,
                source: source@,
            },
            LockfileError::Io { path, source } => LockfileFault::Io {
                path: path@,
                source: source@,
            },
        }
    }
}

/// One recorded package.
#[derive(Debug)]
pub struct Entry {
    pub version: String,
    pub resolved: String,
    pub integrity: String,
    /// The node each dependency resolved to.
    pub dependencies: SortedMap<String, String>,
    /// Which of those names were declared optional.
    pub optional_dependencies: SortedSet<String>,
    pub supports: PlatformSupport,
    pub bins: Bins,
    /// The key of the node that answered each peer.
    pub peers: SortedMap<String, String>,
    /// What the package published, so that a warning can be recomputed.
    pub declared_peers: SortedMap<String, DeclaredPeer>,
}

/// What an [`Entry`] means.
pub struct EntryModel {
    pub version: Seq<char>,
    pub resolved: Seq<char>,
    pub integrity: Seq<char>,
    pub dependencies: Map<Seq<char>, Seq<char>>,
    pub optional_dependencies: Set<Seq<char>>,
    pub supports: SupportModel,
    pub bins: Map<Seq<char>, Seq<char>>,
    pub peers: Map<Seq<char>, Seq<char>>,
    pub declared_peers: Map<Seq<char>, PeerModel>,
}

impl DeepView for Entry {
    type V = EntryModel;

    open spec fn deep_view(&self) -> EntryModel {
        EntryModel {
            version: self.version@,
            resolved: self.resolved@,
            integrity: self.integrity@,
            dependencies: self.dependencies.deep_view(),
            optional_dependencies: self.optional_dependencies.deep_view(),
            supports: self.supports.deep_view(),
            bins: self.bins.deep_view(),
            peers: self.peers.deep_view(),
            declared_peers: self.declared_peers.deep_view(),
        }
    }
}

/// One recorded dependency of a project: what was asked for, and what it
/// became. That is a version for a package of the name it is declared under,
/// a whole key for an alias, and a `link:` for a workspace member.
#[derive(Debug)]
pub struct LockedDependency {
    pub specifier: String,
    pub version: String,
}

/// What a [`LockedDependency`] means.
pub struct LockedModel {
    pub specifier: Seq<char>,
    pub version: Seq<char>,
}

impl DeepView for LockedDependency {
    type V = LockedModel;

    open spec fn deep_view(&self) -> LockedModel {
        LockedModel { specifier: self.specifier@, version: self.version@ }
    }
}

/// One recorded project, its two sections apart.
#[derive(Debug)]
pub struct LockedImporter {
    pub dependencies: SortedMap<String, LockedDependency>,
    pub dev_dependencies: SortedMap<String, LockedDependency>,
}

/// What a [`LockedImporter`] means.
pub struct LockedImporterModel {
    pub dependencies: Map<Seq<char>, LockedModel>,
    pub dev_dependencies: Map<Seq<char>, LockedModel>,
}

impl DeepView for LockedImporter {
    type V = LockedImporterModel;

    open spec fn deep_view(&self) -> LockedImporterModel {
        LockedImporterModel {
            dependencies: self.dependencies.deep_view(),
            dev_dependencies: self.dev_dependencies.deep_view(),
        }
    }
}

/// A lockfile's contents. The packages are flat, so that adding one appends a
/// block and touches nothing else.
#[derive(Debug)]
pub struct OnDisk {
    pub lockfile_version: u32,
    pub importers: SortedMap<String, LockedImporter>,
    pub packages: SortedMap<String, Entry>,
}

/// What an [`OnDisk`] means.
pub struct LockModel {
    pub lockfile_version: u32,
    pub importers: Map<Seq<char>, LockedImporterModel>,
    pub packages: Map<Seq<char>, EntryModel>,
}

impl DeepView for OnDisk {
    type V = LockModel;

    open spec fn deep_view(&self) -> LockModel {
        LockModel {
            lockfile_version: self.lockfile_version,
            importers: self.importers.deep_view(),
            packages: self.packages.deep_view(),
        }
    }
}

/// How an edge names the node it points at: by its key, with the name left
/// off where it is the one that the edge is declared under.
pub open spec fn edge_value_of(name: Seq<char>, id: IdModel) -> Seq<char> {
    if id.name == name {
        rendered(id).skip(name.len() as int + 1)
    } else {
        rendered(id)
    }
}

/// The key that an edge value names: itself if it splits as one, and a
/// version of the package that the edge is declared under if not.
pub open spec fn edge_key_of(name: Seq<char>, recorded: Seq<char>) -> Seq<char> {
    if key_parts(recorded) is Some {
        recorded
    } else {
        name + "@"@ + recorded
    }
}

proof fn version_is_no_key(version: Seq<char>)
    requires
        is_keyed_version(version),
    ensures
        name_and_version(version) is None,
        without_hash(version) == version,
{
}

/// An edge value gives back the key it was written from.
pub proof fn edges_read_back(name: Seq<char>, id: IdModel)
    requires
        is_keyed_name(id.name),
        is_keyed_version(id.version),
        is_sound_key(id),
    ensures
        edge_key_of(name, edge_value_of(name, id)) == rendered(id),
{
    keys_split_back(id);
    reveal_strlit("@");
    reveal_strlit("_");
    if id.name == name {
        let key = rendered(id);
        let value = edge_value_of(name, id);
        let base = id.name + "@"@ + id.version;
        let suffix = rendered_context(id.context);
        version_is_no_key(id.version);
        assert(key =~= name + "@"@ + value);
        let n = id.version.len() as int;
        if id.context.len() == 0 {
            assert(value =~= id.version);
            assert(!value.contains('('));
        } else if encode_utf8(base + suffix).len() <= 200 {
            assert(value =~= id.version + suffix);
            context_opens(id.context);
            assert(value[n] == '(');
            assert forall|j: int| 0 <= j < n implies value[j] != '(' by {
                assert(id.version.contains(id.version[j]));
            }
            cut_first_at(value, '(', n);
            assert(value.take(n) =~= id.version);
        } else {
            let digest = context_digest(suffix);
            hex_text_is_hex(crate::integrity::sha512_of(encode_utf8(suffix)).take(8));
            assert(value =~= id.version + "_"@ + digest);
            assert(!value.contains('(')) by {
                if value.contains('(') {
                    let j = value.index_of('(');
                    if j < n {
                        assert(id.version.contains(id.version[j]));
                    } else if j > n {
                        assert(is_hex_digit(digest[j - n - 1]));
                    }
                }
            }
            assert forall|j: int| n < j < value.len() implies value[j] != '_' by {
                assert(is_hex_digit(digest[j - n - 1]));
            }
            cut_last_at(value, '_', n);
            assert(value.take(n) =~= id.version);
            assert(value.skip(n + 1) =~= digest);
        }
    }
}

/// How an edge names the node it points at. For a name and a version of the
/// usual shape, the value reads back as the key of that node.
pub fn edge_value(name: &str, id: &PackageId) -> (value: String)
    ensures
        value@ == edge_value_of(name@, id.deep_view()),
        is_keyed_name(id.name@) && is_keyed_version(id.version@) ==> edge_key_of(name@, value@)
            == rendered(id.deep_view()),
        is_sound_key(id.deep_view()),
{
    let key = id.to_string();
    proof {
        if is_keyed_name(id.name@) && is_keyed_version(id.version@) {
            edges_read_back(name@, id.deep_view());
        }
        reveal_strlit("@");
    }
    if same(id.name.as_str(), name) {
        let n: usize = name.unicode_len();
        let m: usize = key.as_str().unicode_len();
        let value = key.as_str().substring_char(n + 1, m).to_owned();
        assert(value@ =~= key@.skip(n + 1));
        value
    } else {
        key
    }
}

/// The key that an edge value names.
pub fn edge_key(name: &str, recorded: &str) -> (key: String)
    ensures
        key@ == edge_key_of(name@, recorded@),
{
    match split_key(recorded) {
        Some(_) => recorded.to_owned(),
        None => {
            let mut key = name.to_owned();
            key.append("@");
            key.append(recorded);
            key
        },
    }
}

/// Is this flag one that need not be written?
pub fn is_not_optional(optional: &bool) -> (skip: bool)
    ensures
        skip == !*optional,
{
    !*optional
}

/// A package as an entry records it.
pub open spec fn entry_of(package: PackageModel) -> EntryModel {
    EntryModel {
        version: package.id.version,
        resolved: package.resolved,
        integrity: ssri_of(package.integrity),
        dependencies: Map::new(
            |name: Seq<char>| package.dependencies.contains_key(name),
            |name: Seq<char>| edge_value_of(name, package.dependencies[name]),
        ),
        optional_dependencies: package.optional_dependencies,
        supports: package.supports,
        bins: package.bins,
        peers: package.peers.map_values(|id: IdModel| rendered(id)),
        declared_peers: package.declared_peers,
    }
}

/// Some packages as entries, each under its key, a later one taking the place
/// of an earlier one of the same key.
pub open spec fn entries_of(
    packages: Map<IdModel, PackageModel>,
    ids: Seq<IdModel>,
) -> Map<Seq<char>, EntryModel>
    decreases ids.len(),
{
    if ids.len() == 0 {
        Map::empty()
    } else {
        entries_of(packages, ids.drop_last()).insert(
            rendered(packages[ids.last()].id),
            entry_of(packages[ids.last()]),
        )
    }
}

/// A dependency of a project as it is recorded.
pub open spec fn locked_of(name: Seq<char>, dependency: DependencyModel) -> LockedModel {
    LockedModel {
        specifier: dependency.specifier,
        version: match dependency.resolution {
            ResolutionModel::Registry(id) => edge_value_of(name, id),
            ResolutionModel::Local(path) => LINK_PREFIX@ + path,
        },
    }
}

/// One section of a project as it is recorded.
pub open spec fn section_of(importer: ImporterModel, kind: Kind) -> Map<Seq<char>, LockedModel> {
    Map::new(
        |name: Seq<char>| importer.contains_key(name) && importer[name].kind == kind,
        |name: Seq<char>| locked_of(name, importer[name]),
    )
}

/// A project as it is recorded.
pub open spec fn locked_importer_of(importer: ImporterModel) -> LockedImporterModel {
    LockedImporterModel {
        dependencies: section_of(importer, Kind::Prod),
        dev_dependencies: section_of(importer, Kind::Dev),
    }
}

/// A graph as it is recorded.
pub open spec fn lock_of(graph: GraphModel) -> LockModel {
    LockModel {
        lockfile_version: LOCKFILE_VERSION,
        importers: graph.importers.map_values(
            |importer: ImporterModel| locked_importer_of(importer),
        ),
        packages: entries_of(graph.packages, in_order::<PackageId>(graph.packages.dom())),
    }
}

fn save_edges(edges: &SortedMap<String, PackageId>, whole: bool) -> (saved: SortedMap<String, String>)
    ensures
        saved.deep_view().dom() == edges.deep_view().dom(),
        forall|name: Seq<char>| #[trigger]
            saved.deep_view().contains_key(name) ==> saved.deep_view()[name] == if whole {
                rendered(edges.deep_view()[name])
            } else {
                edge_value_of(name, edges.deep_view()[name])
            },
        forall|name: Seq<char>| #[trigger]
            edges.deep_view().contains_key(name) ==> is_sound_key(edges.deep_view()[name]),
{
    let mut saved: SortedMap<String, String> = SortedMap::new();
    let n: usize = edges.len();
    let ghost names = edges.keys();
    assert(names.take(0).to_set() =~= Set::<Seq<char>>::empty());
    let mut i: usize = 0;
    while i < n
        invariant
            i <= n == names.len(),
            names == edges.keys(),
            saved.deep_view().dom() == names.take(i as int).to_set(),
            forall|name: Seq<char>| #[trigger]
                saved.deep_view().contains_key(name) ==> saved.deep_view()[name] == (if whole {
                    rendered(edges.deep_view()[name])
                } else {
                    edge_value_of(name, edges.deep_view()[name])
                }) && is_sound_key(edges.deep_view()[name]),
        decreases n - i,
    {
        let name = edges.key_at(i);
        let id = edges.value_at(i);
        let value = if whole {
            id.to_string()
        } else {
            edge_value(name.as_str(), id)
        };
        saved.insert(name.duplicate(), value);
        proof {
            take_one_more(names, i as int);
            assert(saved.deep_view().dom() =~= names.take(i + 1).to_set());
        }
        i = i + 1;
    }
    assert(names.take(n as int) =~= names);
    assert forall|name: Seq<char>| #[trigger] edges.deep_view().contains_key(
        name,
    ) implies is_sound_key(edges.deep_view()[name]) by {
        assert(saved.deep_view().contains_key(name));
    }
    saved
}

/// Does the SSRI spelling of a digest give it back?
pub open spec fn hash_reads_back(integrity: IntegrityModel) -> bool {
    integrity.digest.len() == integrity.algo.spec_digest_len() ==> ssri_reading(ssri_of(integrity))
        == Ok::<IntegrityModel, IntegrityFault>(integrity)
}

fn save_package(package: &ResolvedPackage) -> (entry: Entry)
    ensures
        entry.deep_view() == entry_of(package.deep_view()),
        forall|name: Seq<char>| #[trigger]
            package.dependencies.deep_view().contains_key(name) ==> is_sound_key(
                package.dependencies.deep_view()[name],
            ),
        hash_reads_back(package.integrity.deep_view()),
{
    let dependencies = save_edges(&package.dependencies, false);
    let peers = save_edges(&package.peers, true);
    let ghost model = package.deep_view();
    assert(dependencies.deep_view() =~= entry_of(model).dependencies);
    assert(peers.deep_view() =~= entry_of(model).peers);
    Entry {
        version: package.id.version.clone(),
        resolved: package.resolved.clone(),
        integrity: package.integrity.to_ssri(),
        dependencies,
        optional_dependencies: package.optional_dependencies.duplicate(),
        supports: package.supports.duplicate(),
        bins: package.bins.duplicate(),
        peers,
        declared_peers: package.declared_peers.duplicate(),
    }
}

fn save_importer(importer: &Importer) -> (saved: LockedImporter)
    ensures
        saved.deep_view() == locked_importer_of(importer.deep_view()),
{
    let ghost model = importer.deep_view();
    let ghost prod = section_of(model, Kind::Prod);
    let ghost dev = section_of(model, Kind::Dev);
    let mut dependencies: SortedMap<String, LockedDependency> = SortedMap::new();
    let mut dev_dependencies: SortedMap<String, LockedDependency> = SortedMap::new();
    let n: usize = importer.dependencies.len();
    let ghost names = importer.dependencies.keys();
    assert(prod.restrict(names.take(0).to_set()) =~= Map::<Seq<char>, LockedModel>::empty());
    assert(dev.restrict(names.take(0).to_set()) =~= Map::<Seq<char>, LockedModel>::empty());
    let mut i: usize = 0;
    while i < n
        invariant
            i <= n == names.len(),
            names == importer.dependencies.keys(),
            model == importer.deep_view(),
            prod == section_of(model, Kind::Prod),
            dev == section_of(model, Kind::Dev),
            dependencies.deep_view() == prod.restrict(names.take(i as int).to_set()),
            dev_dependencies.deep_view() == dev.restrict(names.take(i as int).to_set()),
        decreases n - i,
    {
        let name = importer.dependencies.key_at(i);
        let dependency = importer.dependencies.value_at(i);
        let version = match &dependency.resolution {
            Resolution::Registry(id) => edge_value(name.as_str(), id),
            Resolution::Local(path) => {
                let mut version = LINK_PREFIX.to_owned();
                version.append(path.as_str());
                version
            },
        };
        let locked = LockedDependency { specifier: dependency.specifier.clone(), version };
        assert(locked.deep_view() == locked_of(name@, model[name@]));
        match dependency.kind {
            Kind::Prod => {
                dependencies.insert(name.duplicate(), locked);
            },
            Kind::Dev => {
                dev_dependencies.insert(name.duplicate(), locked);
            },
        }
        proof {
            take_one_more(names, i as int);
            assert(dependencies.deep_view() =~= prod.restrict(names.take(i + 1).to_set()));
            assert(dev_dependencies.deep_view() =~= dev.restrict(names.take(i + 1).to_set()));
        }
        i = i + 1;
    }
    assert(names.take(n as int) =~= names);
    assert(prod.restrict(names.to_set()) =~= prod);
    assert(dev.restrict(names.to_set()) =~= dev);
    LockedImporter { dependencies, dev_dependencies }
}

/// Where some steps lead, up and down counted against each other.
pub open spec fn net(taken: Seq<Step>) -> int
    decreases taken.len(),
{
    if taken.len() == 0 {
        0
    } else {
        net(taken.drop_last()) + match taken.last() {
            Step::Parent => -1int,
            Step::Normal(_) => 1int,
            _ => 0int,
        }
    }
}

/// Does a target, read from so many directories below the root, stay at or
/// below the root at every step?
pub open spec fn stays_inside(depth: nat, target: Seq<char>) -> bool {
    &&& !is_absolute(target)
    &&& forall|i: int|
        0 <= i <= steps(target).len() ==> depth + #[trigger] net(steps(target).take(i)) >= 0
}

/// Does a `link:` target, read relative to its importer, stay inside the
/// workspace? Walked rather than looked up: the directories need not exist.
pub fn stays_within_workspace(importer: &ImporterPath, target: &str) -> (yes: bool)
    ensures
        yes == stays_inside(depth_of(importer.deep_view()), target@),
{
    let chars = chars_of(target);
    if chars.len() > 0 && chars[0] == '/' {
        return false;
    }
    let start: usize = importer.depth();
    let found = components(target);
    let ghost taken = steps(target@);
    let mut depth: u128 = start as u128;
    let mut i: usize = 0;
    while i < found.len()
        invariant
            i <= found@.len(),
            start == depth_of(importer.deep_view()),
            found.deep_view() == taken,
            taken == steps(target@),
            !is_absolute(target@),
            depth == start + net(taken.take(i as int)),
            depth <= start + i,
            forall|j: int| 0 <= j <= i ==> start + #[trigger] net(taken.take(j)) >= 0,
        decreases found.len() - i,
    {
        assert(taken.take(i + 1).drop_last() =~= taken.take(i as int));
        assert(taken.take(i + 1).last() == found@[i as int].deep_view());
        match &found[i] {
            Component::Parent => {
                if depth == 0 {
                    assert(start + net(taken.take(i + 1)) < 0);
                    return false;
                }
                depth = depth - 1;
            },
            Component::Normal(_) => {
                depth = depth + 1;
            },
            _ => {},
        }
        i = i + 1;
    }
    true
}

/// The first fault that some keys give cause for, in order.
pub open spec fn first_fault(
    keys: Seq<Seq<char>>,
    fault: spec_fn(Seq<char>) -> Option<LockfileFault>,
) -> Option<LockfileFault>
    decreases keys.len(),
{
    if keys.len() == 0 {
        None
    } else {
        match first_fault(keys.drop_last(), fault) {
            Some(found) => Some(found),
            None => fault(keys.last()),
        }
    }
}

/// A fault found early is the fault there is.
proof fn faults_persist(
    keys: Seq<Seq<char>>,
    fault: spec_fn(Seq<char>) -> Option<LockfileFault>,
    i: int,
)
    requires
        0 <= i <= keys.len(),
        first_fault(keys.take(i), fault) is Some,
    ensures
        first_fault(keys, fault) == first_fault(keys.take(i), fault),
    decreases keys.len() - i,
{
    if i < keys.len() {
        assert(keys.take(i + 1).drop_last() =~= keys.take(i));
        faults_persist(keys, fault, i + 1);
    } else {
        assert(keys.take(i) =~= keys);
    }
}

/// Where no fault is found, there is none at any key.
pub proof fn no_fault_anywhere(
    keys: Seq<Seq<char>>,
    fault: spec_fn(Seq<char>) -> Option<LockfileFault>,
    i: int,
)
    requires
        first_fault(keys, fault) is None,
        0 <= i < keys.len(),
    ensures
        fault(keys[i]) is None,
    decreases keys.len(),
{
    if i < keys.len() - 1 {
        no_fault_anywhere(keys.drop_last(), fault, i);
    }
}

/// What is wrong with a recorded key and hash: the key is no key, it states
/// another version than its entry, or the hash cannot be used.
pub open spec fn entry_fault(
    entries: Map<Seq<char>, EntryModel>,
) -> spec_fn(Seq<char>) -> Option<LockfileFault> {
    |key: Seq<char>|
        {
            let entry = entries[key];
            match key_parts(key) {
                None => Some(LockfileFault::BadKey { entry: key }),
                Some((_, version)) => if version != entry.version {
                    Some(
                        LockfileFault::KeyVersionMismatch { entry: key, declared: entry.version },
                    )
                } else {
                    match ssri_reading(entry.integrity) {
                        Ok(_) => None,
                        Err(source) => Some(LockfileFault::BadIntegrity { entry: key, source }),
                    }
                },
            }
        }
}

/// What is wrong with an entry's edges: one points at nothing. Dependencies
/// are looked at before peers.
pub open spec fn edge_fault(
    entries: Map<Seq<char>, EntryModel>,
) -> spec_fn(Seq<char>) -> Option<LockfileFault> {
    |key: Seq<char>|
        {
            let entry = entries[key];
            match first_fault(
                in_order::<String>(entry.dependencies.dom()),
                dependency_fault(entries, key),
            ) {
                Some(fault) => Some(fault),
                None => first_fault(
                    in_order::<String>(entry.peers.dom()),
                    peer_fault(entries, key),
                ),
            }
        }
}

/// What is wrong with one of an entry's dependencies.
pub open spec fn dependency_fault(
    entries: Map<Seq<char>, EntryModel>,
    key: Seq<char>,
) -> spec_fn(Seq<char>) -> Option<LockfileFault> {
    |name: Seq<char>|
        {
            let target = edge_key_of(name, entries[key].dependencies[name]);
            if entries.contains_key(target) {
                None
            } else {
                Some(LockfileFault::DanglingEdge { entry: key, dependency: target })
            }
        }
}

/// What is wrong with one of an entry's peers.
pub open spec fn peer_fault(
    entries: Map<Seq<char>, EntryModel>,
    key: Seq<char>,
) -> spec_fn(Seq<char>) -> Option<LockfileFault> {
    |name: Seq<char>|
        {
            let target = entries[key].peers[name];
            if entries.contains_key(target) {
                None
            } else {
                Some(LockfileFault::DanglingEdge { entry: key, dependency: target })
            }
        }
}

/// What is wrong with a key, given the identity that its records amount to.
pub open spec fn identity_fault(
    ids: Map<Seq<char>, IdModel>,
) -> spec_fn(Seq<char>) -> Option<LockfileFault> {
    |key: Seq<char>|
        if rendered(ids[key]) == key {
            None
        } else {
            Some(LockfileFault::KeyIdentityMismatch { entry: key, rebuilt: rendered(ids[key]) })
        }
}

/// Read a recorded key's hash, if nothing is wrong with the key.
fn check_entry(key: &String, entry: &Entry, Ghost(entries): Ghost<Map<Seq<char>, EntryModel>>) -> (read:
    Result<(String, Integrity), LockfileError>)
    requires
        entries.contains_key(key@),
        entries[key@] == entry.deep_view(),
    ensures
        match read {
            Ok((name, integrity)) => {
                &&& entry_fault(entries)(key@) is None
                &&& key_parts(key@) == Some((name@, entry.version@))
                &&& ssri_reading(entry.integrity@) == Ok::<IntegrityModel, IntegrityFault>(
                    integrity.deep_view(),
                )
            },
            Err(error) => entry_fault(entries)(key@) == Some(error.deep_view()),
        },
{
    let (name, version) = match split_key(key.as_str()) {
        Some(halves) => halves,
        None => {
            return Err(LockfileError::BadKey { entry: key.clone() });
        },
    };
    if !same(version, entry.version.as_str()) {
        return Err(
            LockfileError::KeyVersionMismatch {
                entry: key.clone(),
                declared: entry.version.clone(),
            },
        );
    }
    match Integrity::parse(entry.integrity.as_str()) {
        Ok(integrity) => Ok((name.to_owned(), integrity)),
        Err(source) => Err(LockfileError::BadIntegrity { entry: key.clone(), source }),
    }
}

/// Check that every edge of an entry points at something.
fn check_edges(key: &String, entry: &Entry, packages: &SortedMap<String, Entry>) -> (checked: Result<
    (),
    LockfileError,
>)
    requires
        packages.deep_view().contains_key(key@),
        packages.deep_view()[key@] == entry.deep_view(),
    ensures
        match checked {
            Ok(_) => edge_fault(packages.deep_view())(key@) is None,
            Err(error) => edge_fault(packages.deep_view())(key@) == Some(error.deep_view()),
        },
{
    let ghost entries = packages.deep_view();
    let ghost of_dependency = dependency_fault(entries, key@);
    let ghost of_peer = peer_fault(entries, key@);
    let n: usize = entry.dependencies.len();
    let ghost names = entry.dependencies.keys();
    let mut i: usize = 0;
    while i < n
        invariant
            i <= n == names.len(),
            names == entry.dependencies.keys(),
            names == in_order::<String>(entry.dependencies.deep_view().dom()),
            entries == packages.deep_view(),
            entries[key@] == entry.deep_view(),
            of_dependency == dependency_fault(entries, key@),
            first_fault(names.take(i as int), of_dependency) is None,
        decreases n - i,
    {
        let name = entry.dependencies.key_at(i);
        let target = edge_key(name.as_str(), entry.dependencies.value_at(i).as_str());
        assert(names.take(i + 1).drop_last() =~= names.take(i as int));
        assert(names.take(i + 1).last() == name@);
        if !packages.contains(&target) {
            let error = LockfileError::DanglingEdge { entry: key.clone(), dependency: target };
            proof {
                faults_persist(names, of_dependency, i + 1);
            }
            return Err(error);
        }
        i = i + 1;
    }
    assert(names.take(n as int) =~= names);
    let m: usize = entry.peers.len();
    let ghost peers = entry.peers.keys();
    let mut j: usize = 0;
    while j < m
        invariant
            j <= m == peers.len(),
            peers == entry.peers.keys(),
            peers == in_order::<String>(entry.peers.deep_view().dom()),
            names == in_order::<String>(entry.dependencies.deep_view().dom()),
            entries == packages.deep_view(),
            entries[key@] == entry.deep_view(),
            of_dependency == dependency_fault(entries, key@),
            of_peer == peer_fault(entries, key@),
            first_fault(names, of_dependency) is None,
            first_fault(peers.take(j as int), of_peer) is None,
        decreases m - j,
    {
        let target = entry.peers.value_at(j);
        assert(peers.take(j + 1).drop_last() =~= peers.take(j as int));
        assert(peers.take(j + 1).last() == peers[j as int]);
        if !packages.contains(target) {
            let error = LockfileError::DanglingEdge {
                entry: key.clone(),
                dependency: target.clone(),
            };
            proof {
                faults_persist(peers, of_peer, j + 1);
            }
            return Err(error);
        }
        j = j + 1;
    }
    assert(peers.take(m as int) =~= peers);
    Ok(())
}

impl Node for String {
    open spec fn package_of(node: Seq<char>) -> IdModel {
        match key_parts(node) {
            Some((name, version)) => plain_id(name, version),
            None => plain_id(node, seq![]),
        }
    }

    fn package_id(&self) -> (id: PackageId) {
        match split_key(self.as_str()) {
            Some((name, version)) => PackageId::plain(name, version),
            None => {
                let id = PackageId::plain(self.as_str(), "");
                proof {
                    reveal_strlit("");
                    assert(""@ =~= Seq::<char>::empty());
                }
                id
            },
        }
    }
}

/// What a recorded entry resolved to, by key.
pub open spec fn copy_in(entry: EntryModel) -> CopyModel<Seq<char>> {
    CopyModel {
        own: entry.peers,
        dependencies: Map::new(
            |name: Seq<char>| entry.dependencies.contains_key(name),
            |name: Seq<char>| edge_key_of(name, entry.dependencies[name]),
        ),
    }
}

/// What every recorded entry resolved to.
pub open spec fn copies_in(entries: Map<Seq<char>, EntryModel>) -> CopiesOf<Seq<char>> {
    entries.map_values(|entry: EntryModel| copy_in(entry))
}

/// What a project records, its two sections put back together. A name in both
/// means the production entry.
pub open spec fn recorded_versions(importer: LockedImporterModel) -> Map<Seq<char>, Seq<char>> {
    importer.dev_dependencies.union_prefer_right(importer.dependencies).map_values(
        |locked: LockedModel| locked.version,
    )
}

/// The recorded keys that a project's dependencies name, those that name none
/// left out.
pub open spec fn root_keys(
    entries: Map<Seq<char>, EntryModel>,
    importer: LockedImporterModel,
) -> Map<Seq<char>, Seq<char>> {
    let versions = recorded_versions(importer);
    Map::new(
        |name: Seq<char>|
            versions.contains_key(name) && entries.contains_key(edge_key_of(name, versions[name])),
        |name: Seq<char>| edge_key_of(name, versions[name]),
    )
}

/// The identities given below some projects, in order.
pub open spec fn ids_below(lock: LockModel, raws: Seq<Seq<char>>) -> NamesOf<Seq<char>>
    decreases raws.len(),
{
    if raws.len() == 0 {
        Map::empty()
    } else {
        let targets = root_keys(lock.packages, lock.importers[raws.last()]);
        all_identified::<String>(
            copies_in(lock.packages),
            in_order::<String>(targets.dom()),
            targets,
            false,
            ids_below(lock, raws.drop_last()),
            lock.packages.dom(),
        ).1
    }
}

/// Every recorded key under itself.
pub open spec fn every_key(entries: Map<Seq<char>, EntryModel>) -> Map<Seq<char>, Seq<char>> {
    Map::new(|key: Seq<char>| entries.contains_key(key), |key: Seq<char>| key)
}

/// The identity that each recorded entry amounts to, rebuilt the way it was
/// given: below the projects first, in order, because that is what settles
/// where a cycle is cut, and then for whatever is left.
pub open spec fn rebuilt_ids(lock: LockModel) -> NamesOf<Seq<char>> {
    all_identified::<String>(
        copies_in(lock.packages),
        in_order::<String>(lock.packages.dom()),
        every_key(lock.packages),
        false,
        ids_below(lock, in_order::<String>(lock.importers.dom())),
        lock.packages.dom(),
    ).1
}

fn copy_from(entry: &Entry) -> (copy: PeerCopy<String>)
    ensures
        copy.deep_view() == copy_in(entry.deep_view()),
{
    let ghost goal = copy_in(entry.deep_view()).dependencies;
    let mut dependencies: SortedMap<String, String> = SortedMap::new();
    let n: usize = entry.dependencies.len();
    let ghost names = entry.dependencies.keys();
    assert(goal.restrict(names.take(0).to_set()) =~= Map::<Seq<char>, Seq<char>>::empty());
    let mut i: usize = 0;
    while i < n
        invariant
            i <= n == names.len(),
            names == entry.dependencies.keys(),
            goal == copy_in(entry.deep_view()).dependencies,
            dependencies.deep_view() == goal.restrict(names.take(i as int).to_set()),
        decreases n - i,
    {
        let name = entry.dependencies.key_at(i);
        let target = edge_key(name.as_str(), entry.dependencies.value_at(i).as_str());
        dependencies.insert(name.duplicate(), target);
        proof {
            take_one_more(names, i as int);
            assert(dependencies.deep_view() =~= goal.restrict(names.take(i + 1).to_set()));
        }
        i = i + 1;
    }
    assert(names.take(n as int) =~= names);
    assert(goal.restrict(names.to_set()) =~= goal);
    PeerCopy { own: entry.peers.duplicate(), dependencies }
}

fn copies_from(packages: &SortedMap<String, Entry>) -> (copies: SortedMap<String, PeerCopy<String>>)
    ensures
        copies.deep_view() == copies_in(packages.deep_view()),
{
    let ghost goal = copies_in(packages.deep_view());
    let mut copies: SortedMap<String, PeerCopy<String>> = SortedMap::new();
    let n: usize = packages.len();
    let ghost keys = packages.keys();
    assert(goal.restrict(keys.take(0).to_set()) =~= Map::<
        Seq<char>,
        CopyModel<Seq<char>>,
    >::empty());
    let mut i: usize = 0;
    while i < n
        invariant
            i <= n == keys.len(),
            keys == packages.keys(),
            goal == copies_in(packages.deep_view()),
            copies.deep_view() == goal.restrict(keys.take(i as int).to_set()),
        decreases n - i,
    {
        copies.insert(packages.key_at(i).duplicate(), copy_from(packages.value_at(i)));
        proof {
            take_one_more(keys, i as int);
            assert(copies.deep_view() =~= goal.restrict(keys.take(i + 1).to_set()));
        }
        i = i + 1;
    }
    assert(keys.take(n as int) =~= keys);
    assert(goal.restrict(keys.to_set()) =~= goal);
    copies
}

fn add_root_keys(
    packages: &SortedMap<String, Entry>,
    block: &SortedMap<String, LockedDependency>,
    targets: &mut SortedMap<String, String>,
)
    ensures
        final(targets).deep_view().dom().finite(),
        forall|name: Seq<char>| #[trigger]
            final(targets).deep_view().contains_key(name) <==> if block.deep_view().contains_key(
                name,
            ) {
                packages.deep_view().contains_key(
                    edge_key_of(name, block.deep_view()[name].version),
                )
            } else {
                old(targets).deep_view().contains_key(name)
            },
        forall|name: Seq<char>| #[trigger]
            final(targets).deep_view().contains_key(name) ==> final(targets).deep_view()[name]
                == if block.deep_view().contains_key(name) {
                edge_key_of(name, block.deep_view()[name].version)
            } else {
                old(targets).deep_view()[name]
            },
{
    let ghost start = targets.deep_view();
    let ghost here = block.deep_view();
    let ghost entries = packages.deep_view();
    let n: usize = block.len();
    let ghost names = block.keys();
    let mut i: usize = 0;
    while i < n
        invariant
            i <= n == names.len(),
            names == block.keys(),
            here == block.deep_view(),
            entries == packages.deep_view(),
            forall|name: Seq<char>| #[trigger]
                targets.deep_view().contains_key(name) <==> if names.take(
                    i as int,
                ).to_set().contains(name) {
                    entries.contains_key(edge_key_of(name, here[name].version))
                } else {
                    start.contains_key(name)
                },
            forall|name: Seq<char>| #[trigger]
                targets.deep_view().contains_key(name) ==> targets.deep_view()[name]
                    == if names.take(i as int).to_set().contains(name) {
                    edge_key_of(name, here[name].version)
                } else {
                    start[name]
                },
        decreases n - i,
    {
        let name = block.key_at(i);
        let key = edge_key(name.as_str(), block.value_at(i).version.as_str());
        if packages.contains(&key) {
            targets.insert(name.duplicate(), key);
        } else {
            targets.remove(name);
        }
        proof {
            take_one_more(names, i as int);
        }
        i = i + 1;
    }
    assert(names.take(n as int) =~= names);
    let m: usize = targets.len();
}

/// The identity that each recorded entry amounts to.
pub fn rebuild(on_disk: &OnDisk) -> (ids: SortedMap<String, PackageId>)
    ensures
        ids.deep_view() == rebuilt_ids(on_disk.deep_view()),
        on_disk.packages.deep_view().dom().subset_of(ids.deep_view().dom()),
{
    let ghost lock = on_disk.deep_view();
    let copies = copies_from(&on_disk.packages);
    let ghost all = copies.deep_view();
    assert(all.dom() =~= lock.packages.dom());
    let counted: usize = copies.len();
    let mut ids: SortedMap<String, PackageId> = SortedMap::new();
    let n: usize = on_disk.importers.len();
    let ghost raws = on_disk.importers.keys();
    let mut i: usize = 0;
    while i < n
        invariant
            i <= n == raws.len(),
            raws == on_disk.importers.keys(),
            lock == on_disk.deep_view(),
            all == copies.deep_view(),
            all == copies_in(lock.packages),
            all.dom() == lock.packages.dom(),
            all.dom().finite(),
            ids.deep_view() == ids_below(lock, raws.take(i as int)),
        decreases n - i,
    {
        let importer = on_disk.importers.value_at(i);
        let mut targets: SortedMap<String, String> = SortedMap::new();
        add_root_keys(&on_disk.packages, &importer.dev_dependencies, &mut targets);
        add_root_keys(&on_disk.packages, &importer.dependencies, &mut targets);
        assert(raws.take(i + 1).drop_last() =~= raws.take(i as int));
        assert(raws.take(i + 1).last() == raws[i as int]);
        assert(targets.deep_view() =~= root_keys(lock.packages, lock.importers[raws[i as int]]));
        identify_each(&copies, &targets, &mut ids);
        i = i + 1;
    }
    assert(raws.take(n as int) =~= raws);
    let mut rest: SortedMap<String, String> = SortedMap::new();
    let m: usize = on_disk.packages.len();
    let ghost keys = on_disk.packages.keys();
    assert(keys.take(0).to_set() =~= Set::<Seq<char>>::empty());
    let mut j: usize = 0;
    while j < m
        invariant
            j <= m == keys.len(),
            keys == on_disk.packages.keys(),
            rest.deep_view().dom() == keys.take(j as int).to_set(),
            forall|key: Seq<char>| #[trigger]
                rest.deep_view().contains_key(key) ==> rest.deep_view()[key] == key,
        decreases m - j,
    {
        let key = on_disk.packages.key_at(j);
        rest.insert(key.duplicate(), key.duplicate());
        proof {
            take_one_more(keys, j as int);
            assert(rest.deep_view().dom() =~= keys.take(j + 1).to_set());
        }
        j = j + 1;
    }
    assert(keys.take(m as int) =~= keys);
    assert(rest.deep_view() =~= every_key(lock.packages));
    assert(every_key(lock.packages).dom() =~= lock.packages.dom());
    let ghost before = ids.deep_view();
    identify_each(&copies, &rest, &mut ids);
    proof {
        naming_all_covers::<String>(
            all,
            keys,
            every_key(lock.packages),
            false,
            before,
            lock.packages.dom(),
        );
        assert forall|key: Seq<char>| lock.packages.dom().contains(key) implies ids.deep_view().dom().contains(
        key) by {
            assert(keys.to_set().contains(key));
            let k = keys.index_of(key);
            assert(every_key(lock.packages)[keys[k]] == key);
        }
    }
    ids
}

/// The package that an entry records.
pub open spec fn loaded_package(
    entry: EntryModel,
    ids: NamesOf<Seq<char>>,
    id: IdModel,
) -> PackageModel {
    PackageModel {
        id,
        resolved: entry.resolved,
        integrity: ssri_reading(entry.integrity)->Ok_0,
        dependencies: copy_in(entry).dependencies.map_values(|key: Seq<char>| ids[key]),
        optional_dependencies: entry.optional_dependencies,
        supports: entry.supports,
        bins: entry.bins,
        declared_peers: entry.declared_peers,
        peers: entry.peers.map_values(|key: Seq<char>| ids[key]),
    }
}

/// The packages that some entries record.
pub open spec fn loaded_packages(
    entries: Map<Seq<char>, EntryModel>,
    ids: NamesOf<Seq<char>>,
    keys: Seq<Seq<char>>,
) -> Map<IdModel, PackageModel>
    decreases keys.len(),
{
    if keys.len() == 0 {
        Map::empty()
    } else {
        let key = keys.last();
        loaded_packages(entries, ids, keys.drop_last()).insert(
            ids[key],
            loaded_package(entries[key], ids, ids[key]),
        )
    }
}

/// What a recorded dependency of a project resolved to. A link must not leave
/// the workspace, and anything else must name a recorded package.
pub open spec fn loaded_resolution(
    raw: Seq<char>,
    path: Seq<char>,
    name: Seq<char>,
    version: Seq<char>,
    ids: NamesOf<Seq<char>>,
) -> Result<ResolutionModel, LockfileFault> {
    if opens_with(version, LINK_PREFIX@) {
        let target = version.skip(LINK_PREFIX@.len() as int);
        if stays_inside(depth_of(path), target) {
            Ok(ResolutionModel::Local(target))
        } else {
            Err(LockfileFault::LinkEscapesWorkspace { importer: raw, name, target: version })
        }
    } else if ids.contains_key(edge_key_of(name, version)) {
        Ok(ResolutionModel::Registry(ids[edge_key_of(name, version)]))
    } else {
        Err(LockfileFault::UnknownImporterDependency { importer: raw, name, version })
    }
}

/// Some of one section of a project, on top of what was read already.
pub open spec fn loaded_section(
    raw: Seq<char>,
    path: Seq<char>,
    kind: Kind,
    section: Map<Seq<char>, LockedModel>,
    names: Seq<Seq<char>>,
    ids: NamesOf<Seq<char>>,
    before: ImporterModel,
) -> Result<ImporterModel, LockfileFault>
    decreases names.len(),
{
    if names.len() == 0 {
        Ok(before)
    } else {
        match loaded_section(raw, path, kind, section, names.drop_last(), ids, before) {
            Err(fault) => Err(fault),
            Ok(so_far) => {
                let name = names.last();
                match loaded_resolution(raw, path, name, section[name].version, ids) {
                    Err(fault) => Err(fault),
                    Ok(resolution) => Ok(
                        so_far.insert(
                            name,
                            DependencyModel {
                                specifier: section[name].specifier,
                                kind,
                                resolution,
                            },
                        ),
                    ),
                }
            },
        }
    }
}

/// A recorded project: where it sits, and what it depends on. The production
/// section is read second, so that it wins.
pub open spec fn loaded_importer(
    raw: Seq<char>,
    importer: LockedImporterModel,
    ids: NamesOf<Seq<char>>,
) -> Result<(Seq<char>, ImporterModel), LockfileFault> {
    match importer_reading(raw) {
        Err(source) => Err(LockfileFault::BadImporter { importer: raw, source }),
        Ok(path) => match loaded_section(
            raw,
            path,
            Kind::Dev,
            importer.dev_dependencies,
            in_order::<String>(importer.dev_dependencies.dom()),
            ids,
            Map::empty(),
        ) {
            Err(fault) => Err(fault),
            Ok(dev) => match loaded_section(
                raw,
                path,
                Kind::Prod,
                importer.dependencies,
                in_order::<String>(importer.dependencies.dom()),
                ids,
                dev,
            ) {
                Err(fault) => Err(fault),
                Ok(all) => Ok((path, all)),
            },
        },
    }
}

/// Some recorded projects, in order.
pub open spec fn loaded_importers(
    importers: Map<Seq<char>, LockedImporterModel>,
    ids: NamesOf<Seq<char>>,
    raws: Seq<Seq<char>>,
) -> Result<Map<Seq<char>, ImporterModel>, LockfileFault>
    decreases raws.len(),
{
    if raws.len() == 0 {
        Ok(Map::empty())
    } else {
        match loaded_importers(importers, ids, raws.drop_last()) {
            Err(fault) => Err(fault),
            Ok(before) => match loaded_importer(raws.last(), importers[raws.last()], ids) {
                Err(fault) => Err(fault),
                Ok((path, importer)) => Ok(before.insert(path, importer)),
            },
        }
    }
}

/// The graph that a lockfile records, or the first thing that is wrong with
/// it: its version, then its keys and hashes, then its edges, then the
/// identities that its records amount to, then its projects.
pub open spec fn loaded(lock: LockModel) -> Result<GraphModel, LockfileFault> {
    let keys = in_order::<String>(lock.packages.dom());
    let ids = rebuilt_ids(lock);
    if lock.lockfile_version != LOCKFILE_VERSION {
        Err(
            LockfileFault::UnsupportedVersion {
                found: lock.lockfile_version,
                supported: LOCKFILE_VERSION,
            },
        )
    } else if let Some(fault) = first_fault(keys, entry_fault(lock.packages)) {
        Err(fault)
    } else if let Some(fault) = first_fault(keys, edge_fault(lock.packages)) {
        Err(fault)
    } else if let Some(fault) = first_fault(keys, identity_fault(ids)) {
        Err(fault)
    } else {
        match loaded_importers(lock.importers, ids, in_order::<String>(lock.importers.dom())) {
            Err(fault) => Err(fault),
            Ok(importers) => Ok(
                GraphModel { importers, packages: loaded_packages(lock.packages, ids, keys) },
            ),
        }
    }
}

/// Is this a version of the recorded shape that is understood?
pub fn check_version(found: u32) -> (checked: Result<(), LockfileError>)
    ensures
        match checked {
            Ok(_) => found == LOCKFILE_VERSION,
            Err(error) => found != LOCKFILE_VERSION && error.deep_view() == (
            LockfileFault::UnsupportedVersion { found, supported: LOCKFILE_VERSION }),
        },
{
    if found == LOCKFILE_VERSION {
        Ok(())
    } else {
        Err(LockfileError::UnsupportedVersion { found, supported: LOCKFILE_VERSION })
    }
}

fn look_up(targets: &SortedMap<String, String>, ids: &SortedMap<String, PackageId>) -> (found: SortedMap<
    String,
    PackageId,
>)
    requires
        forall|name: Seq<char>| #[trigger]
            targets.deep_view().contains_key(name) ==> ids.deep_view().contains_key(
                targets.deep_view()[name],
            ),
    ensures
        found.deep_view() == targets.deep_view().map_values(|key: Seq<char>| ids.deep_view()[key]),
{
    let ghost goal = targets.deep_view().map_values(|key: Seq<char>| ids.deep_view()[key]);
    let mut found: SortedMap<String, PackageId> = SortedMap::new();
    let n: usize = targets.len();
    let ghost names = targets.keys();
    assert(goal.restrict(names.take(0).to_set()) =~= Map::<Seq<char>, IdModel>::empty());
    let mut i: usize = 0;
    while i < n
        invariant
            i <= n == names.len(),
            names == targets.keys(),
            goal == targets.deep_view().map_values(|key: Seq<char>| ids.deep_view()[key]),
            forall|name: Seq<char>| #[trigger]
                targets.deep_view().contains_key(name) ==> ids.deep_view().contains_key(
                    targets.deep_view()[name],
                ),
            found.deep_view() == goal.restrict(names.take(i as int).to_set()),
        decreases n - i,
    {
        match ids.get(targets.value_at(i)) {
            Some(id) => {
                found.insert(targets.key_at(i).duplicate(), id.duplicate());
            },
            None => {},
        }
        proof {
            take_one_more(names, i as int);
            assert(found.deep_view() =~= goal.restrict(names.take(i + 1).to_set()));
        }
        i = i + 1;
    }
    assert(names.take(n as int) =~= names);
    assert(goal.restrict(names.to_set()) =~= goal);
    found
}

fn load_section(
    raw: &String,
    path: &ImporterPath,
    kind: Kind,
    section: &SortedMap<String, LockedDependency>,
    ids: &SortedMap<String, PackageId>,
    before: SortedMap<String, Dependency>,
) -> (read: Result<SortedMap<String, Dependency>, LockfileError>)
    ensures
        result_view(read) == loaded_section(
            raw@,
            path.deep_view(),
            kind,
            section.deep_view(),
            in_order::<String>(section.deep_view().dom()),
            ids.deep_view(),
            before.deep_view(),
        ),
{
    let ghost here = section.deep_view();
    let ghost at = path.deep_view();
    let ghost known = ids.deep_view();
    let ghost start = before.deep_view();
    let mut dependencies = before;
    let n: usize = section.len();
    let ghost names = section.keys();
    let mut i: usize = 0;
    while i < n
        invariant
            i <= n == names.len(),
            names == section.keys(),
            names == in_order::<String>(here.dom()),
            here == section.deep_view(),
            at == path.deep_view(),
            known == ids.deep_view(),
            start == before.deep_view(),
            loaded_section(raw@, at, kind, here, names.take(i as int), known, start) == Ok::<
                ImporterModel,
                LockfileFault,
            >(dependencies.deep_view()),
        decreases n - i,
    {
        let name = section.key_at(i);
        let locked = section.value_at(i);
        assert(names.take(i + 1).drop_last() =~= names.take(i as int));
        assert(names.take(i + 1).last() == name@);
        let resolution = match after_opening(locked.version.as_str(), LINK_PREFIX) {
            Some(target) => {
                if !stays_within_workspace(path, target) {
                    let error = LockfileError::LinkEscapesWorkspace {
                        importer: raw.clone(),
                        name: name.clone(),
                        target: locked.version.clone(),
                    };
                    proof {
                        section_fails(
                            raw@,
                            at,
                            kind,
                            here,
                            names,
                            known,
                            start,
                            i + 1,
                            error.deep_view(),
                        );
                    }
                    return Err(error);
                }
                Resolution::Local(target.to_owned())
            },
            None => match ids.get(&edge_key(name.as_str(), locked.version.as_str())) {
                Some(id) => Resolution::Registry(id.duplicate()),
                None => {
                    let error = LockfileError::UnknownImporterDependency {
                        importer: raw.clone(),
                        name: name.clone(),
                        version: locked.version.clone(),
                    };
                    proof {
                        section_fails(
                            raw@,
                            at,
                            kind,
                            here,
                            names,
                            known,
                            start,
                            i + 1,
                            error.deep_view(),
                        );
                    }
                    return Err(error);
                },
            },
        };
        dependencies.insert(
            name.duplicate(),
            Dependency { specifier: locked.specifier.clone(), kind, resolution },
        );
        i = i + 1;
    }
    assert(names.take(n as int) =~= names);
    Ok(dependencies)
}

proof fn section_fails(
    raw: Seq<char>,
    path: Seq<char>,
    kind: Kind,
    section: Map<Seq<char>, LockedModel>,
    names: Seq<Seq<char>>,
    ids: NamesOf<Seq<char>>,
    before: ImporterModel,
    i: int,
    fault: LockfileFault,
)
    requires
        0 <= i <= names.len(),
        loaded_section(raw, path, kind, section, names.take(i), ids, before) == Err::<
            ImporterModel,
            LockfileFault,
        >(fault),
    ensures
        loaded_section(raw, path, kind, section, names, ids, before) == Err::<
            ImporterModel,
            LockfileFault,
        >(fault),
    decreases names.len() - i,
{
    if i < names.len() {
        assert(names.take(i + 1).drop_last() =~= names.take(i));
        section_fails(raw, path, kind, section, names, ids, before, i + 1, fault);
    } else {
        assert(names.take(i) =~= names);
    }
}

proof fn importers_fail(
    importers: Map<Seq<char>, LockedImporterModel>,
    ids: NamesOf<Seq<char>>,
    raws: Seq<Seq<char>>,
    i: int,
    fault: LockfileFault,
)
    requires
        0 <= i <= raws.len(),
        loaded_importers(importers, ids, raws.take(i)) == Err::<
            Map<Seq<char>, ImporterModel>,
            LockfileFault,
        >(fault),
    ensures
        loaded_importers(importers, ids, raws) == Err::<
            Map<Seq<char>, ImporterModel>,
            LockfileFault,
        >(fault),
    decreases raws.len() - i,
{
    if i < raws.len() {
        assert(raws.take(i + 1).drop_last() =~= raws.take(i));
        importers_fail(importers, ids, raws, i + 1, fault);
    } else {
        assert(raws.take(i) =~= raws);
    }
}

fn load_importer(
    raw: &String,
    importer: &LockedImporter,
    ids: &SortedMap<String, PackageId>,
) -> (read: Result<(ImporterPath, Importer), LockfileError>)
    ensures
        match read {
            Ok((path, loaded)) => loaded_importer(raw@, importer.deep_view(), ids.deep_view())
                == Ok::<(Seq<char>, ImporterModel), LockfileFault>(
                (path.deep_view(), loaded.deep_view()),
            ),
            Err(error) => loaded_importer(raw@, importer.deep_view(), ids.deep_view()) == Err::<
                (Seq<char>, ImporterModel),
                LockfileFault,
            >(error.deep_view()),
        },
{
    let path = match ImporterPath::new(raw.as_str()) {
        Ok(path) => path,
        Err(source) => {
            return Err(LockfileError::BadImporter { importer: raw.clone(), source });
        },
    };
    let none: SortedMap<String, Dependency> = SortedMap::new();
    let dev = match load_section(
        raw,
        &path,
        Kind::Dev,
        &importer.dev_dependencies,
        ids,
        none,
    ) {
        Ok(dev) => dev,
        Err(error) => {
            return Err(error);
        },
    };
    match load_section(raw, &path, Kind::Prod, &importer.dependencies, ids, dev) {
        Ok(dependencies) => Ok((path, Importer { dependencies })),
        Err(error) => Err(error),
    }
}

/// Read a graph out of what a lockfile records.
///
/// A lockfile that cannot be understood is a signal rather than noise, so
/// everything that is wrong with one is an error. In what is read nothing
/// dangles, and each package is under the key that says what it is. One that is
/// spelled the way lockfiles are written would be written the same again.
pub fn load(on_disk: &OnDisk) -> (graph: Result<ResolvedGraph, LockfileError>)
    ensures
        result_view(graph) == loaded(on_disk.deep_view()),
        graph is Ok ==> is_read_whole(on_disk.deep_view(), (graph->Ok_0).deep_view()),
        graph is Ok && is_spelling(on_disk.deep_view()) ==> lock_of((graph->Ok_0).deep_view())
            == on_disk.deep_view(),
{
    let ghost lock = on_disk.deep_view();
    let ghost entries = lock.packages;
    let ghost of_entry = entry_fault(entries);
    let ghost of_edge = edge_fault(entries);
    match check_version(on_disk.lockfile_version) {
        Ok(_) => {},
        Err(error) => {
            return Err(error);
        },
    }
    let n: usize = on_disk.packages.len();
    let ghost keys = on_disk.packages.keys();
    let mut hashes: Vec<Integrity> = Vec::new();
    let mut i: usize = 0;
    while i < n
        invariant
            i <= n == keys.len(),
            keys == on_disk.packages.keys(),
            keys == in_order::<String>(entries.dom()),
            lock == on_disk.deep_view(),
            entries == lock.packages,
            lock.lockfile_version == LOCKFILE_VERSION,
            of_entry == entry_fault(entries),
            first_fault(keys.take(i as int), of_entry) is None,
            hashes@.len() == i,
            forall|j: int|
                0 <= j < i ==> ssri_reading(entries[keys[j]].integrity) == Ok::<
                    IntegrityModel,
                    IntegrityFault,
                >((#[trigger] hashes@[j]).deep_view()),
        decreases n - i,
    {
        let key = on_disk.packages.key_at(i);
        assert(keys.take(i + 1).drop_last() =~= keys.take(i as int));
        assert(keys.take(i + 1).last() == key@);
        match check_entry(key, on_disk.packages.value_at(i), Ghost(entries)) {
            Ok((_, integrity)) => {
                hashes.push(integrity);
            },
            Err(error) => {
                proof {
                    faults_persist(keys, of_entry, i + 1);
                }
                return Err(error);
            },
        }
        i = i + 1;
    }
    assert(keys.take(n as int) =~= keys);
    let mut j: usize = 0;
    while j < n
        invariant
            j <= n == keys.len(),
            keys == on_disk.packages.keys(),
            keys == in_order::<String>(entries.dom()),
            lock == on_disk.deep_view(),
            entries == lock.packages,
            lock.lockfile_version == LOCKFILE_VERSION,
            of_edge == edge_fault(entries),
            first_fault(keys, entry_fault(entries)) is None,
            first_fault(keys.take(j as int), of_edge) is None,
        decreases n - j,
    {
        let key = on_disk.packages.key_at(j);
        assert(keys.take(j + 1).drop_last() =~= keys.take(j as int));
        assert(keys.take(j + 1).last() == key@);
        match check_edges(key, on_disk.packages.value_at(j), &on_disk.packages) {
            Ok(_) => {},
            Err(error) => {
                proof {
                    faults_persist(keys, of_edge, j + 1);
                }
                return Err(error);
            },
        }
        j = j + 1;
    }
    let ids = rebuild(on_disk);
    let ghost known = ids.deep_view();
    let ghost of_identity = identity_fault(known);
    let mut k: usize = 0;
    while k < n
        invariant
            k <= n == keys.len(),
            keys == on_disk.packages.keys(),
            keys == in_order::<String>(entries.dom()),
            keys.to_set() == entries.dom(),
            lock == on_disk.deep_view(),
            entries == lock.packages,
            lock.lockfile_version == LOCKFILE_VERSION,
            first_fault(keys, entry_fault(entries)) is None,
            first_fault(keys, edge_fault(entries)) is None,
            known == ids.deep_view(),
            known == rebuilt_ids(lock),
            entries.dom().subset_of(known.dom()),
            of_identity == identity_fault(known),
            first_fault(keys.take(k as int), of_identity) is None,
        decreases n - k,
    {
        let key = on_disk.packages.key_at(k);
        assert(keys.take(k + 1).drop_last() =~= keys.take(k as int));
        assert(keys.take(k + 1).last() == key@);
        assert(entries.dom().contains(key@));
        match ids.get(key) {
            Some(id) => {
                let rebuilt = id.to_string();
                if !same(rebuilt.as_str(), key.as_str()) {
                    let error = LockfileError::KeyIdentityMismatch {
                        entry: key.clone(),
                        rebuilt,
                    };
                    proof {
                        faults_persist(keys, of_identity, k + 1);
                    }
                    return Err(error);
                }
            },
            None => {},
        }
        k = k + 1;
    }
    let mut packages: SortedMap<PackageId, ResolvedPackage> = SortedMap::new();
    let mut w: usize = 0;
    while w < n
        invariant
            w <= n == keys.len(),
            n == hashes@.len(),
            keys == on_disk.packages.keys(),
            keys.to_set() == entries.dom(),
            entries == on_disk.packages.deep_view(),
            known == ids.deep_view(),
            entries.dom().subset_of(known.dom()),
            of_edge == edge_fault(entries),
            first_fault(keys, of_edge) is None,
            forall|j: int|
                0 <= j < n ==> ssri_reading(entries[keys[j]].integrity) == Ok::<
                    IntegrityModel,
                    IntegrityFault,
                >((#[trigger] hashes@[j]).deep_view()),
            packages.deep_view() == loaded_packages(entries, known, keys.take(w as int)),
        decreases n - w,
    {
        let key = on_disk.packages.key_at(w);
        let entry = on_disk.packages.value_at(w);
        let ghost record = entries[key@];
        assert(keys.take(w + 1).drop_last() =~= keys.take(w as int));
        assert(keys.take(w + 1).last() == key@);
        assert(entries.dom().contains(key@));
        let copy = copy_from(entry);
        proof {
            let counted = entry.dependencies.deep_view();
            no_fault_anywhere(keys, of_edge, w as int);
            edges_are_known(entries, key@);
        }
        let listed: usize = entry.dependencies.len();
        let peers_listed: usize = entry.peers.len();
        proof {
            edges_are_known(entries, key@);
        }
        match ids.get(key) {
            Some(id) => {
                let package = ResolvedPackage {
                    id: id.duplicate(),
                    resolved: entry.resolved.clone(),
                    integrity: hashes[w].duplicate(),
                    dependencies: look_up(&copy.dependencies, &ids),
                    optional_dependencies: entry.optional_dependencies.duplicate(),
                    supports: entry.supports.duplicate(),
                    bins: entry.bins.duplicate(),
                    declared_peers: entry.declared_peers.duplicate(),
                    peers: look_up(&entry.peers, &ids),
                };
                assert(package.deep_view() == loaded_package(record, known, id.deep_view()));
                packages.insert(id.duplicate(), package);
            },
            None => {},
        }
        w = w + 1;
    }
    let mut importers: SortedMap<ImporterPath, Importer> = SortedMap::new();
    let m: usize = on_disk.importers.len();
    let ghost raws = on_disk.importers.keys();
    let mut v: usize = 0;
    while v < m
        invariant
            v <= m == raws.len(),
            raws == on_disk.importers.keys(),
            raws == in_order::<String>(lock.importers.dom()),
            keys == in_order::<String>(entries.dom()),
            lock == on_disk.deep_view(),
            entries == lock.packages,
            known == ids.deep_view(),
            known == rebuilt_ids(lock),
            lock.lockfile_version == LOCKFILE_VERSION,
            first_fault(keys, entry_fault(entries)) is None,
            first_fault(keys, edge_fault(entries)) is None,
            first_fault(keys, identity_fault(known)) is None,
            loaded_importers(lock.importers, known, raws.take(v as int)) == Ok::<
                Map<Seq<char>, ImporterModel>,
                LockfileFault,
            >(importers.deep_view()),
        decreases m - v,
    {
        let raw = on_disk.importers.key_at(v);
        assert(raws.take(v + 1).drop_last() =~= raws.take(v as int));
        assert(raws.take(v + 1).last() == raw@);
        match load_importer(raw, on_disk.importers.value_at(v), &ids) {
            Ok((path, importer)) => {
                importers.insert(path, importer);
            },
            Err(error) => {
                proof {
                    importers_fail(lock.importers, known, raws, v + 1, error.deep_view());
                }
                return Err(error);
            },
        }
        v = v + 1;
    }
    assert(raws.take(m as int) =~= raws);
    let graph = ResolvedGraph { importers, packages };
    proof {
        assert(loaded(lock) == Ok::<GraphModel, LockfileFault>(graph.deep_view()));
        locks_are_finite(on_disk);
        what_is_read_is_whole(lock, graph.deep_view());
        if is_spelling(lock) {
            reading_and_writing_changes_nothing(lock, graph.deep_view());
        }
    }
    Ok(graph)
}

/// Where no edge dangles, every edge of an entry names a recorded key.
proof fn edges_are_known(entries: Map<Seq<char>, EntryModel>, key: Seq<char>)
    requires
        edge_fault(entries)(key) is None,
    ensures
        entries[key].dependencies.dom().finite() ==> forall|name: Seq<char>| #[trigger]
            copy_in(entries[key]).dependencies.contains_key(name) ==> entries.contains_key(
                copy_in(entries[key]).dependencies[name],
            ),
        entries[key].peers.dom().finite() ==> forall|name: Seq<char>| #[trigger]
            entries[key].peers.contains_key(name) ==> entries.contains_key(
                entries[key].peers[name],
            ),
{
    let entry = entries[key];
    if entry.dependencies.dom().finite() {
        let names = in_order::<String>(entry.dependencies.dom());
        in_order_lists::<String>(entry.dependencies.dom());
        assert forall|name: Seq<char>| #[trigger] copy_in(entry).dependencies.contains_key(
            name,
        ) implies entries.contains_key(copy_in(entry).dependencies[name]) by {
            assert(names.to_set().contains(name));
            let i = names.index_of(name);
            no_fault_anywhere(names, dependency_fault(entries, key), i);
        }
    }
    if entry.peers.dom().finite() {
        let names = in_order::<String>(entry.peers.dom());
        in_order_lists::<String>(entry.peers.dom());
        assert forall|name: Seq<char>| #[trigger] entry.peers.contains_key(
            name,
        ) implies entries.contains_key(entry.peers[name]) by {
            assert(names.to_set().contains(name));
            let i = names.index_of(name);
            no_fault_anywhere(names, peer_fault(entries, key), i);
        }
    }
}

/// Write a graph down the way a lockfile records it. A graph that a lockfile
/// can hold reads back out of it unchanged: one in which every package is
/// settled, and one whose peers were just resolved.
pub fn save(graph: &ResolvedGraph) -> (on_disk: OnDisk)
    ensures
        on_disk.deep_view() == lock_of(graph.deep_view()),
        forall|source: GraphModel, levels: nat| #[trigger]
            is_resolved_from(graph.deep_view(), source, levels) && is_storable(graph.deep_view())
                && links_are_no_packages(graph.deep_view()) ==> loaded(on_disk.deep_view()) == Ok::<
                GraphModel,
                LockfileFault,
            >(graph.deep_view()),
        is_recordable(graph.deep_view()) ==> loaded(on_disk.deep_view()) == Ok::<
            GraphModel,
            LockfileFault,
        >(graph.deep_view()),
{
    let ghost model = graph.deep_view();
    let mut packages: SortedMap<String, Entry> = SortedMap::new();
    let n: usize = graph.packages.len();
    let ghost ids = graph.packages.keys();
    let mut i: usize = 0;
    while i < n
        invariant
            i <= n == ids.len(),
            ids == graph.packages.keys(),
            model == graph.deep_view(),
            packages.deep_view() == entries_of(model.packages, ids.take(i as int)),
            forall|j: int|
                0 <= j < i ==> is_sound_key(model.packages[#[trigger] ids[j]].id)
                    && hash_reads_back(model.packages[ids[j]].integrity),
        decreases n - i,
    {
        let package = graph.packages.value_at(i);
        assert(ids.take(i + 1).drop_last() =~= ids.take(i as int));
        assert(ids.take(i + 1).last() == ids[i as int]);
        packages.insert(package.id.to_string(), save_package(package));
        i = i + 1;
    }
    assert(ids.take(n as int) =~= ids);
    let mut importers: SortedMap<String, LockedImporter> = SortedMap::new();
    let ghost goal = lock_of(model).importers;
    let m: usize = graph.importers.len();
    let ghost paths = graph.importers.keys();
    assert(goal.restrict(paths.take(0).to_set()) =~= Map::<
        Seq<char>,
        LockedImporterModel,
    >::empty());
    let mut j: usize = 0;
    while j < m
        invariant
            j <= m == paths.len(),
            paths == graph.importers.keys(),
            model == graph.deep_view(),
            goal == lock_of(model).importers,
            importers.deep_view() == goal.restrict(paths.take(j as int).to_set()),
        decreases m - j,
    {
        importers.insert(
            graph.importers.key_at(j).as_str().to_owned(),
            save_importer(graph.importers.value_at(j)),
        );
        proof {
            take_one_more(paths, j as int);
            assert(importers.deep_view() =~= goal.restrict(paths.take(j + 1).to_set()));
        }
        j = j + 1;
    }
    assert(paths.take(m as int) =~= paths);
    assert(goal.restrict(paths.to_set()) =~= goal);
    proof {
        if is_storable(model) {
            assert forall|id: IdModel| #[trigger] model.packages.contains_key(
                id,
            ) implies is_sound_key(id) && hash_reads_back(model.packages[id].integrity) by {
                assert(ids.to_set().contains(id));
                let k = ids.index_of(id);
                assert(is_sound_key(model.packages[ids[k]].id));
                assert(is_lockable(model.packages, id));
            }
            if is_recordable(model) {
                locks_read_back(model);
            }
            assert forall|source: GraphModel, levels: nat| #[trigger]
                is_resolved_from(model, source, levels) && links_are_no_packages(model)
                implies loaded(lock_of(model)) == Ok::<GraphModel, LockfileFault>(model) by {
                peer_resolved_locks_read_back(model, source, levels);
            }
        }
    }
    OnDisk { lockfile_version: LOCKFILE_VERSION, importers, packages }
}

} // verus!
