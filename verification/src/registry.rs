//! What a package registry says, and how it is asked.

use vstd::prelude::*;
use vstd::string::*;
use crate::binaries::{bins_of, Bins, Declared, DeclaredBins};
use crate::integrity::{
    shasum_reading, ssri_reading, Algo, Integrity, IntegrityError, IntegrityFault, IntegrityModel,
};
use crate::order::Duplicate;
use crate::range::{version_parses, Version};
use crate::sorted::{in_order, take_one_more, SortedMap, SortedSet};

verus! {

/// How many requests are in flight at the registry at once.
pub const MAX_CONCURRENT_FETCHES: usize = 16;

/// Where packages come from when nothing else is said.
pub const DEFAULT_REGISTRY: &'static str = "https://registry.npmjs.org";

/// Why the registry did not answer.
#[derive(Debug)]
#[allow(inconsistent_fields)]
pub enum RegistryError {
    PackageNotFound(String),
    VersionNotFound { name: String, version: String },
    /// The registry could not be reached.
    Network { url: String, source: String },
    /// The registry was reached, and then went quiet.
    Stalled { url: String, source: String },
    /// The registry could not be reached, and the copy on disk is this many
    /// seconds old, past the freshness window.
    StaleCacheOnly { name: String, age: u64, source: Box<RegistryError> },
    MalformedResponse { url: String, source: String },
}

/// What a [`RegistryError`] says.
#[allow(inconsistent_fields)]
pub enum RegistryFault {
    PackageNotFound(Seq<char>),
    VersionNotFound { name: Seq<char>, version: Seq<char> },
    Network { url: Seq<char>, source: Seq<char> },
    Stalled { url: Seq<char>, source: Seq<char> },
    StaleCacheOnly { name: Seq<char>, age: u64, source: Box<RegistryFault> },
    MalformedResponse { url: Seq<char>, source: Seq<char> },
}

impl DeepView for RegistryError {
    type V = RegistryFault;

    open spec fn deep_view(&self) -> RegistryFault
        decreases self,
    {
        match self {
            RegistryError::PackageNotFound(name) => RegistryFault::PackageNotFound(name@),
            RegistryError::VersionNotFound { name, version } => RegistryFault::VersionNotFound {
                name: name@,
                version: version@,
            },
            RegistryError::Network { url, source } => RegistryFault::Network {
                url: url@,
                source: source@,
            },
            RegistryError::Stalled { url, source } => RegistryFault::Stalled {
                url: url@,
                source: source@,
            },
            RegistryError::StaleCacheOnly { name, age, source } => RegistryFault::StaleCacheOnly {
                name: name@,
                age: *age,
                source: Box::new((**source).deep_view()),
            },
            RegistryError::MalformedResponse { url, source } => RegistryFault::MalformedResponse {
                url: url@,
                source: source@,
            },
        }
    }
}

/// One peer's flags. Only `optional` exists.
#[derive(Debug, Clone, Copy, PartialEq, Eq, Structural)]
pub struct PeerMeta {
    pub optional: bool,
}

impl DeepView for PeerMeta {
    type V = bool;

    open spec fn deep_view(&self) -> bool {
        self.optional
    }
}

impl Duplicate for PeerMeta {
    fn duplicate(&self) -> (copy: Self) {
        *self
    }
}

/// Where a version's tarball is, and what it must hash to.
#[derive(Debug)]
pub struct Dist {
    pub tarball: String,
    pub integrity: Option<String>,
    pub shasum: Option<String>,
}

/// What a [`Dist`] means.
pub struct DistModel {
    pub tarball: Seq<char>,
    pub integrity: Option<Seq<char>>,
    pub shasum: Option<Seq<char>>,
}

impl DeepView for Dist {
    type V = DistModel;

    open spec fn deep_view(&self) -> DistModel {
        DistModel {
            tarball: self.tarball@,
            integrity: self.integrity.deep_view(),
            shasum: self.shasum.deep_view(),
        }
    }
}

impl Duplicate for Dist {
    fn duplicate(&self) -> (copy: Self) {
        Dist {
            tarball: self.tarball.clone(),
            integrity: self.integrity.duplicate(),
            shasum: self.shasum.duplicate(),
        }
    }
}

/// Is this what a version's tarball must hash to? The `integrity` field says
/// so, and the older `shasum` where there is none.
pub open spec fn dist_reading(
    dist: DistModel,
    reading: Result<IntegrityModel, IntegrityFault>,
) -> bool {
    match dist.integrity {
        Some(text) => reading == ssri_reading(text),
        None => match dist.shasum {
            Some(text) => match reading {
                Ok(integrity) => integrity.algo is Sha1 && shasum_reading(text, integrity.digest),
                Err(fault) => fault == IntegrityFault::Unparseable(text) && forall|digest: Seq<u8>|
                    !shasum_reading(text, digest),
            },
            None => reading == Err::<IntegrityModel, IntegrityFault>(IntegrityFault::Missing),
        },
    }
}

/// What a version's tarball must hash to.
pub open spec fn dist_integrity(dist: DistModel) -> Result<IntegrityModel, IntegrityFault> {
    choose|reading: Result<IntegrityModel, IntegrityFault>| dist_reading(dist, reading)
}

/// A `dist` always says something, if only what is wrong with it.
pub proof fn dist_integrity_reads(dist: DistModel)
    ensures
        dist_reading(dist, dist_integrity(dist)),
{
    let reading = match (dist.integrity, dist.shasum) {
        (Some(text), _) => ssri_reading(text),
        (None, Some(text)) => if exists|digest: Seq<u8>| shasum_reading(text, digest) {
            Ok(
                IntegrityModel {
                    algo: Algo::Sha1,
                    digest: choose|digest: Seq<u8>| shasum_reading(text, digest),
                },
            )
        } else {
            Err(IntegrityFault::Unparseable(text))
        },
        (None, None) => Err(IntegrityFault::Missing),
    };
    assert(dist_reading(dist, reading));
}

/// A `dist` says one thing only.
pub proof fn dist_reading_is_unique(
    dist: DistModel,
    a: Result<IntegrityModel, IntegrityFault>,
    b: Result<IntegrityModel, IntegrityFault>,
)
    requires
        dist_reading(dist, a),
        dist_reading(dist, b),
    ensures
        a == b,
        a == dist_integrity(dist),
{
    if dist.integrity is None && dist.shasum is Some {
        shasum_readings_agree(dist, a, b);
        shasum_readings_agree(dist, a, dist_integrity(dist));
    }
}

proof fn shasum_readings_agree(
    dist: DistModel,
    a: Result<IntegrityModel, IntegrityFault>,
    b: Result<IntegrityModel, IntegrityFault>,
)
    requires
        dist.integrity is None,
        dist.shasum is Some,
        dist_reading(dist, a),
        dist_reading(dist, b),
    ensures
        a == b,
{
    let text = dist.shasum->0;
    match (a, b) {
        (Ok(x), Ok(y)) => {
            assert forall|i: int| 0 <= i < 20 implies x.digest[i] == y.digest[i] by {
                assert(x.digest[i] as int == y.digest[i] as int);
            }
            assert(x.digest =~= y.digest);
        },
        _ => {},
    }
}

impl Dist {
    /// What the tarball must hash to: the `integrity` field, else the legacy
    /// `shasum`, else nothing that can be used.
    pub fn integrity(&self) -> (read: Result<Integrity, IntegrityError>)
        ensures
            result_view(read) == dist_integrity(self.deep_view()),
            dist_reading(self.deep_view(), dist_integrity(self.deep_view())),
    {
        let read = match &self.integrity {
            Some(raw) => Integrity::parse(raw.as_str()),
            None => match &self.shasum {
                Some(raw) => Integrity::from_shasum_hex(raw.as_str()),
                None => Err(IntegrityError::Missing),
            },
        };
        proof {
            let reading = result_view(read);
            assert(dist_reading(self.deep_view(), reading));
            dist_reading_is_unique(self.deep_view(), reading, dist_integrity(self.deep_view()));
        }
        read
    }
}

/// The part of a version's manifest that matters here.
///
/// There is no field for `devDependencies`: those of a dependency must never
/// be followed.
#[derive(Debug)]
pub struct VersionMetadata {
    pub name: String,
    pub version: String,
    pub dist: Dist,
    pub dependencies: SortedMap<String, String>,
    pub optional_dependencies: SortedMap<String, String>,
    pub os: Vec<String>,
    pub cpu: Vec<String>,
    pub peer_dependencies: SortedMap<String, String>,
    pub peer_dependencies_meta: SortedMap<String, PeerMeta>,
    pub bin: Option<Declared>,
}

/// What a [`VersionMetadata`] means.
pub struct MetadataModel {
    pub name: Seq<char>,
    pub version: Seq<char>,
    pub dist: DistModel,
    pub dependencies: Map<Seq<char>, Seq<char>>,
    pub optional_dependencies: Map<Seq<char>, Seq<char>>,
    pub os: Seq<Seq<char>>,
    pub cpu: Seq<Seq<char>>,
    pub peer_dependencies: Map<Seq<char>, Seq<char>>,
    pub peer_dependencies_meta: Map<Seq<char>, bool>,
    pub bin: Option<DeclaredBins>,
}

impl DeepView for VersionMetadata {
    type V = MetadataModel;

    open spec fn deep_view(&self) -> MetadataModel {
        MetadataModel {
            name: self.name@,
            version: self.version@,
            dist: self.dist.deep_view(),
            dependencies: self.dependencies.deep_view(),
            optional_dependencies: self.optional_dependencies.deep_view(),
            os: self.os.deep_view(),
            cpu: self.cpu.deep_view(),
            peer_dependencies: self.peer_dependencies.deep_view(),
            peer_dependencies_meta: self.peer_dependencies_meta.deep_view(),
            bin: self.bin.deep_view(),
        }
    }
}

impl Duplicate for VersionMetadata {
    fn duplicate(&self) -> (copy: Self) {
        VersionMetadata {
            name: self.name.clone(),
            version: self.version.clone(),
            dist: self.dist.duplicate(),
            dependencies: self.dependencies.duplicate(),
            optional_dependencies: self.optional_dependencies.duplicate(),
            os: self.os.duplicate(),
            cpu: self.cpu.duplicate(),
            peer_dependencies: self.peer_dependencies.duplicate(),
            peer_dependencies_meta: self.peer_dependencies_meta.duplicate(),
            bin: self.bin.duplicate(),
        }
    }
}

/// The entry points a published version ends up with.
pub open spec fn metadata_bins(metadata: MetadataModel) -> Map<Seq<char>, Seq<char>> {
    match metadata.bin {
        Some(declared) => bins_of(declared, metadata.name),
        None => Map::empty(),
    }
}

impl VersionMetadata {
    /// The entry points this version publishes, the unusable ones dropped.
    pub fn bins(&self) -> (bins: Bins)
        ensures
            bins.deep_view() == metadata_bins(self.deep_view()),
    {
        match &self.bin {
            Some(declared) => declared.named_for(self.name.as_str()),
            None => SortedMap::new(),
        }
    }
}

/// Every published version of one package.
#[derive(Debug)]
pub struct Packument {
    pub name: String,
    pub versions: SortedMap<String, VersionMetadata>,
    pub dist_tags: SortedMap<String, String>,
}

/// What a [`Packument`] means.
pub struct PackumentModel {
    pub name: Seq<char>,
    pub versions: Map<Seq<char>, MetadataModel>,
    pub dist_tags: Map<Seq<char>, Seq<char>>,
}

impl DeepView for Packument {
    type V = PackumentModel;

    open spec fn deep_view(&self) -> PackumentModel {
        PackumentModel {
            name: self.name@,
            versions: self.versions.deep_view(),
            dist_tags: self.dist_tags.deep_view(),
        }
    }
}

impl Duplicate for Packument {
    fn duplicate(&self) -> (copy: Self) {
        Packument {
            name: self.name.clone(),
            versions: self.versions.duplicate(),
            dist_tags: self.dist_tags.duplicate(),
        }
    }
}

/// Is a packument one that can be written down: finitely many versions, each
/// with finitely many edges?
pub open spec fn is_writable(packument: PackumentModel) -> bool {
    &&& packument.versions.dom().finite()
    &&& forall|version: Seq<char>| #[trigger]
        packument.versions.contains_key(version) ==> {
            &&& packument.versions[version].dependencies.dom().finite()
            &&& packument.versions[version].optional_dependencies.dom().finite()
        }
}

/// Every packument can be written down.
pub proof fn packuments_are_writable(packument: &Packument)
    ensures
        is_writable(packument.deep_view()),
{
    let versions = packument.versions.deep_view();
    packument.versions.is_finite();
    assert forall|version: Seq<char>| #[trigger] versions.contains_key(version) implies
        versions[version].dependencies.dom().finite()
        && versions[version].optional_dependencies.dom().finite() by {
        let metadata = packument.versions.held_under(version);
        assert(versions[version] == metadata.deep_view());
        metadata.dependencies.is_finite();
        metadata.optional_dependencies.is_finite();
    }
}

/// The published versions that parse, lowest first.
pub open spec fn published_versions(published: Set<Seq<char>>) -> Seq<Seq<char>> {
    in_order::<Version>(published.filter(|v: Seq<char>| version_parses(v)))
}

impl Packument {
    /// Every version that parses, in precedence order. One that does not is
    /// dropped: a malformed entry must not make a package unresolvable.
    pub fn versions_sorted(&self) -> (sorted: Vec<Version>)
        ensures
            sorted.deep_view() == published_versions(self.versions.deep_view().dom()),
            sorted.deep_view().to_set() == self.versions.deep_view().dom().filter(
                |v: Seq<char>| version_parses(v),
            ),
    {
        let mut ordered: SortedSet<Version> = SortedSet::new();
        let n: usize = self.versions.len();
        let ghost names = self.versions.keys();
        let ghost parses = |v: Seq<char>| version_parses(v);
        assert(names.take(0).to_set().filter(parses) =~= Set::<Seq<char>>::empty());
        let mut i: usize = 0;
        while i < n
            invariant
                i <= n == names.len(),
                names == self.versions.keys(),
                parses == (|v: Seq<char>| version_parses(v)),
                ordered.deep_view() == names.take(i as int).to_set().filter(parses),
            decreases n - i,
        {
            proof {
                take_one_more(names, i as int);
                let before = names.take(i as int);
                let after = names.take(i + 1);
                if version_parses(names[i as int]) {
                    assert(after.to_set().filter(parses) =~= before.to_set().filter(parses).insert(
                        names[i as int],
                    ));
                } else {
                    assert(after.to_set().filter(parses) =~= before.to_set().filter(parses));
                }
            }
            if let Ok(version) = Version::parse(self.versions.key_at(i).as_str()) {
                ordered.insert(version);
            }
            i = i + 1;
        }
        assert(names.take(n as int) =~= names);
        ordered.into_list()
    }

    /// Resolve a dist-tag such as `latest` to a concrete version.
    pub fn resolve_tag(&self, tag: &str) -> (version: Option<&str>)
        ensures
            match version {
                Some(version) => self.dist_tags.deep_view().contains_key(tag@) && version@
                    == self.dist_tags.deep_view()[tag@],
                None => !self.dist_tags.deep_view().contains_key(tag@),
            },
    {
        match self.dist_tags.named(tag) {
            Some(version) => Some(version.as_str()),
            None => None,
        }
    }
}

/// How current an answer has to be.
#[derive(Debug, Clone, Copy, PartialEq, Eq, Structural)]
pub enum Freshness {
    /// A copy inside its freshness window may answer.
    MayBeCached,
    /// The registry must be asked, if only whether the copy is current.
    MustBeCurrent,
}

/// What a conditional fetch came back with.
#[derive(Debug)]
pub enum Fetched {
    /// The caller's copy is current.
    NotModified,
    Body { packument: Box<Packument>, etag: Option<String> },
}

/// What a [`Fetched`] means.
pub enum FetchedModel {
    NotModified,
    Body { packument: PackumentModel, etag: Option<Seq<char>> },
}

impl DeepView for Fetched {
    type V = FetchedModel;

    open spec fn deep_view(&self) -> FetchedModel {
        match self {
            Fetched::NotModified => FetchedModel::NotModified,
            Fetched::Body { packument, etag } => FetchedModel::Body {
                packument: packument.deep_view(),
                etag: etag.deep_view(),
            },
        }
    }
}

/// The meaning of a result, from the meanings of its two sides.
pub open spec fn result_view<T: DeepView, E: DeepView>(result: Result<T, E>) -> Result<T::V, E::V> {
    match result {
        Ok(value) => Ok(value.deep_view()),
        Err(error) => Err(error.deep_view()),
    }
}

/// Where a tarball is.
pub type Address = Seq<char>;

/// The bytes that were fetched, or why none were.
pub type Download = Result<Seq<u8>, RegistryFault>;

/// What fetching some bytes came to.
pub open spec fn bytes_view(fetched: Result<Vec<u8>, RegistryError>) -> Download {
    match fetched {
        Ok(bytes) => Ok(bytes@),
        Err(error) => Err(error.deep_view()),
    }
}

/// A package, and how current the answer about it has to be.
pub struct RequestModel {
    pub name: Seq<char>,
    pub must_be_current: bool,
}

/// An answer to a request for a packument.
pub type Answer = Result<PackumentModel, RegistryFault>;

/// Everything needed from a package registry.
///
/// A trait so that what is built on it can be driven by a registry that lives
/// in memory.
pub trait RegistryClient: Sized {
    /// Is this an answer that the client may give to a request? What a client
    /// may answer never grows while it is being asked.
    spec fn may_answer(&self, request: RequestModel, answer: Answer) -> bool;

    /// Is this what the client may come back with from a tarball's address?
    spec fn may_fetch(&self, url: Address, fetched: Download) -> bool;

    /// Fetch one version's manifest. `version` may be a concrete version or a
    /// dist-tag such as `latest`.
    fn version_metadata(&mut self, name: &str, version: &str) -> (metadata: Result<
        VersionMetadata,
        RegistryError,
    >)
        ensures
            forall|r: RequestModel, a: Answer| #[trigger]
                final(self).may_answer(r, a) ==> old(self).may_answer(r, a),
    ;

    /// Every published version of a package, unless the copy that the caller
    /// has the ETag of is current. Without an ETag the answer is a body.
    fn packument_conditional(&mut self, name: &str, etag: Option<&str>) -> (fetched: Result<
        Fetched,
        RegistryError,
    >)
        ensures
            forall|r: RequestModel, a: Answer| #[trigger]
                final(self).may_answer(r, a) ==> old(self).may_answer(r, a),
    ;

    /// Every published version of a package.
    fn packument(&mut self, name: &str, freshness: Freshness) -> (packument: Result<
        Packument,
        RegistryError,
    >)
        ensures
            old(self).may_answer(
                (RequestModel { name: name@, must_be_current: freshness is MustBeCurrent }),
                result_view(packument),
            ),
            forall|r: RequestModel, a: Answer| #[trigger]
                final(self).may_answer(r, a) ==> old(self).may_answer(r, a),
    ;

    /// The bytes at a tarball's address.
    fn fetch_tarball(&mut self, url: &str) -> (bytes: Result<Vec<u8>, RegistryError>)
        ensures
            old(self).may_fetch(url@, bytes_view(bytes)),
            forall|r: RequestModel, a: Answer| #[trigger]
                final(self).may_answer(r, a) ==> old(self).may_answer(r, a),
    ;
}

/// What an unconditional fetch amounts to. A registry that answers it with
/// "not modified" is misbehaving, and is reported rather than trusted.
pub open spec fn unconditional(name: Seq<char>, fetched: Result<FetchedModel, RegistryFault>) -> Answer {
    match fetched {
        Ok(FetchedModel::Body { packument, .. }) => Ok(packument),
        Ok(FetchedModel::NotModified) => Err(
            RegistryFault::MalformedResponse {
                url: name,
                source: "the registry answered 304 to an unconditional request"@,
            },
        ),
        Err(fault) => Err(fault),
    }
}

/// What a client with nothing stored answers: whatever an unconditional fetch
/// came back with, however current the answer has to be.
pub fn packument_of(name: &str, fetched: Result<Fetched, RegistryError>) -> (packument: Result<
    Packument,
    RegistryError,
>)
    ensures
        result_view(packument) == unconditional(name@, result_view(fetched)),
{
    match fetched {
        Ok(Fetched::Body { packument, etag: _ }) => Ok(*packument),
        Ok(Fetched::NotModified) => Err(
            RegistryError::MalformedResponse {
                url: name.to_owned(),
                source: "the registry answered 304 to an unconditional request".to_owned(),
            },
        ),
        Err(error) => Err(error),
    }
}

} // verus!
