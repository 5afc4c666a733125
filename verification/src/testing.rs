//! A registry that lives in memory, for tests.

use vstd::prelude::*;
use vstd::string::*;
use vstd::utf8::*;
use crate::binaries::{Declared, DeclaredBins};
use crate::gates::{
    count_up, met_alone, names_in, new_rendezvous, one_more, waited_alone, Handshake,
    HandshakeModel, InFlight, Rendezvous, RendezvousModel,
};
use crate::integrity::{
    duplicate_bytes, sha512, sha512_of, ssri_of, Algo, Integrity, IntegrityModel,
};
use crate::order::Duplicate;
use crate::range::has_prerelease;
use crate::registry::{
    bytes_view, published_versions, result_view, Address, Answer, Dist, DistModel, Download,
    Fetched, FetchedModel, Freshness, MetadataModel, Packument, PackumentModel, PeerMeta,
    RegistryClient, RegistryError, RegistryFault, RequestModel, VersionMetadata,
};
use crate::sorted::{in_order, SortedMap};
use crate::tarball::{build_tarball, recorded_as, tarball_bytes, TarEntry, NO_FLAG};
use crate::text::same;

verus! {

/// What the three bytes `abc` hash to, as a registry reports it.
pub const ABC_SHA512_SSRI: &'static str =
    "sha512-3a81oZNherrMQXNJriBBMRLm+k6JqX6iCp7u5ktV05ohkpkqJ0/BqDa6PCOj/uu9RU1EI2Q86A4qmslPpUyknw==";

/// One version of a package: its number, and the dependencies it declares.
pub type FixtureVersion<'a> = (&'a str, &'a [(&'a str, &'a str)]);

/// A package name, a version of it, and the dependencies that declares.
pub type FixtureEntry<'a> = (&'a str, &'a str, &'a [(&'a str, &'a str)]);

/// An in-memory registry that counts its calls.
#[derive(Debug)]
pub struct FixtureRegistry {
    versions: SortedMap<(String, String), VersionMetadata>,
    /// What every request sees, unless the name also has a current view.
    packuments: SortedMap<String, Packument>,
    /// What a request that has to be current sees, for names that have one.
    current: SortedMap<String, Packument>,
    tarballs: SortedMap<String, Vec<u8>>,
    metadata_calls: usize,
    tarball_calls: usize,
    tarball_calls_by_name: SortedMap<String, usize>,
    packument_calls: SortedMap<String, usize>,
    tarball_rendezvous: Option<Rendezvous>,
    packument_rendezvous: Option<Rendezvous>,
    packument_handshake: Option<Handshake>,
    tarballs_peak: usize,
    packuments_peak: usize,
}

/// What a [`FixtureRegistry`] means.
pub struct FixtureModel {
    pub versions: Map<(Seq<char>, Seq<char>), MetadataModel>,
    pub packuments: Map<Seq<char>, PackumentModel>,
    pub current: Map<Seq<char>, PackumentModel>,
    pub tarballs: Map<Seq<char>, Seq<u8>>,
    pub metadata_calls: usize,
    pub tarball_calls: usize,
    pub tarball_calls_by_name: Map<Seq<char>, usize>,
    pub packument_calls: Map<Seq<char>, usize>,
    pub tarball_rendezvous: Option<RendezvousModel>,
    pub packument_rendezvous: Option<RendezvousModel>,
    pub packument_handshake: Option<HandshakeModel>,
    pub tarballs_peak: usize,
    pub packuments_peak: usize,
}

impl DeepView for FixtureRegistry {
    type V = FixtureModel;

    closed spec fn deep_view(&self) -> FixtureModel {
        FixtureModel {
            versions: self.versions.deep_view(),
            packuments: self.packuments.deep_view(),
            current: self.current.deep_view(),
            tarballs: self.tarballs.deep_view(),
            metadata_calls: self.metadata_calls,
            tarball_calls: self.tarball_calls,
            tarball_calls_by_name: self.tarball_calls_by_name.deep_view(),
            packument_calls: self.packument_calls.deep_view(),
            tarball_rendezvous: self.tarball_rendezvous.deep_view(),
            packument_rendezvous: self.packument_rendezvous.deep_view(),
            packument_handshake: self.packument_handshake.deep_view(),
            tarballs_peak: self.tarballs_peak,
            packuments_peak: self.packuments_peak,
        }
    }
}

/// A registry that holds nothing and was never asked.
pub open spec fn empty_fixture() -> FixtureModel {
    FixtureModel {
        versions: Map::empty(),
        packuments: Map::empty(),
        current: Map::empty(),
        tarballs: Map::empty(),
        metadata_calls: 0,
        tarball_calls: 0,
        tarball_calls_by_name: Map::empty(),
        packument_calls: Map::empty(),
        tarball_rendezvous: None,
        packument_rendezvous: None,
        packument_handshake: None,
        tarballs_peak: 0,
        packuments_peak: 0,
    }
}

/// Where the tarball of a version is.
pub open spec fn fixture_url(name: Seq<char>, version: Seq<char>) -> Seq<char> {
    "https://fixture.test/"@ + name + "/-/"@ + name + "-"@ + version + ".tgz"@
}

fn url_for(name: &str, version: &str) -> (url: String)
    ensures
        url@ == fixture_url(name@, version@),
{
    let mut url = "https://fixture.test/".to_owned();
    url.append(name);
    url.append("/-/");
    url.append(name);
    url.append("-");
    url.append(version);
    url.append(".tgz");
    url
}

/// Some pairs as a map, in which the later of two under one name counts.
pub open spec fn pairs_in(pairs: Seq<(&str, &str)>) -> Map<Seq<char>, Seq<char>> {
    pairs_onto(Map::empty(), pairs)
}

/// Some pairs put into a map, one after the other.
pub open spec fn pairs_onto(
    before: Map<Seq<char>, Seq<char>>,
    pairs: Seq<(&str, &str)>,
) -> Map<Seq<char>, Seq<char>>
    decreases pairs.len(),
{
    if pairs.len() == 0 {
        before
    } else {
        pairs_onto(before, pairs.drop_last()).insert(pairs.last().0@, pairs.last().1@)
    }
}

fn put_pairs(map: &mut SortedMap<String, String>, pairs: &[(&str, &str)])
    ensures
        final(map).deep_view() == pairs_onto(old(map).deep_view(), pairs@),
{
    let ghost before = map.deep_view();
    let mut i: usize = 0;
    while i < pairs.len()
        invariant
            i <= pairs@.len(),
            map.deep_view() == pairs_onto(before, pairs@.take(i as int)),
        decreases pairs.len() - i,
    {
        assert(pairs@.take(i + 1).drop_last() =~= pairs@.take(i as int));
        map.insert(pairs[i].0.to_owned(), pairs[i].1.to_owned());
        i = i + 1;
    }
    assert(pairs@.take(pairs@.len() as int) =~= pairs@);
}

/// What is published of a version with a tarball that hashes to a digest.
pub open spec fn fixture_metadata(
    name: Seq<char>,
    version: Seq<char>,
    digest: Seq<u8>,
    dependencies: Map<Seq<char>, Seq<char>>,
) -> MetadataModel {
    MetadataModel {
        name,
        version,
        dist: DistModel {
            tarball: fixture_url(name, version),
            integrity: Some(ssri_of(IntegrityModel { algo: Algo::Sha512, digest })),
            shasum: None,
        },
        dependencies,
        optional_dependencies: Map::empty(),
        os: seq![],
        cpu: seq![],
        peer_dependencies: Map::empty(),
        peer_dependencies_meta: Map::empty(),
        bin: None,
    }
}

fn metadata_for(name: &str, version: &str, bytes: &[u8], dependencies: SortedMap<String, String>)
    -> (metadata: VersionMetadata)
    ensures
        metadata.deep_view() == fixture_metadata(
            name@,
            version@,
            sha512_of(bytes@),
            dependencies.deep_view(),
        ),
{
    let integrity = Integrity { algo: Algo::Sha512, digest: sha512(bytes) };
    let os: Vec<String> = Vec::new();
    let cpu: Vec<String> = Vec::new();
    assert(os.deep_view() =~= seq![]);
    assert(cpu.deep_view() =~= seq![]);
    VersionMetadata {
        name: name.to_owned(),
        version: version.to_owned(),
        dist: Dist {
            tarball: url_for(name, version),
            integrity: Some(integrity.to_ssri()),
            shasum: None,
        },
        dependencies,
        optional_dependencies: SortedMap::new(),
        os,
        cpu,
        peer_dependencies: SortedMap::new(),
        peer_dependencies_meta: SortedMap::new(),
        bin: None,
    }
}

/// The highest of some versions that is no prerelease.
pub open spec fn highest_stable(sorted: Seq<Seq<char>>) -> Option<Seq<char>>
    decreases sorted.len(),
{
    if sorted.len() == 0 {
        None
    } else if has_prerelease(sorted.last()) {
        highest_stable(sorted.drop_last())
    } else {
        Some(sorted.last())
    }
}

/// The version that is the latest of some: the highest that is no prerelease,
/// the highest of all if there is none such, and the one given if none parses.
pub open spec fn latest_among(sorted: Seq<Seq<char>>, otherwise: Seq<char>) -> Seq<char> {
    match highest_stable(sorted) {
        Some(version) => version,
        None => if sorted.len() > 0 {
            sorted.last()
        } else {
            otherwise
        },
    }
}

/// The version that is the latest of those published.
pub open spec fn latest_of(published: Set<Seq<char>>, otherwise: Seq<char>) -> Seq<char> {
    latest_among(published_versions(published), otherwise)
}

proof fn latest_is_one_of(sorted: Seq<Seq<char>>, otherwise: Seq<char>)
    ensures
        sorted.contains(latest_among(sorted, otherwise)) || latest_among(sorted, otherwise)
            == otherwise,
    decreases sorted.len(),
{
    if sorted.len() > 0 {
        assert(sorted.contains(sorted.last()));
        let shorter = sorted.drop_last();
        latest_is_one_of(shorter, otherwise);
        if highest_stable(shorter) is Some && has_prerelease(sorted.last()) {
            stable_is_one_of(shorter);
            let version = highest_stable(shorter)->0;
            let k = shorter.index_of(version);
            assert(sorted[k] == version);
        }
    }
}

proof fn stable_is_one_of(sorted: Seq<Seq<char>>)
    ensures
        match highest_stable(sorted) {
            Some(version) => sorted.contains(version),
            None => true,
        },
    decreases sorted.len(),
{
    if sorted.len() > 0 {
        stable_is_one_of(sorted.drop_last());
        assert(sorted.contains(sorted.last()));
        if let Some(version) = highest_stable(sorted.drop_last()) {
            let k = sorted.drop_last().index_of(version);
            assert(sorted[k] == version);
        }
    }
}

fn latest_in(packument: &Packument, otherwise: &str) -> (version: String)
    ensures
        version@ == latest_of(packument.deep_view().versions.dom(), otherwise@),
        packument.deep_view().versions.contains_key(version@) || version@ == otherwise@,
{
    let sorted = packument.versions_sorted();
    let ghost all = sorted.deep_view();
    proof {
        latest_is_one_of(all, otherwise@);
        let chosen = latest_among(all, otherwise@);
        if all.contains(chosen) {
            assert(all.to_set().contains(chosen));
        }
    }
    let mut i: usize = sorted.len();
    assert(all.take(all.len() as int) =~= all);
    while i > 0
        invariant
            i <= sorted@.len(),
            all == sorted.deep_view(),
            highest_stable(all) == highest_stable(all.take(i as int)),
            all == published_versions(packument.deep_view().versions.dom()),
            packument.deep_view().versions.contains_key(latest_among(all, otherwise@))
                || latest_among(all, otherwise@) == otherwise@,
        decreases i,
    {
        let candidate = &sorted[i - 1];
        assert(all[i - 1] == sorted@[i - 1].deep_view());
        assert(all.take(i as int).last() == all[i - 1]);
        assert(all.take(i as int).drop_last() =~= all.take(i - 1));
        if !candidate.is_prerelease() {
            return candidate.as_str().to_owned();
        }
        i = i - 1;
    }
    let n: usize = sorted.len();
    if n > 0 {
        assert(all.last() == sorted@[n - 1].deep_view());
        sorted[n - 1].as_str().to_owned()
    } else {
        otherwise.to_owned()
    }
}

/// What is published of a package, if anything, and else a blank.
pub open spec fn packument_in(packuments: Map<Seq<char>, PackumentModel>, name: Seq<char>) -> PackumentModel {
    if packuments.contains_key(name) {
        packuments[name]
    } else {
        PackumentModel { name, versions: Map::empty(), dist_tags: Map::empty() }
    }
}

/// A version published with others. The latest is the highest version there
/// is, and not the one published last.
pub open spec fn published_onto(
    packument: PackumentModel,
    version: Seq<char>,
    metadata: MetadataModel,
) -> PackumentModel {
    let versions = packument.versions.insert(version, metadata);
    PackumentModel {
        versions,
        dist_tags: packument.dist_tags.insert(
            "latest"@,
            latest_of(versions.dom(), version),
        ),
        ..packument
    }
}

/// A version registered, by itself and with the others of its package.
pub open spec fn registered(
    fixture: FixtureModel,
    name: Seq<char>,
    version: Seq<char>,
    metadata: MetadataModel,
) -> FixtureModel {
    let packument = published_onto(packument_in(fixture.packuments, name), version, metadata);
    FixtureModel {
        versions: fixture.versions.insert((name, version), metadata).insert(
            (name, "latest"@),
            packument.versions[packument.dist_tags["latest"@]],
        ),
        packuments: fixture.packuments.insert(name, packument),
        ..fixture
    }
}

/// A version registered with the bytes of its tarball.
pub open spec fn with_version(
    fixture: FixtureModel,
    metadata: MetadataModel,
    tarball: Seq<u8>,
) -> FixtureModel {
    registered(
        FixtureModel {
            tarballs: fixture.tarballs.insert(metadata.dist.tarball, tarball),
            ..fixture
        },
        metadata.name,
        metadata.version,
        metadata,
    )
}

/// The manifest that the tarball of a version holds.
pub open spec fn manifest_text(name: Seq<char>, version: Seq<char>) -> Seq<char> {
    "{\"name\":\""@ + name + "\",\"version\":\""@ + version + "\"}"@
}

/// The bytes of the tarball of a version.
pub open spec fn version_tarball(name: Seq<char>, version: Seq<char>) -> Seq<u8> {
    tarball_bytes(
        seq![
            recorded_as(
                "package/package.json"@,
                NO_FLAG,
                0o644,
                encode_utf8(manifest_text(name, version)),
            ),
        ],
    )
}

/// What is published of a version whose tarball holds its manifest.
pub open spec fn version_metadata_of(
    name: Seq<char>,
    version: Seq<char>,
    dependencies: Map<Seq<char>, Seq<char>>,
) -> MetadataModel {
    fixture_metadata(name, version, sha512_of(version_tarball(name, version)), dependencies)
}

/// Some versions of a package registered, one after the other.
pub open spec fn with_versions(
    fixture: FixtureModel,
    name: Seq<char>,
    versions: Seq<FixtureVersion>,
) -> FixtureModel
    decreases versions.len(),
{
    if versions.len() == 0 {
        fixture
    } else {
        let version = versions.last().0@;
        with_version(
            with_versions(fixture, name, versions.drop_last()),
            version_metadata_of(name, version, pairs_in(versions.last().1@)),
            version_tarball(name, version),
        )
    }
}

/// Some versions of packages registered, one after the other.
pub open spec fn with_entries(fixture: FixtureModel, entries: Seq<FixtureEntry>) -> FixtureModel
    decreases entries.len(),
{
    if entries.len() == 0 {
        fixture
    } else {
        let (name, version, dependencies) = entries.last();
        with_version(
            with_entries(fixture, entries.drop_last()),
            version_metadata_of(name@, version@, pairs_in(dependencies@)),
            version_tarball(name@, version@),
        )
    }
}

/// A peer, the range of it that is wanted, and whether it may be absent.
pub type FixturePeer<'a> = (&'a str, &'a str, bool);

/// Some peers declared on a version, one after the other.
pub open spec fn with_peers(metadata: MetadataModel, peers: Seq<FixturePeer>) -> MetadataModel
    decreases peers.len(),
{
    if peers.len() == 0 {
        metadata
    } else {
        let before = with_peers(metadata, peers.drop_last());
        let (peer, range, optional) = peers.last();
        MetadataModel {
            peer_dependencies: before.peer_dependencies.insert(peer@, range@),
            peer_dependencies_meta: if optional {
                before.peer_dependencies_meta.insert(peer@, true)
            } else {
                before.peer_dependencies_meta
            },
            ..before
        }
    }
}

/// Some texts.
pub open spec fn texts_in(texts: Seq<&str>) -> Seq<Seq<char>> {
    texts.map_values(|text: &str| text@)
}

/// A change to what is published of a version.
#[derive(Debug, Clone, Copy)]
pub enum Edit<'a> {
    /// Declare peers.
    Peers(&'a [FixturePeer<'a>]),
    /// Declare optional dependencies.
    Optional(&'a [(&'a str, &'a str)]),
    /// Declare the machines it runs on.
    Machines { os: &'a [&'a str], cpu: &'a [&'a str] },
    /// Declare entry points.
    Bins(&'a [(&'a str, &'a str)]),
}

/// What is published of a version after a change.
pub open spec fn edited(metadata: MetadataModel, edit: Edit) -> MetadataModel {
    match edit {
        Edit::Peers(peers) => with_peers(metadata, peers@),
        Edit::Optional(optional) => MetadataModel {
            optional_dependencies: pairs_onto(metadata.optional_dependencies, optional@),
            ..metadata
        },
        Edit::Machines { os, cpu } => MetadataModel {
            os: texts_in(os@),
            cpu: texts_in(cpu@),
            ..metadata
        },
        Edit::Bins(bins) => MetadataModel {
            bin: Some(DeclaredBins::Many(pairs_in(bins@))),
            ..metadata
        },
    }
}

fn collect_texts(texts: &[&str]) -> (list: Vec<String>)
    ensures
        list.deep_view() == texts_in(texts@),
{
    let mut list: Vec<String> = Vec::new();
    let mut i: usize = 0;
    while i < texts.len()
        invariant
            i <= texts@.len(),
            list@.len() == i,
            forall|j: int| 0 <= j < i ==> (#[trigger] list@[j])@ == texts@[j]@,
        decreases texts.len() - i,
    {
        list.push(texts[i].to_owned());
        i = i + 1;
    }
    assert(list.deep_view() =~= texts_in(texts@));
    list
}

fn apply(edit: &Edit<'_>, metadata: VersionMetadata) -> (changed: VersionMetadata)
    ensures
        changed.deep_view() == edited(metadata.deep_view(), *edit),
{
    let ghost before = metadata.deep_view();
    let mut changed = metadata;
    match edit {
        Edit::Peers(peers) => {
            let mut i: usize = 0;
            while i < peers.len()
                invariant
                    i <= peers@.len(),
                    changed.deep_view() == with_peers(before, peers@.take(i as int)),
                decreases peers.len() - i,
            {
                assert(peers@.take(i + 1).drop_last() =~= peers@.take(i as int));
                let (peer, range, optional) = peers[i];
                changed.peer_dependencies.insert(peer.to_owned(), range.to_owned());
                if optional {
                    changed.peer_dependencies_meta.insert(
                        peer.to_owned(),
                        PeerMeta { optional: true },
                    );
                }
                i = i + 1;
            }
            assert(peers@.take(peers@.len() as int) =~= peers@);
        },
        Edit::Optional(optional) => {
            put_pairs(&mut changed.optional_dependencies, optional);
        },
        Edit::Machines { os, cpu } => {
            changed.os = collect_texts(os);
            changed.cpu = collect_texts(cpu);
        },
        Edit::Bins(bins) => {
            let mut map: SortedMap<String, String> = SortedMap::new();
            put_pairs(&mut map, bins);
            changed.bin = Some(Declared::Many(map));
        },
    }
    changed
}

/// Is a version registered, by itself and with the others of its package?
pub open spec fn is_registered(fixture: FixtureModel, name: Seq<char>, version: Seq<char>) -> bool {
    &&& fixture.versions.contains_key((name, version))
    &&& fixture.packuments.contains_key(name)
    &&& fixture.packuments[name].versions.contains_key(version)
}

/// A version changed in every place that it is held.
pub open spec fn amended(
    fixture: FixtureModel,
    name: Seq<char>,
    version: Seq<char>,
    edit: Edit,
) -> FixtureModel {
    let alone = edited(fixture.versions[(name, version)], edit);
    let before = fixture.packuments[name];
    let among = edited(before.versions[version], edit);
    let versions = fixture.versions.insert((name, version), alone);
    FixtureModel {
        versions: if before.dist_tags.contains_key("latest"@) && before.dist_tags["latest"@]
            == version {
            versions.insert((name, "latest"@), among)
        } else {
            versions
        },
        packuments: fixture.packuments.insert(
            name,
            PackumentModel { versions: before.versions.insert(version, among), ..before },
        ),
        ..fixture
    }
}

/// What a request that has to be current sees of a package.
pub open spec fn current_view(fixture: FixtureModel, name: Seq<char>) -> Option<PackumentModel> {
    if fixture.current.contains_key(name) {
        Some(fixture.current[name])
    } else if fixture.packuments.contains_key(name) {
        Some(fixture.packuments[name])
    } else {
        None
    }
}

/// What a fixture answers to a request.
pub open spec fn answer_in(fixture: FixtureModel, request: RequestModel) -> Answer {
    let view = if request.must_be_current {
        current_view(fixture, request.name)
    } else if fixture.packuments.contains_key(request.name) {
        Some(fixture.packuments[request.name])
    } else {
        None
    };
    match view {
        Some(packument) => Ok(packument),
        None => Err(RegistryFault::PackageNotFound(request.name)),
    }
}

/// A count of calls by name, with one more for a name.
pub open spec fn counted(calls: Map<Seq<char>, usize>, name: Seq<char>) -> Map<Seq<char>, usize> {
    calls.insert(
        name,
        one_more(
            if calls.contains_key(name) {
                calls[name]
            } else {
                0
            },
        ),
    )
}

fn count_call(calls: &mut SortedMap<String, usize>, name: &str)
    ensures
        final(calls).deep_view() == counted(old(calls).deep_view(), name@),
{
    let so_far: usize = match calls.named(name) {
        Some(n) => *n,
        None => 0,
    };
    calls.insert(name.to_owned(), count_up(so_far));
}

/// The most calls there were at once, after one more came on its own.
pub open spec fn peaked(peak: usize) -> usize {
    if peak > 0 {
        peak
    } else {
        1
    }
}

fn note_peak(peak: usize) -> (now: usize)
    ensures
        now == peaked(peak),
{
    let mut flying = InFlight { current: 0, peak };
    flying.enter();
    flying.leave();
    flying.peak
}

/// A fixture that was asked for a packument.
pub open spec fn after_packument(fixture: FixtureModel, name: Seq<char>) -> FixtureModel {
    FixtureModel {
        packument_calls: counted(fixture.packument_calls, name),
        packuments_peak: peaked(fixture.packuments_peak),
        packument_rendezvous: match fixture.packument_rendezvous {
            Some(gate) => if gate.only is None || (gate.only->0).contains(name) {
                Some(met_alone(gate))
            } else {
                Some(gate)
            },
            None => None,
        },
        packument_handshake: match fixture.packument_handshake {
            Some(gate) => Some(waited_alone(gate, name)),
            None => None,
        },
        ..fixture
    }
}

/// The package that a tarball belongs to, among some registered versions.
pub open spec fn owner_among(
    fixture: FixtureModel,
    keys: Seq<(Seq<char>, Seq<char>)>,
    url: Seq<char>,
) -> Option<Seq<char>>
    decreases keys.len(),
{
    if keys.len() == 0 {
        None
    } else {
        match owner_among(fixture, keys.drop_last(), url) {
            Some(name) => Some(name),
            None => if fixture.versions[keys.last()].dist.tarball == url {
                Some(fixture.versions[keys.last()].name)
            } else {
                None
            },
        }
    }
}

/// The package that a tarball belongs to.
pub open spec fn owner_of(fixture: FixtureModel, url: Seq<char>) -> Option<Seq<char>> {
    owner_among(fixture, in_order::<(String, String)>(fixture.versions.dom()), url)
}

/// A fixture that was asked for a tarball.
pub open spec fn after_tarball(fixture: FixtureModel, url: Seq<char>) -> FixtureModel {
    FixtureModel {
        tarball_calls: one_more(fixture.tarball_calls),
        tarball_calls_by_name: match owner_of(fixture, url) {
            Some(name) => counted(fixture.tarball_calls_by_name, name),
            None => fixture.tarball_calls_by_name,
        },
        tarballs_peak: peaked(fixture.tarballs_peak),
        tarball_rendezvous: match fixture.tarball_rendezvous {
            Some(gate) => Some(met_alone(gate)),
            None => None,
        },
        packument_handshake: match fixture.packument_handshake {
            Some(gate) => Some(HandshakeModel { open: true, ..gate }),
            None => None,
        },
        ..fixture
    }
}

/// What a fixture answers about one version.
pub open spec fn metadata_in(fixture: FixtureModel, name: Seq<char>, version: Seq<char>) -> Result<
    MetadataModel,
    RegistryFault,
> {
    if fixture.versions.contains_key((name, version)) {
        Ok(fixture.versions[(name, version)])
    } else if knows(fixture.versions, name) {
        Err(RegistryFault::VersionNotFound { name, version })
    } else {
        Err(RegistryFault::PackageNotFound(name))
    }
}

/// Is any version of a package registered?
pub open spec fn knows(
    versions: Map<(Seq<char>, Seq<char>), MetadataModel>,
    name: Seq<char>,
) -> bool {
    exists|version: Seq<char>| #[trigger] versions.contains_key((name, version))
}

/// What some counts come to.
pub open spec fn total(calls: Map<Seq<char>, usize>, names: Seq<Seq<char>>) -> nat
    decreases names.len(),
{
    if names.len() == 0 {
        0
    } else {
        total(calls, names.drop_last()) + calls[names.last()] as nat
    }
}

impl FixtureRegistry {
    /// A registry that holds nothing.
    pub fn new() -> (fixture: Self)
        ensures
            fixture.deep_view() == empty_fixture(),
    {
        FixtureRegistry {
            versions: SortedMap::new(),
            packuments: SortedMap::new(),
            current: SortedMap::new(),
            tarballs: SortedMap::new(),
            metadata_calls: 0,
            tarball_calls: 0,
            tarball_calls_by_name: SortedMap::new(),
            packument_calls: SortedMap::new(),
            tarball_rendezvous: None,
            packument_rendezvous: None,
            packument_handshake: None,
            tarballs_peak: 0,
            packuments_peak: 0,
        }
    }

    /// Record one version, by itself and with the others of its package.
    fn register(&mut self, name: &str, version: &str, metadata: VersionMetadata)
        ensures
            final(self).deep_view() == registered(
                old(self).deep_view(),
                name@,
                version@,
                metadata.deep_view(),
            ),
    {
        let ghost before = self.deep_view();
        let ghost model = metadata.deep_view();
        let copy = metadata.duplicate();
        self.versions.insert((name.to_owned(), version.to_owned()), copy);
        let mut packument = match self.packuments.take(&name.to_owned()) {
            Some(packument) => packument,
            None => Packument {
                name: name.to_owned(),
                versions: SortedMap::new(),
                dist_tags: SortedMap::new(),
            },
        };
        assert(packument.deep_view() == packument_in(before.packuments, name@));
        packument.versions.insert(version.to_owned(), metadata);
        let highest = latest_in(&packument, version);
        packument.dist_tags.insert("latest".to_owned(), highest.clone());
        let ghost published = published_onto(
            packument_in(before.packuments, name@),
            version@,
            model,
        );
        assert(packument.deep_view() == published);
        match packument.versions.get(&highest) {
            Some(latest) => {
                self.versions.insert((name.to_owned(), "latest".to_owned()), latest.duplicate());
            },
            None => {
                assert(false);
            },
        }
        self.packuments.insert(name.to_owned(), packument);
        proof {
            assert(before.packuments.remove(name@).insert(name@, published)
                =~= before.packuments.insert(name@, published));
        }
    }

    /// Register a version with its tarball. What it must hash to is taken from
    /// the bytes, so that it verifies.
    pub fn with_package(self, name: &str, version: &str, tarball: Vec<u8>) -> (fixture: Self)
        ensures
            fixture.deep_view() == with_version(
                self.deep_view(),
                fixture_metadata(name@, version@, sha512_of(tarball@), Map::empty()),
                tarball@,
            ),
    {
        let metadata = metadata_for(name, version, tarball.as_slice(), SortedMap::new());
        let mut fixture = self;
        assert(tarball.deep_view() =~= tarball@);
        fixture.tarballs.insert(url_for(name, version), tarball);
        fixture.register(name, version, metadata);
        fixture
    }

    /// Register a version whose tarball does not hash to what is advertised.
    pub fn with_corrupt_package(self, name: &str, version: &str, tarball: Vec<u8>) -> (fixture: Self)
        ensures
            fixture.deep_view() == with_version(
                self.deep_view(),
                fixture_metadata(
                    name@,
                    version@,
                    sha512_of(encode_utf8("not these bytes"@)),
                    Map::empty(),
                ),
                tarball@,
            ),
    {
        let metadata = metadata_for(
            name,
            version,
            "not these bytes".as_bytes(),
            SortedMap::new(),
        );
        let mut fixture = self;
        assert(tarball.deep_view() =~= tarball@);
        fixture.tarballs.insert(url_for(name, version), tarball);
        fixture.register(name, version, metadata);
        fixture
    }

    /// What is published of a version, and the bytes of the tarball that its
    /// hash is taken from.
    fn build_version(name: &str, version: &str, dependencies: &[(&str, &str)]) -> (built: (
        VersionMetadata,
        Vec<u8>,
    ))
        ensures
            built.0.deep_view() == version_metadata_of(name@, version@, pairs_in(dependencies@)),
            built.1@ == version_tarball(name@, version@),
    {
        let mut text = "{\"name\":\"".to_owned();
        text.append(name);
        text.append("\",\"version\":\"");
        text.append(version);
        text.append("\"}");
        let entry = TarEntry::file("package/package.json", text.as_str());
        proof {
            reveal_strlit("package/package.json");
            assert(is_ascii_chars("package/package.json"@));
            is_ascii_chars_encode_utf8("package/package.json"@);
        }
        let mut entries: Vec<TarEntry> = Vec::new();
        entries.push(entry);
        let tarball = build_tarball(entries.as_slice());
        assert(crate::tarball::models(entries@) =~= seq![
            recorded_as(
                "package/package.json"@,
                NO_FLAG,
                0o644,
                encode_utf8(manifest_text(name@, version@)),
            ),
        ]);
        let mut declared: SortedMap<String, String> = SortedMap::new();
        put_pairs(&mut declared, dependencies);
        (metadata_for(name, version, tarball.as_slice(), declared), tarball)
    }

    fn add_version(&mut self, name: &str, version: &str, dependencies: &[(&str, &str)])
        ensures
            final(self).deep_view() == with_version(
                old(self).deep_view(),
                version_metadata_of(name@, version@, pairs_in(dependencies@)),
                version_tarball(name@, version@),
            ),
    {
        let (metadata, tarball) = Self::build_version(name, version, dependencies);
        assert(tarball.deep_view() =~= tarball@);
        self.tarballs.insert(metadata.dist.tarball.clone(), tarball);
        self.register(name, version, metadata);
    }

    /// Register versions of one package, each with the dependencies it
    /// declares.
    pub fn with_packument(self, name: &str, versions: &[FixtureVersion<'_>]) -> (fixture: Self)
        ensures
            fixture.deep_view() == with_versions(self.deep_view(), name@, versions@),
    {
        let ghost before = self.deep_view();
        let mut fixture = self;
        let mut i: usize = 0;
        while i < versions.len()
            invariant
                i <= versions@.len(),
                fixture.deep_view() == with_versions(before, name@, versions@.take(i as int)),
            decreases versions.len() - i,
        {
            assert(versions@.take(i + 1).drop_last() =~= versions@.take(i as int));
            let (version, dependencies) = versions[i];
            fixture.add_version(name, version, dependencies);
            i = i + 1;
        }
        assert(versions@.take(versions@.len() as int) =~= versions@);
        fixture
    }

    /// Register a whole tree, as a flat list. Versions of one package may be
    /// listed apart.
    pub fn with_tree(self, entries: &[FixtureEntry<'_>]) -> (fixture: Self)
        ensures
            fixture.deep_view() == with_entries(self.deep_view(), entries@),
    {
        let ghost before = self.deep_view();
        let mut fixture = self;
        let mut i: usize = 0;
        while i < entries.len()
            invariant
                i <= entries@.len(),
                fixture.deep_view() == with_entries(before, entries@.take(i as int)),
            decreases entries.len() - i,
        {
            assert(entries@.take(i + 1).drop_last() =~= entries@.take(i as int));
            let (name, version, dependencies) = entries[i];
            fixture.add_version(name, version, dependencies);
            i = i + 1;
        }
        assert(entries@.take(entries@.len() as int) =~= entries@);
        fixture
    }

    /// Change a registered version in every place that it is held.
    pub fn amend(self, name: &str, version: &str, edit: Edit<'_>) -> (fixture: Self)
        requires
            is_registered(self.deep_view(), name@, version@),
        ensures
            fixture.deep_view() == amended(self.deep_view(), name@, version@, edit),
    {
        let ghost before = self.deep_view();
        let mut fixture = self;
        let key = (name.to_owned(), version.to_owned());
        assert(key.deep_view() == (name@, version@));
        if let Some(metadata) = fixture.versions.take(&key) {
            fixture.versions.insert(key, apply(&edit, metadata));
        }
        let ghost alone = edited(before.versions[(name@, version@)], edit);
        proof {
            assert(before.versions.remove((name@, version@)).insert((name@, version@), alone)
                =~= before.versions.insert((name@, version@), alone));
        }
        if let Some(taken) = fixture.packuments.take(&name.to_owned()) {
            let mut packument = taken;
            let ghost held = packument.deep_view();
            if let Some(metadata) = packument.versions.take(&version.to_owned()) {
                let changed = apply(&edit, metadata);
                let is_latest = match packument.resolve_tag("latest") {
                    Some(latest) => same(latest, version),
                    None => false,
                };
                if is_latest {
                    fixture.versions.insert(
                        (name.to_owned(), "latest".to_owned()),
                        changed.duplicate(),
                    );
                }
                let ghost among = changed.deep_view();
                packument.versions.insert(version.to_owned(), changed);
                assert(held.versions.remove(version@).insert(version@, among)
                    =~= held.versions.insert(version@, among));
            }
            let ghost now = packument.deep_view();
            fixture.packuments.insert(name.to_owned(), packument);
            assert(before.packuments.remove(name@).insert(name@, now)
                =~= before.packuments.insert(name@, now));
        }
        fixture
    }

    /// Declare peers on a registered version.
    pub fn with_declared_peers(self, name: &str, version: &str, peers: &[FixturePeer<'_>]) -> (fixture:
        Self)
        requires
            is_registered(self.deep_view(), name@, version@),
        ensures
            fixture.deep_view() == amended(self.deep_view(), name@, version@, Edit::Peers(peers)),
    {
        self.amend(name, version, Edit::Peers(peers))
    }

    /// Declare optional dependencies on a registered version.
    pub fn with_optional_dependencies(
        self,
        name: &str,
        version: &str,
        optional: &[(&str, &str)],
    ) -> (fixture: Self)
        requires
            is_registered(self.deep_view(), name@, version@),
        ensures
            fixture.deep_view() == amended(
                self.deep_view(),
                name@,
                version@,
                Edit::Optional(optional),
            ),
    {
        self.amend(name, version, Edit::Optional(optional))
    }

    /// Declare the machines that a registered version runs on.
    pub fn with_platform(self, name: &str, version: &str, os: &[&str], cpu: &[&str]) -> (fixture:
        Self)
        requires
            is_registered(self.deep_view(), name@, version@),
        ensures
            fixture.deep_view() == amended(
                self.deep_view(),
                name@,
                version@,
                (Edit::Machines { os, cpu }),
            ),
    {
        self.amend(name, version, Edit::Machines { os, cpu })
    }

    /// Declare the entry points of a registered version.
    pub fn with_bins(self, name: &str, version: &str, bins: &[(&str, &str)]) -> (fixture: Self)
        requires
            is_registered(self.deep_view(), name@, version@),
        ensures
            fixture.deep_view() == amended(self.deep_view(), name@, version@, Edit::Bins(bins)),
    {
        self.amend(name, version, Edit::Bins(bins))
    }

    /// Point a tag at a version that is registered.
    pub fn with_dist_tag(self, name: &str, tag: &str, version: &str) -> (fixture: Self)
        requires
            self.deep_view().packuments.contains_key(name@),
            self.deep_view().packuments[name@].versions.contains_key(version@),
        ensures
            fixture.deep_view() == (FixtureModel {
                packuments: self.deep_view().packuments.insert(
                    name@,
                    PackumentModel {
                        dist_tags: self.deep_view().packuments[name@].dist_tags.insert(
                            tag@,
                            version@,
                        ),
                        ..self.deep_view().packuments[name@]
                    },
                ),
                ..self.deep_view()
            }),
    {
        let ghost before = self.deep_view();
        let mut fixture = self;
        if let Some(taken) = fixture.packuments.take(&name.to_owned()) {
            let mut packument = taken;
            packument.dist_tags.insert(tag.to_owned(), version.to_owned());
            let ghost now = packument.deep_view();
            fixture.packuments.insert(name.to_owned(), packument);
            assert(before.packuments.remove(name@).insert(name@, now)
                =~= before.packuments.insert(name@, now));
        }
        fixture
    }

    /// Publish a version that only a request which has to be current sees, as
    /// if it came out while a copy of the others was still fresh.
    pub fn with_current_version(self, name: &str, version: &str, dependencies: &[(&str, &str)]) -> (
    fixture: Self)
        requires
            current_view(self.deep_view(), name@) is Some,
        ensures
            ({
                let before = self.deep_view();
                let metadata = version_metadata_of(name@, version@, pairs_in(dependencies@));
                fixture.deep_view() == (FixtureModel {
                    tarballs: before.tarballs.insert(
                        metadata.dist.tarball,
                        version_tarball(name@, version@),
                    ),
                    current: before.current.insert(
                        name@,
                        published_onto(current_view(before, name@)->0, version@, metadata),
                    ),
                    ..before
                })
            }),
    {
        let ghost before = self.deep_view();
        let mut fixture = self;
        let seen = match fixture.current.named(name) {
            Some(packument) => Some(packument.duplicate()),
            None => match fixture.packuments.named(name) {
                Some(packument) => Some(packument.duplicate()),
                None => None,
            },
        };
        if let Some(copy) = seen {
            let mut packument = copy;
            let (metadata, tarball) = Self::build_version(name, version, dependencies);
            assert(tarball.deep_view() =~= tarball@);
            fixture.tarballs.insert(metadata.dist.tarball.clone(), tarball);
            packument.versions.insert(version.to_owned(), metadata);
            let highest = latest_in(&packument, version);
            packument.dist_tags.insert("latest".to_owned(), highest);
            fixture.current.insert(name.to_owned(), packument);
        }
        fixture
    }

    /// How many times one version's metadata was asked for.
    pub fn metadata_calls(&self) -> (calls: usize)
        ensures
            calls == self.deep_view().metadata_calls,
    {
        self.metadata_calls
    }

    /// How many times a tarball was asked for.
    pub fn tarball_calls(&self) -> (calls: usize)
        ensures
            calls == self.deep_view().tarball_calls,
    {
        self.tarball_calls
    }

    /// How many times a tarball of one package was asked for.
    pub fn tarball_calls_for(&self, name: &str) -> (calls: usize)
        ensures
            calls == if self.deep_view().tarball_calls_by_name.contains_key(name@) {
                self.deep_view().tarball_calls_by_name[name@]
            } else {
                0
            },
    {
        match self.tarball_calls_by_name.named(name) {
            Some(calls) => *calls,
            None => 0,
        }
    }

    /// Make callers for tarballs meet.
    pub fn with_tarball_rendezvous(self, width: usize) -> (fixture: Self)
        ensures
            fixture.deep_view() == (FixtureModel {
                tarball_rendezvous: Some(new_rendezvous(width, None)),
                ..self.deep_view()
            }),
    {
        let mut fixture = self;
        fixture.tarball_rendezvous = Some(Rendezvous::new(width));
        fixture
    }

    /// Did the callers for tarballs meet, rather than give up?
    pub fn tarballs_met_rendezvous(&self) -> (met: bool)
        ensures
            met == match self.deep_view().tarball_rendezvous {
                Some(gate) => !gate.broken,
                None => false,
            },
    {
        match &self.tarball_rendezvous {
            Some(gate) => !gate.broken,
            None => false,
        }
    }

    /// The most callers for tarballs there ever were at once.
    pub fn peak_concurrent_tarballs(&self) -> (peak: usize)
        ensures
            peak == self.deep_view().tarballs_peak,
    {
        self.tarballs_peak
    }

    /// Make callers for packuments meet.
    pub fn with_packument_rendezvous(self, width: usize) -> (fixture: Self)
        ensures
            fixture.deep_view() == (FixtureModel {
                packument_rendezvous: Some(new_rendezvous(width, None)),
                ..self.deep_view()
            }),
    {
        let mut fixture = self;
        fixture.packument_rendezvous = Some(Rendezvous::new(width));
        fixture
    }

    /// Make callers for the packuments of these names meet, and no others.
    pub fn with_packument_rendezvous_for(self, names: &[&str], width: usize) -> (fixture: Self)
        ensures
            fixture.deep_view() == (FixtureModel {
                packument_rendezvous: Some(new_rendezvous(width, Some(names_in(names@)))),
                ..self.deep_view()
            }),
    {
        let mut fixture = self;
        fixture.packument_rendezvous = Some(Rendezvous::only(names, width));
        fixture
    }

    /// Hold callers for the packuments of these names until some tarball was
    /// asked for.
    pub fn with_packument_awaiting_a_tarball(self, names: &[&str]) -> (fixture: Self)
        ensures
            fixture.deep_view() == (FixtureModel {
                packument_handshake: Some(
                    HandshakeModel { only: names_in(names@), open: false, broken: false },
                ),
                ..self.deep_view()
            }),
    {
        let mut fixture = self;
        fixture.packument_handshake = Some(Handshake::new(names));
        fixture
    }

    /// Were the held callers let through by a tarball, rather than giving up?
    pub fn packuments_awaited_a_tarball(&self) -> (held: bool)
        ensures
            held == match self.deep_view().packument_handshake {
                Some(gate) => !gate.broken,
                None => false,
            },
    {
        match &self.packument_handshake {
            Some(gate) => gate.held(),
            None => false,
        }
    }

    /// Did the callers for packuments meet, rather than give up?
    pub fn packuments_met_rendezvous(&self) -> (met: bool)
        ensures
            met == match self.deep_view().packument_rendezvous {
                Some(gate) => !gate.broken,
                None => false,
            },
    {
        match &self.packument_rendezvous {
            Some(gate) => !gate.broken,
            None => false,
        }
    }

    /// The most callers for packuments there ever were at once.
    pub fn peak_concurrent_packuments(&self) -> (peak: usize)
        ensures
            peak == self.deep_view().packuments_peak,
    {
        self.packuments_peak
    }

    /// How many times a packument was asked for.
    pub fn packument_calls(&self) -> (calls: usize)
        requires
            total(
                self.deep_view().packument_calls,
                in_order::<String>(self.deep_view().packument_calls.dom()),
            ) <= usize::MAX,
        ensures
            calls == total(
                self.deep_view().packument_calls,
                in_order::<String>(self.deep_view().packument_calls.dom()),
            ),
    {
        let ghost counts = self.packument_calls.deep_view();
        let n: usize = self.packument_calls.len();
        let ghost names = self.packument_calls.keys();
        let mut calls: usize = 0;
        let mut i: usize = 0;
        assert(names.take(n as int) =~= names);
        while i < n
            invariant
                i <= n == names.len(),
                names == self.packument_calls.keys(),
                counts == self.packument_calls.deep_view(),
                total(counts, names.take(n as int)) <= usize::MAX,
                calls == total(counts, names.take(i as int)),
            decreases n - i,
        {
            assert(names.take(i + 1).drop_last() =~= names.take(i as int));
            assert(names.take(i + 1).last() == names[i as int]);
            proof {
                totals_grow(counts, names, i + 1, n as int);
            }
            calls = calls + *self.packument_calls.value_at(i);
            i = i + 1;
        }
        calls
    }

    /// How many times the packument of one package was asked for.
    pub fn packument_calls_for(&self, name: &str) -> (calls: usize)
        ensures
            calls == if self.deep_view().packument_calls.contains_key(name@) {
                self.deep_view().packument_calls[name@]
            } else {
                0
            },
    {
        match self.packument_calls.named(name) {
            Some(calls) => *calls,
            None => 0,
        }
    }

    /// The package that a tarball belongs to.
    fn name_of_tarball(&self, url: &str) -> (name: Option<String>)
        ensures
            match name {
                Some(name) => owner_of(self.deep_view(), url@) == Some(name@),
                None => owner_of(self.deep_view(), url@) is None,
            },
    {
        let ghost model = self.deep_view();
        let n: usize = self.versions.len();
        let ghost keys = self.versions.keys();
        let mut i: usize = 0;
        while i < n
            invariant
                i <= n == keys.len(),
                keys == self.versions.keys(),
                model == self.deep_view(),
                keys == in_order::<(String, String)>(model.versions.dom()),
                owner_among(model, keys.take(i as int), url@) is None,
            decreases n - i,
        {
            let metadata = self.versions.value_at(i);
            assert(keys.take(i + 1).drop_last() =~= keys.take(i as int));
            assert(keys.take(i + 1).last() == keys[i as int]);
            if same(metadata.dist.tarball.as_str(), url) {
                proof {
                    owner_stays(model, keys, url@, i + 1);
                }
                return Some(metadata.name.clone());
            }
            i = i + 1;
        }
        assert(keys.take(n as int) =~= keys);
        None
    }

    /// Is any version of a package registered?
    fn knows_package(&self, name: &str) -> (yes: bool)
        ensures
            yes == knows(self.deep_view().versions, name@),
    {
        let ghost model = self.deep_view();
        let n: usize = self.versions.len();
        let ghost keys = self.versions.keys();
        let mut i: usize = 0;
        while i < n
            invariant
                i <= n == keys.len(),
                keys == self.versions.keys(),
                model == self.deep_view(),
                model.versions.dom() == keys.to_set(),
                forall|j: int| 0 <= j < i ==> (#[trigger] keys[j]).0 != name@,
            decreases n - i,
        {
            let key = self.versions.key_at(i);
            assert(key.deep_view() == (key.0@, key.1@));
            if same(key.0.as_str(), name) {
                assert(model.versions.contains_key((name@, key.1@)));
                return true;
            }
            i = i + 1;
        }
        proof {
            assert forall|version: Seq<char>| !(#[trigger] model.versions.contains_key(
                (name@, version),
            )) by {
                if model.versions.contains_key((name@, version)) {
                    assert(keys.to_set().contains((name@, version)));
                    let j = keys.index_of((name@, version));
                    assert(keys[j].0 == name@);
                }
            }
        }
        false
    }

    /// Answer a request for a packument, counting it and letting it meet
    /// others.
    fn answer(&mut self, name: &str, freshness: Freshness) -> (answer: Result<
        Packument,
        RegistryError,
    >)
        ensures
            result_view(answer) == answer_in(
                old(self).deep_view(),
                (RequestModel { name: name@, must_be_current: freshness is MustBeCurrent }),
            ),
            final(self).deep_view() == after_packument(old(self).deep_view(), name@),
    {
        count_call(&mut self.packument_calls, name);
        self.packuments_peak = note_peak(self.packuments_peak);
        if let Some(met) = self.packument_rendezvous.take() {
            let mut gate = met;
            if gate.admits(name) {
                gate.meet();
            }
            self.packument_rendezvous = Some(gate);
        }
        if let Some(held) = self.packument_handshake.take() {
            let mut gate = held;
            gate.wait(name);
            self.packument_handshake = Some(gate);
        }
        let view = match freshness {
            Freshness::MustBeCurrent => match self.current.named(name) {
                Some(packument) => Some(packument),
                None => self.packuments.named(name),
            },
            Freshness::MayBeCached => self.packuments.named(name),
        };
        match view {
            Some(packument) => Ok(packument.duplicate()),
            None => Err(RegistryError::PackageNotFound(name.to_owned())),
        }
    }
}

proof fn totals_grow(calls: Map<Seq<char>, usize>, names: Seq<Seq<char>>, i: int, n: int)
    requires
        0 <= i <= n <= names.len(),
    ensures
        total(calls, names.take(i)) <= total(calls, names.take(n)),
    decreases n - i,
{
    if i < n {
        assert(names.take(n).drop_last() =~= names.take(n - 1));
        totals_grow(calls, names, i, n - 1);
    }
}

proof fn owner_stays(
    fixture: FixtureModel,
    keys: Seq<(Seq<char>, Seq<char>)>,
    url: Seq<char>,
    n: int,
)
    requires
        0 <= n <= keys.len(),
        owner_among(fixture, keys.take(n), url) is Some,
    ensures
        owner_among(fixture, keys, url) == owner_among(fixture, keys.take(n), url),
    decreases keys.len() - n,
{
    if n < keys.len() {
        assert(keys.take(n + 1).drop_last() =~= keys.take(n));
        owner_stays(fixture, keys, url, n + 1);
    } else {
        assert(keys.take(n) =~= keys);
    }
}

/// What a fixture has at an address.
pub open spec fn tarball_in(model: FixtureModel, url: Address) -> Download {
    if model.tarballs.contains_key(url) {
        Ok(model.tarballs[url])
    } else {
        Err(RegistryFault::PackageNotFound(url))
    }
}

impl RegistryClient for FixtureRegistry {
    open spec fn may_answer(&self, request: RequestModel, answer: Answer) -> bool {
        answer == answer_in(self.deep_view(), request)
    }

    open spec fn may_fetch(&self, url: Address, fetched: Download) -> bool {
        fetched == tarball_in(self.deep_view(), url)
    }

    fn version_metadata(&mut self, name: &str, version: &str) -> (metadata: Result<
        VersionMetadata,
        RegistryError,
    >)
        ensures
            result_view(metadata) == metadata_in(old(self).deep_view(), name@, version@),
            final(self).deep_view() == (FixtureModel {
                metadata_calls: one_more(old(self).deep_view().metadata_calls),
                ..old(self).deep_view()
            }),
    {
        self.metadata_calls = count_up(self.metadata_calls);
        let key = (name.to_owned(), version.to_owned());
        assert(key.deep_view() == (name@, version@));
        match self.versions.get(&key) {
            Some(metadata) => Ok(metadata.duplicate()),
            None => if self.knows_package(name) {
                Err(
                    RegistryError::VersionNotFound {
                        name: name.to_owned(),
                        version: version.to_owned(),
                    },
                )
            } else {
                Err(RegistryError::PackageNotFound(name.to_owned()))
            },
        }
    }

    /// A conditional request is one that reaches the registry, and a fixture
    /// always answers it with a body.
    fn packument_conditional(&mut self, name: &str, etag: Option<&str>) -> (fetched: Result<
        Fetched,
        RegistryError,
    >)
        ensures
            result_view(fetched) == match answer_in(
                old(self).deep_view(),
                (RequestModel { name: name@, must_be_current: true }),
            ) {
                Ok(packument) => Ok::<FetchedModel, RegistryFault>(
                    FetchedModel::Body { packument, etag: None },
                ),
                Err(fault) => Err::<FetchedModel, RegistryFault>(fault),
            },
            final(self).deep_view() == after_packument(old(self).deep_view(), name@),
    {
        match self.answer(name, Freshness::MustBeCurrent) {
            Ok(packument) => Ok(Fetched::Body { packument: Box::new(packument), etag: None }),
            Err(error) => Err(error),
        }
    }

    fn packument(&mut self, name: &str, freshness: Freshness) -> (packument: Result<
        Packument,
        RegistryError,
    >)
        ensures
            result_view(packument) == answer_in(
                old(self).deep_view(),
                (RequestModel { name: name@, must_be_current: freshness is MustBeCurrent }),
            ),
            final(self).deep_view() == after_packument(old(self).deep_view(), name@),
    {
        self.answer(name, freshness)
    }

    fn fetch_tarball(&mut self, url: &str) -> (bytes: Result<Vec<u8>, RegistryError>)
        ensures
            bytes_view(bytes) == tarball_in(old(self).deep_view(), url@),
            final(self).deep_view() == after_tarball(old(self).deep_view(), url@),
    {
        let owner = self.name_of_tarball(url);
        self.tarball_calls = count_up(self.tarball_calls);
        if let Some(name) = owner {
            count_call(&mut self.tarball_calls_by_name, name.as_str());
        }
        if let Some(held) = self.packument_handshake.take() {
            let mut gate = held;
            gate.open();
            self.packument_handshake = Some(gate);
        }
        self.tarballs_peak = note_peak(self.tarballs_peak);
        if let Some(met) = self.tarball_rendezvous.take() {
            let mut gate = met;
            gate.meet();
            self.tarball_rendezvous = Some(gate);
        }
        match self.tarballs.named(url) {
            Some(bytes) => {
                let copy = duplicate_bytes(bytes);
                assert(bytes.deep_view() =~= bytes@);
                Ok(copy)
            },
            None => Err(RegistryError::PackageNotFound(url.to_owned())),
        }
    }
}

} // verus!
