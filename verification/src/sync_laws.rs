//! What a sync is made of: what is left to resolve, what is left to fetch, and
//! what is said of it in the end.

use vstd::prelude::*;
use crate::cli::request_text;
use crate::graph::{
    platform_graph, DeclaredModel, GraphModel, Kind, PackageModel, ResolvedGraph,
};
use crate::importer::ImporterPath;
use crate::install::{AskedFor, InstalledModel, Mode};
use crate::integrity::store_key_of;
use crate::lockfile::lock_of;
use crate::package_id::{plain_id, IdModel, PackageId};
use crate::planning::{recording_for, specifier_for};
use crate::platform::PlatformModel;
use crate::range::{range_parses, version_parses};
use crate::sorted::{first_of, in_order, in_order_lists, SortedSet};
use crate::specifier::alias_parts;
use crate::store::Store;
use crate::sync::{
    fetch_missing, gate_fault, hashes_among, listed, locked_hashes, locked_packages, mismatched,
    missing_among, names_of, prepared_for, synced, versions_in,
};
use crate::workspace::{name_of, MembersModel, WorkspaceModel};

verus! {

proof fn missing_are(
    packages: Map<IdModel, PackageModel>,
    ids: Seq<IdModel>,
    entries: Set<Seq<char>>,
    id: IdModel,
)
    ensures
        missing_among(packages, ids, entries).contains(id) <==> ids.contains(id)
            && !entries.contains(store_key_of(packages[id].integrity)),
    decreases ids.len(),
{
    let all = missing_among(packages, ids, entries);
    if ids.len() > 0 {
        let shorter = ids.drop_last();
        let n = ids.len() - 1;
        let before = missing_among(packages, shorter, entries);
        missing_are(packages, shorter, entries, id);
        if before.contains(id) {
            assert(all[before.index_of(id)] == id);
            assert(ids[shorter.index_of(id)] == id);
        }
        if all.contains(id) && !before.contains(id) {
            let i = all.index_of(id);
            if i < before.len() {
                assert(before[i] == id);
            }
            assert(ids[n] == id);
        }
        if ids.contains(id) && !entries.contains(store_key_of(packages[id].integrity)) {
            let k = ids.index_of(id);
            if k < n {
                assert(shorter[k] == id);
                assert(shorter.contains(id));
            } else {
                assert(all[before.len() as int] == id);
            }
        }
    }
}

/// A package is fetched exactly where the store does not hold it.
pub proof fn exactly_what_is_missing_is_fetched(
    graph: &ResolvedGraph,
    store: &Store,
    entries: &SortedSet<String>,
    missing: Vec<PackageId>,
    id: IdModel,
)
    requires
        call_ensures(fetch_missing, (graph, store, entries), missing),
    ensures
        missing.deep_view().contains(id) <==> graph.deep_view().packages.contains_key(id)
            && !entries.deep_view().contains(
            store_key_of(graph.deep_view().packages[id].integrity),
        ),
{
    let packages = graph.deep_view().packages;
    graph.packages.is_finite();
    let ids = in_order::<PackageId>(packages.dom());
    in_order_lists::<PackageId>(packages.dom());
    assert(ids.to_set().contains(id) <==> packages.dom().contains(id));
    missing_are(packages, ids, entries.deep_view(), id);
}

proof fn names_are(members: MembersModel, paths: Seq<Seq<char>>, name: Seq<char>)
    ensures
        names_of(members, paths).contains_key(name) <==> exists|i: int|
            0 <= i < paths.len() && name_of(members[#[trigger] paths[i]]) == Some(name),
        names_of(members, paths).contains_key(name) ==> exists|i: int|
            0 <= i < paths.len() && name_of(members[#[trigger] paths[i]]) == Some(name) && names_of(
                members,
                paths,
            )[name] == members[paths[i]].importer,
    decreases paths.len(),
{
    if paths.len() > 0 {
        let shorter = paths.drop_last();
        let n = paths.len() - 1;
        names_are(members, shorter, name);
        let before = names_of(members, shorter);
        assert(paths[n] == paths.last());
        if before.contains_key(name) {
            let i = choose|i: int|
                0 <= i < shorter.len() && name_of(members[#[trigger] shorter[i]]) == Some(name)
                    && before[name] == members[shorter[i]].importer;
            assert(paths[i] == shorter[i]);
        }
        if exists|i: int|
            0 <= i < paths.len() && name_of(members[#[trigger] paths[i]]) == Some(name) {
            let i = choose|i: int|
                0 <= i < paths.len() && name_of(members[#[trigger] paths[i]]) == Some(name);
            if i < n {
                assert(shorter[i] == paths[i]);
            }
        }
    }
}

/// Every declared project is either reused as it is recorded or resolved anew,
/// and never both. What is resolved anew is what it declares, with what is
/// asked for on top where it is asked, in the section that is asked for or, if
/// none is, in the one it stands in already. Every named member can be linked,
/// and nobody else.
pub proof fn projects_are_reused_or_resolved(
    workspace: WorkspaceModel,
    locked: Option<GraphModel>,
    request: Option<AskedFor>,
    mode: Mode,
    path: Seq<char>,
    name: Seq<char>,
)
    requires
        workspace.members.dom().finite(),
        prepared_for(workspace, locked, request, mode) is Ok,
    ensures
        ({
            let prepared = prepared_for(workspace, locked, request, mode)->Ok_0;
            let declares = crate::manifest::declared_in(workspace.members[path].manifest.members);
            &&& workspace.members.contains_key(path) <==> prepared.reused.contains_key(path)
                || prepared.stale.contains_key(path)
            &&& !(prepared.reused.contains_key(path) && prepared.stale.contains_key(path))
            &&& prepared.stale.contains_key(path) ==> {
                if request is Some && (request->0).importer == path {
                    let asked = request->0;
                    let kind = match asked.kind {
                        Some(kind) => kind,
                        None => if declares.contains_key(asked.name) {
                            declares[asked.name].kind
                        } else {
                            Kind::Prod
                        },
                    };
                    prepared.stale[path] == declares.insert(
                        asked.name,
                        DeclaredModel { specifier: request_text(asked.seed), kind },
                    )
                } else {
                    prepared.stale[path] == declares
                }
            }
            &&& prepared.members.contains_key(name) <==> exists|at: Seq<char>| #[trigger]
                workspace.members.contains_key(at) && name_of(workspace.members[at]) == Some(name)
            &&& prepared.members.contains_key(name) ==> exists|at: Seq<char>| #[trigger]
                workspace.members.contains_key(at) && name_of(workspace.members[at]) == Some(name)
                    && prepared.members[name] == workspace.members[at].importer
        }),
{
    let prepared = prepared_for(workspace, locked, request, mode)->Ok_0;
    let paths = in_order::<ImporterPath>(workspace.members.dom());
    in_order_lists::<ImporterPath>(workspace.members.dom());
    names_are(workspace.members, paths, name);
    if exists|i: int|
        0 <= i < paths.len() && name_of(workspace.members[#[trigger] paths[i]]) == Some(name) {
        let i = choose|i: int|
            0 <= i < paths.len() && name_of(workspace.members[#[trigger] paths[i]]) == Some(name)
                && prepared.members[name] == workspace.members[paths[i]].importer;
        assert(paths.to_set().contains(paths[i]));
        assert(workspace.members.contains_key(paths[i]));
    }
    if exists|at: Seq<char>| #[trigger]
        workspace.members.contains_key(at) && name_of(workspace.members[at]) == Some(name) {
        let at = choose|at: Seq<char>| #[trigger]
            workspace.members.contains_key(at) && name_of(workspace.members[at]) == Some(name);
        assert(paths.to_set().contains(at));
        let i = paths.index_of(at);
        assert(name_of(workspace.members[paths[i]]) == Some(name));
    }
}

proof fn listing_holds(ids: Seq<IdModel>, name: Seq<char>, version: Seq<char>)
    ensures
        listed(ids).contains(InstalledModel { name, version }) <==> exists|i: int|
            0 <= i < ids.len() && (#[trigger] ids[i]).name == name && ids[i].version == version,
{
    let one = InstalledModel { name, version };
    if listed(ids).contains(one) {
        let i = listed(ids).index_of(one);
        assert(ids[i].name == name && ids[i].version == version);
    }
    if exists|i: int|
        0 <= i < ids.len() && (#[trigger] ids[i]).name == name && ids[i].version == version {
        let i = choose|i: int|
            0 <= i < ids.len() && (#[trigger] ids[i]).name == name && ids[i].version == version;
        assert(listed(ids)[i] == one);
    }
}

/// Every version that is there on the platform is said to be linked, and no
/// other is. A production install writes no lockfile, and any other writes
/// one.
pub proof fn what_is_linked_is_said(
    workspace: WorkspaceModel,
    store: Seq<char>,
    graph: GraphModel,
    request: Option<AskedFor>,
    mode: Mode,
    platform: PlatformModel,
    name: Seq<char>,
    version: Seq<char>,
)
    requires
        platform_graph(graph, platform).packages.dom().finite(),
    ensures
        synced(workspace, store, graph, request, mode, platform).graph == platform_graph(
            graph,
            platform,
        ),
        synced(workspace, store, graph, request, mode, platform).linked.contains(
            InstalledModel { name, version },
        ) <==> exists|id: IdModel| #[trigger]
            platform_graph(graph, platform).packages.contains_key(id) && id.name == name
                && id.version == version,
        synced(workspace, store, graph, request, mode, platform).lock is None <==> mode
            == Mode::Production,
{
    let here = platform_graph(graph, platform).packages;
    let versions = versions_in(here);
    versions_are_finite(here);
    let ids = in_order::<PackageId>(versions);
    in_order_lists::<PackageId>(versions);
    listing_holds(ids, name, version);
    if exists|i: int|
        0 <= i < ids.len() && (#[trigger] ids[i]).name == name && ids[i].version == version {
        let i = choose|i: int|
            0 <= i < ids.len() && (#[trigger] ids[i]).name == name && ids[i].version == version;
        assert(ids.to_set().contains(ids[i]));
        assert(versions.contains(ids[i]));
        let copy = choose|copy: IdModel| #[trigger]
            here.contains_key(copy) && ids[i] == plain_id(copy.name, copy.version);
        assert(here.contains_key(copy) && copy.name == name && copy.version == version);
    }
    if exists|id: IdModel| #[trigger]
        here.contains_key(id) && id.name == name && id.version == version {
        let id = choose|id: IdModel| #[trigger]
            here.contains_key(id) && id.name == name && id.version == version;
        let plain = plain_id(id.name, id.version);
        assert(versions.contains(plain));
        assert(ids.to_set().contains(plain));
        let i = ids.index_of(plain);
        assert(ids[i].name == name && ids[i].version == version);
    }
    let done = synced(workspace, store, graph, request, mode, platform);
    assert(done.linked == listed(ids));
}

proof fn versions_are_finite(packages: Map<IdModel, PackageModel>)
    requires
        packages.dom().finite(),
    ensures
        versions_in(packages).finite(),
{
    let plain = |id: IdModel| plain_id(id.name, id.version);
    packages.dom().lemma_map_finite(plain);
    assert(versions_in(packages) =~= packages.dom().map(plain)) by {
        assert forall|id: IdModel| versions_in(packages).contains(id) implies packages.dom().map(
            plain,
        ).contains(id) by {
            let copy = choose|copy: IdModel| #[trigger]
                packages.contains_key(copy) && id == plain_id(copy.name, copy.version);
            assert(packages.dom().contains(copy) && plain(copy) == id);
        }
        assert forall|id: IdModel| packages.dom().map(plain).contains(
            id,
        ) implies versions_in(packages).contains(id) by {
            let copy = choose|copy: IdModel| packages.dom().contains(copy) && plain(copy) == id;
            assert(packages.contains_key(copy));
        }
    }
}

/// What is recorded of a request is the version that it came to, under what
/// was asked for where that was a range, and under the version itself where it
/// was a version or a tag.
pub proof fn ranges_are_recorded_as_they_were_asked_for(
    request: AskedFor,
    graph: GraphModel,
    workspace: WorkspaceModel,
)
    requires
        recording_for(request, graph, workspace) is Some,
        graph.importers[request.importer][request.name].resolution is Registry,
        alias_parts(request_text(request.seed)) is None,
    ensures
        ({
            let recorded = recording_for(request, graph, workspace)->0;
            let found = graph.importers[request.importer][request.name];
            let version = (found.resolution->Registry_0).version;
            let asked = request_text(request.seed);
            &&& graph.importers.contains_key(request.importer)
            &&& graph.importers[request.importer].contains_key(request.name)
            &&& recorded.name == request.name
            &&& recorded.version == version
            &&& recorded.kind == found.kind
            &&& range_parses(asked) && !version_parses(asked) ==> recorded.specifier == asked
            &&& !range_parses(asked) || version_parses(asked) ==> recorded.specifier == version
        }),
{
}

/// An alias is recorded as one, of the same package.
pub proof fn aliases_are_recorded_as_aliases(
    aliased: Seq<char>,
    range: Seq<char>,
    seed: Seq<char>,
    version: Seq<char>,
)
    requires
        alias_parts(seed) == Some((aliased, range)),
    ensures
        range_parses(range) && !version_parses(range) ==> specifier_for(seed, version) == "npm:"@
            + aliased + "@"@ + range,
        !range_parses(range) || version_parses(range) ==> specifier_for(seed, version) == "npm:"@
            + aliased + "@"@ + version,
{
}

proof fn hashes_are(packages: Map<IdModel, PackageModel>, ids: Seq<IdModel>, id: IdModel)
    ensures
        hashes_among(packages, ids).contains_key(id) ==> exists|i: int|
            0 <= i < ids.len() && packages[#[trigger] ids[i]].id == id && packages[ids[i]].integrity
                == hashes_among(packages, ids)[id],
    decreases ids.len(),
{
    if ids.len() > 0 {
        let shorter = ids.drop_last();
        let n = ids.len() - 1;
        hashes_are(packages, shorter, id);
        if packages[ids[n]].id != id && hashes_among(packages, shorter).contains_key(id) {
            let i = choose|i: int|
                0 <= i < shorter.len() && packages[#[trigger] shorter[i]].id == id
                    && packages[shorter[i]].integrity == hashes_among(packages, shorter)[id];
            assert(ids[i] == shorter[i]);
        }
    }
}

/// A sync is refused over a hash only where a package that it came to hashes
/// otherwise than the lockfile records.
pub proof fn hash_mismatches_are_real(locked: Option<GraphModel>, graph: GraphModel)
    requires
        graph.packages.dom().finite(),
        locked_packages(locked).dom().finite(),
        gate_fault(locked, graph) is Some,
    ensures
        exists|id: IdModel, pinned: IdModel|
            {
                &&& #[trigger] graph.packages.contains_key(id)
                &&& #[trigger] locked_packages(locked).contains_key(pinned)
                &&& locked_packages(locked)[pinned].id == id
                &&& locked_packages(locked)[pinned].integrity != graph.packages[id].integrity
            },
{
    let ids = in_order::<PackageId>(graph.packages.dom());
    in_order_lists::<PackageId>(graph.packages.dom());
    let test = mismatched(locked_hashes(locked), graph.packages);
    crate::install_laws::found_somewhere(ids, test);
    let i = choose|i: int| 0 <= i < ids.len() && test(#[trigger] ids[i]) == first_of(ids, test);
    let id = ids[i];
    assert(ids.to_set().contains(id));
    assert(graph.packages.contains_key(id));
    let packages = locked_packages(locked);
    let pins = in_order::<PackageId>(packages.dom());
    in_order_lists::<PackageId>(packages.dom());
    hashes_are(packages, pins, id);
    let k = choose|k: int|
        0 <= k < pins.len() && packages[#[trigger] pins[k]].id == id && packages[pins[k]].integrity
            == hashes_among(packages, pins)[id];
    assert(pins.to_set().contains(pins[k]));
    assert(packages.contains_key(pins[k]));
}

} // verus!
