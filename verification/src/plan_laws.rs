//! A sync that succeeds has a tree to make, and an install that succeeds has
//! something to record.

use vstd::prelude::*;
use crate::graph::{as_declared, platform_graph, GraphModel, ResolutionModel};
use crate::importer::ImporterPath;
use crate::install::{satisfies_request, AskedFor, InstallFault, Mode};
use crate::install_laws::{
    answers_for, declared_with, every_project_is_answered, is_keyed, resolutions_answer,
};
use crate::peer_laws::{is_finite, names_in_graph};
use crate::peer_pass::{copies_for, peers_resolved, renamed};
use crate::planning::{is_plannable, locals_are_members};
use crate::platform::PlatformModel;
use crate::reach_laws::{links_lead_to_members, resolved_graphs_are_reached};
use crate::sorted::in_order;
use crate::sync::{
    combined, declared_of, is_installed, locked_packages, names_of, prepared_for, production_only,
    recording_of, settled, synced, PreparedModel, SyncedModel,
};
use crate::walk::{is_written, resolves_to, Book};
use crate::workspace::{member_named, named_among, MembersModel, WorkspaceModel};

verus! {

/// Does every link that is reused still lead to a member?
pub open spec fn no_link_is_gone(workspace: WorkspaceModel, prepared: PreparedModel) -> bool {
    forall|path: Seq<char>| #[trigger]
        prepared.reused.contains_key(path) ==> locals_are_members(workspace, prepared.reused[path])
}

/// A name that some members are known by is a member's.
proof fn names_are_found(members: MembersModel, paths: Seq<Seq<char>>, name: Seq<char>)
    requires
        names_of(members, paths).contains_key(name),
    ensures
        named_among(members, paths, name) is Some,
    decreases paths.len(),
{
    if paths.len() > 0 {
        let rest = paths.drop_last();
        if names_of(members, rest).contains_key(name) {
            names_are_found(members, rest, name);
        }
    }
}

/// Resolving peers leaves links as they are.
pub proof fn peer_resolution_keeps_links(
    graph: GraphModel,
    levels: nat,
    members: Map<Seq<char>, Seq<char>>,
)
    requires
        peers_resolved(graph, levels) is Some,
        links_lead_to_members(graph.importers, members),
    ensures
        links_lead_to_members((peers_resolved(graph, levels)->0).importers, members),
{
    let resolved = peers_resolved(graph, levels)->0;
    let names = names_in_graph(graph, levels);
    assert forall|path: Seq<char>, name: Seq<char>|
        resolved.importers.contains_key(path) && #[trigger] resolved.importers[path].contains_key(
            name,
        ) && resolved.importers[path][name].resolution is Local implies members.contains_key(name)
        && resolved.importers[path][name].resolution == ResolutionModel::Local(
        crate::importer::path_between(path, members[name]),
    ) by {
        assert(resolved.importers[path] == renamed(
            graph.importers[path],
            copies_for(graph, path),
            names,
        ));
        assert(graph.importers[path].contains_key(name));
    }
}

/// A sync that comes to a graph comes to a tree, unless a project that is
/// reused links a member that is gone.
pub proof fn a_sync_has_a_plan(
    workspace: WorkspaceModel,
    store: Seq<char>,
    locked: Option<GraphModel>,
    request: Option<AskedFor>,
    mode: Mode,
    prepared: PreparedModel,
    resolved: GraphModel,
    graph: GraphModel,
    platform: PlatformModel,
)
    requires
        prepared_for(workspace, locked, request, mode) == Ok::<PreparedModel, InstallFault>(
            prepared,
        ),
        resolved.importers.dom().subset_of(prepared.stale.dom()),
        links_lead_to_members(resolved.importers, prepared.members),
        no_link_is_gone(workspace, prepared),
        settled(prepared, locked, resolved, mode) == Ok::<GraphModel, InstallFault>(graph),
    ensures
        synced(workspace, store, graph, request, mode, platform).plan is Some,
{
    let whole = combined(prepared.reused, locked, resolved);
    let here = platform_graph(graph, platform);
    let paths = in_order::<ImporterPath>(workspace.members.dom());
    assert forall|path: Seq<char>| #[trigger] here.importers.contains_key(
        path,
    ) implies workspace.members.contains_key(path) && locals_are_members(
        workspace,
        here.importers[path],
    ) by {
        assert(whole.importers.contains_key(path));
        let importer = whole.importers[path];
        if resolved.importers.contains_key(path) {
            assert(resolved.importers.dom().contains(path));
            assert(prepared.stale.contains_key(path));
            assert(importer == resolved.importers[path]);
        } else {
            assert(prepared.reused.contains_key(path));
            assert(importer == prepared.reused[path]);
        }
        assert forall|name: Seq<char>| #[trigger]
            importer.contains_key(name) && importer[name].resolution is Local implies member_named(
            workspace,
            name,
        ) is Some by {
            if resolved.importers.contains_key(path) {
                assert(resolved.importers[path].contains_key(name));
                names_are_found(workspace.members, paths, name);
            }
        }
        assert forall|name: Seq<char>| #[trigger]
            here.importers[path].contains_key(name) && here.importers[path][name].resolution is Local
            implies member_named(workspace, name) is Some by {
            if mode == Mode::Production {
                assert(here.importers[path] == production_only(importer));
            }
            assert(importer.contains_key(name));
        }
    }
    assert(is_plannable(here, workspace));
}

/// An install that comes to a graph comes to something to record, and to a
/// manifest to record it in, unless a project that is reused links a member
/// that is gone.
pub proof fn an_install_records(
    workspace: WorkspaceModel,
    store: Seq<char>,
    locked: Option<GraphModel>,
    request: AskedFor,
    prepared: PreparedModel,
    resolved: GraphModel,
    graph: GraphModel,
    platform: PlatformModel,
)
    requires
        prepared_for(workspace, locked, Some(request), Mode::Develop) == Ok::<
            PreparedModel,
            InstallFault,
        >(prepared),
        answers_for(resolved, prepared.stale),
        links_lead_to_members(resolved.importers, prepared.members),
        no_link_is_gone(workspace, prepared),
        is_keyed(locked_packages(locked)),
        settled(prepared, locked, resolved, Mode::Develop) == Ok::<GraphModel, InstallFault>(graph),
    ensures
        recording_of(workspace, graph, Some(request)) is Some,
        synced(workspace, store, graph, Some(request), Mode::Develop, platform).recorded is Some,
        forall|installed|
            #[trigger] is_installed(
                workspace,
                request,
                Ok::<SyncedModel, InstallFault>(
                    synced(workspace, store, graph, Some(request), Mode::Develop, platform),
                ),
                installed,
            ) ==> installed is Ok && (installed->Ok_0).1 is Some,
{
    let path = request.importer;
    let name = request.name;
    let declared = declared_of(workspace.members);
    let paths = in_order::<ImporterPath>(workspace.members.dom());
    every_project_is_answered(workspace, locked, Some(request), prepared, resolved);
    assert(workspace.members.contains_key(path));
    assert(declared.contains_key(path));
    assert(graph.importers.dom().contains(path));
    let importer = graph.importers[path];
    if prepared.reused.contains_key(path) {
        assert(satisfies_request(importer, request));
        assert(prepared.reused[path] == importer);
    } else {
        assert(as_declared(importer).dom() =~= importer.dom());
        assert(declared_with(declared, Some(request))[path].contains_key(name));
        assert(importer.contains_key(name));
        assert(resolved.importers.contains_key(path)) by {
            assert(prepared.stale.contains_key(path));
            assert(resolved.importers.dom().contains(path));
        }
        assert(importer == resolved.importers[path]);
        if importer[name].resolution is Local {
            assert(resolved.importers[path].contains_key(name));
            names_are_found(workspace.members, paths, name);
        }
    }
    assert(importer.contains_key(name));
    assert(importer[name].resolution is Local ==> member_named(workspace, name) is Some);
}

/// What was resolved for an install, its peers resolved, answers what was
/// asked, with every link to a member.
pub proof fn resolutions_suit_a_plan(
    book: Book,
    prepared: PreparedModel,
    source: GraphModel,
    levels: nat,
)
    requires
        prepared.stale.dom().finite(),
        forall|path: Seq<char>| #[trigger]
            prepared.stale.contains_key(path) ==> prepared.stale[path].dom().finite(),
        is_written(book),
        resolves_to(book, prepared.stale, prepared.members, Ok(source)),
        is_finite(source),
        peers_resolved(source, levels) is Some,
    ensures
        answers_for(peers_resolved(source, levels)->0, prepared.stale),
        links_lead_to_members(
            (peers_resolved(source, levels)->0).importers,
            prepared.members,
        ),
{
    resolutions_answer(book, prepared.stale, prepared.members, source, levels);
    resolved_graphs_are_reached(book, prepared.stale, prepared.members, source);
    peer_resolution_keeps_links(source, levels, prepared.members);
}

/// A sync whose resolution succeeded, and whose packages hash to what they
/// should, has a tree to make, unless a project that is reused links a member
/// that is gone.
pub proof fn a_resolved_sync_has_a_plan(
    book: Book,
    workspace: WorkspaceModel,
    store: Seq<char>,
    locked: Option<GraphModel>,
    request: Option<AskedFor>,
    mode: Mode,
    prepared: PreparedModel,
    source: GraphModel,
    levels: nat,
    graph: GraphModel,
    platform: PlatformModel,
)
    requires
        prepared_for(workspace, locked, request, mode) == Ok::<PreparedModel, InstallFault>(
            prepared,
        ),
        prepared.stale.dom().finite(),
        forall|path: Seq<char>| #[trigger]
            prepared.stale.contains_key(path) ==> prepared.stale[path].dom().finite(),
        is_written(book),
        resolves_to(book, prepared.stale, prepared.members, Ok(source)),
        is_finite(source),
        peers_resolved(source, levels) is Some,
        no_link_is_gone(workspace, prepared),
        settled(prepared, locked, peers_resolved(source, levels)->0, mode) == Ok::<
            GraphModel,
            InstallFault,
        >(graph),
    ensures
        synced(workspace, store, graph, request, mode, platform).plan is Some,
{
    resolutions_suit_a_plan(book, prepared, source, levels);
    a_sync_has_a_plan(
        workspace,
        store,
        locked,
        request,
        mode,
        prepared,
        peers_resolved(source, levels)->0,
        graph,
        platform,
    );
}

/// An install whose resolution succeeded, and whose packages hash to what they
/// should, reports what it recorded, with the manifest that records it, unless
/// a project that is reused links a member that is gone.
pub proof fn a_resolved_install_records(
    book: Book,
    workspace: WorkspaceModel,
    store: Seq<char>,
    locked: Option<GraphModel>,
    request: AskedFor,
    prepared: PreparedModel,
    source: GraphModel,
    levels: nat,
    graph: GraphModel,
    platform: PlatformModel,
)
    requires
        prepared_for(workspace, locked, Some(request), Mode::Develop) == Ok::<
            PreparedModel,
            InstallFault,
        >(prepared),
        prepared.stale.dom().finite(),
        forall|path: Seq<char>| #[trigger]
            prepared.stale.contains_key(path) ==> prepared.stale[path].dom().finite(),
        is_written(book),
        resolves_to(book, prepared.stale, prepared.members, Ok(source)),
        is_finite(source),
        peers_resolved(source, levels) is Some,
        no_link_is_gone(workspace, prepared),
        is_keyed(locked_packages(locked)),
        settled(prepared, locked, peers_resolved(source, levels)->0, Mode::Develop) == Ok::<
            GraphModel,
            InstallFault,
        >(graph),
    ensures
        synced(workspace, store, graph, Some(request), Mode::Develop, platform).recorded is Some,
        forall|installed|
            #[trigger] is_installed(
                workspace,
                request,
                Ok::<SyncedModel, InstallFault>(
                    synced(workspace, store, graph, Some(request), Mode::Develop, platform),
                ),
                installed,
            ) ==> installed is Ok && (installed->Ok_0).1 is Some,
{
    resolutions_suit_a_plan(book, prepared, source, levels);
    an_install_records(
        workspace,
        store,
        locked,
        request,
        prepared,
        peers_resolved(source, levels)->0,
        graph,
        platform,
    );
}

} // verus!
