//! What every sync keeps: what an install writes down reads back, an install
//! right after an install has nothing to do, a production install asks for
//! nothing, and no package changes under a lockfile.

use vstd::prelude::*;
use crate::cli::request_text;
use crate::complaints::provided_by;
use crate::copies::Copies;
use crate::copy_laws::resolved_peers_leave_nothing_over;
use crate::graph::{
    as_declared, every_edge, is_root, is_route, reachable_graph, reachable_is_idempotent, reached,
    DeclaredModel, DependencyModel, GraphModel, Importer, ImporterModel, Kind, PackageModel,
    ResolutionModel,
};
use crate::importer::ImporterPath;
use crate::install::{
    already_satisfies, disagreement, importer_disagreement, importer_gone, is_reusable,
    leftover_at, mismatch_at, no_fault_is_agreement, recorded_in, reused_from, satisfies_request,
    AskedFor, InstallFault, Mode, RecordedModel, Request,
};
use crate::json::distinct;
use crate::lock_laws::{all_settled, is_settled, is_storable, locks_read_back, reads_back};
use crate::lockfile::{loaded, lock_of, LockfileFault};
use crate::manifest::{
    adding_changes_one_declaration, declared_in, moving_changes_one_declaration, object_under,
    section_name, ManifestModel,
};
use crate::package_id::{plain_id, IdModel, PackageId};
use crate::peer_laws::{
    are_apart, copies_in_graph, edges_end_inside, is_finite, names_in_graph,
    peer_resolution_keeps_declarations, peer_resolution_keeps_graphs_whole,
};
use crate::peer_lock_laws::{
    is_plain_graph, is_resolved_from, links_are_no_packages, peer_resolved_locks_read_back,
};
use crate::peer_pass::{copies_for, discovered_roots, named_roots, peers_resolved};
use crate::settle_laws::{goes_round, names_without_loops_are_whole};
use crate::sorted::{first_of, in_order, in_order_lists, nothing_found};
use crate::sync::{
    combined, declared_of, empty_graph, hashes_among, listed, locked_hashes, locked_packages,
    manifest_after, mismatched, narrowed, needs_resolving, prepared_for, production_only,
    recording_of, section_asked, settled, versions_in, with_specifier, PreparedModel,
};
use crate::walk::{resolves_to, Book, Roots};
use crate::walk_laws::{resolved_graphs_are_closed, resolved_graphs_record_what_was_declared};
use crate::workspace::{MemberModel, WorkspaceModel};

verus! {

proof fn nothing_at<K: crate::order::Key, T>(
    keys: Set<K::V>,
    test: spec_fn(K::V) -> Option<T>,
    key: K::V,
)
    requires
        keys.finite(),
        keys.contains(key),
        first_of(in_order::<K>(keys), test) is None,
    ensures
        test(key) is None,
{
    let listing = in_order::<K>(keys);
    in_order_lists::<K>(keys);
    assert(listing.to_set().contains(key));
    let i = listing.index_of(key);
    nothing_found(listing, test, i);
}

/// A lockfile that agrees with the manifests records exactly what each project
/// declares.
pub proof fn agreement_is_exact(locked: GraphModel, declared: Roots, path: Seq<char>)
    requires
        declared.dom().finite(),
        declared[path].dom().finite(),
        recorded_in(locked, path).dom().finite(),
        declared.contains_key(path),
        disagreement(locked, declared) is None,
    ensures
        as_declared(recorded_in(locked, path)) == declared[path],
{
    nothing_at::<ImporterPath, InstallFault>(
        declared.dom(),
        importer_disagreement(locked, declared),
        path,
    );
    no_fault_is_agreement(path, recorded_in(locked, path), declared[path]);
}

/// A production sync has nothing to ask: what is left to resolve, once its
/// lockfile was found to match, are projects that declare nothing.
pub proof fn production_asks_for_nothing(
    workspace: WorkspaceModel,
    locked: Option<GraphModel>,
    path: Seq<char>,
)
    requires
        workspace.members.dom().finite(),
        forall|p: Seq<char>| #[trigger] declared_of(workspace.members).contains_key(p)
            ==> declared_of(workspace.members)[p].dom().finite(),
        locked is Some ==> forall|p: Seq<char>| #[trigger]
            (locked->0).importers.contains_key(p) ==> (locked->0).importers[p].dom().finite(),
        prepared_for(workspace, locked, None, Mode::Production) is Ok,
        (prepared_for(workspace, locked, None, Mode::Production)->Ok_0).stale.contains_key(path),
    ensures
        (prepared_for(workspace, locked, None, Mode::Production)->Ok_0).stale[path] == Map::<
            Seq<char>,
            DeclaredModel,
        >::empty(),
{
    let declared = declared_of(workspace.members);
    let lock = locked->0;
    assert(declared.dom() =~= workspace.members.dom());
    agreement_is_exact(lock, declared, path);
    if lock.importers.contains_key(path) {
        assert(is_reusable(lock, declared, None, path));
        assert(reused_from(locked, declared, None).contains_key(path));
    } else {
        assert(as_declared(recorded_in(lock, path)) =~= Map::<Seq<char>, DeclaredModel>::empty());
    }
}

/// A production sync takes production dependencies, and nothing else.
pub proof fn production_takes_production_dependencies(
    graph: GraphModel,
    path: Seq<char>,
    name: Seq<char>,
)
    requires
        narrowed(graph, Mode::Production).importers.contains_key(path),
    ensures
        narrowed(graph, Mode::Production).importers[path].contains_key(name) <==> {
            &&& graph.importers[path].contains_key(name)
            &&& graph.importers[path][name].kind == Kind::Prod
        },
{
}

/// A sync lists each version that it linked once, however many copies of it
/// there are.
pub proof fn versions_are_listed_once(packages: Map<IdModel, PackageModel>)
    requires
        packages.dom().finite(),
    ensures
        listed(in_order::<PackageId>(versions_in(packages))).no_duplicates(),
{
    let versions = versions_in(packages);
    let plain = |copy: IdModel| plain_id(copy.name, copy.version);
    assert(versions =~= packages.dom().map(plain)) by {
        assert forall|id: IdModel| versions.contains(id) implies packages.dom().map(plain).contains(
            id,
        ) by {
            let copy = choose|copy: IdModel| #[trigger]
                packages.contains_key(copy) && id == plain_id(copy.name, copy.version);
            assert(packages.dom().contains(copy) && plain(copy) == id);
        }
    }
    packages.dom().lemma_map_finite(plain);
    let ids = in_order::<PackageId>(versions);
    in_order_lists::<PackageId>(versions);
    let list = listed(ids);
    assert forall|i: int, j: int| 0 <= i < list.len() && 0 <= j < list.len() && i != j implies list[i]
        != list[j] by {
        assert(versions.contains(ids[i])) by {
            assert(ids.to_set().contains(ids[i]));
        }
        assert(versions.contains(ids[j])) by {
            assert(ids.to_set().contains(ids[j]));
        }
        assert(ids[i] != ids[j]);
    }
}

/// Fewer edges lead no further, and edges between packages that are kept
/// lead as far.
proof fn pruned_routes_agree(whole: GraphModel, kept: GraphModel, fewer: GraphModel, id: IdModel)
    requires
        kept == reachable_graph(whole),
        forall|x: IdModel| #[trigger]
            is_root(fewer.importers, x) ==> is_root(whole.importers, x),
        fewer.packages == whole.packages,
    ensures
        (kept.packages.contains_key(id) && reached(fewer.importers, every_edge(kept.packages), id))
            <==> (fewer.packages.contains_key(id) && reached(
            fewer.importers,
            every_edge(fewer.packages),
            id,
        )),
{
    let all = every_edge(whole.packages);
    let some = every_edge(kept.packages);
    if kept.packages.contains_key(id) && reached(fewer.importers, some, id) {
        let route = choose|route: Seq<IdModel>|
            is_route(fewer.importers, some, route) && route.last() == id;
        assert forall|i: int| 0 <= i < route.len() - 1 implies all(
            #[trigger] route[i],
            route[i + 1],
        ) by {
            assert(some(route[i], route[i + 1]));
            let name = choose|name: Seq<char>| #[trigger]
                kept.packages[route[i]].dependencies.contains_key(name)
                    && kept.packages[route[i]].dependencies[name] == route[i + 1];
            assert(whole.packages[route[i]].dependencies.contains_key(name));
        }
        assert(is_route(fewer.importers, all, route));
    }
    if fewer.packages.contains_key(id) && reached(fewer.importers, all, id) {
        let route = choose|route: Seq<IdModel>|
            is_route(fewer.importers, all, route) && route.last() == id;
        assert forall|i: int| 0 <= i < route.len() implies reached(
            whole.importers,
            all,
            #[trigger] route[i],
        ) by {
            let part = route.take(i + 1);
            assert forall|j: int| 0 <= j < part.len() - 1 implies all(
                #[trigger] part[j],
                part[j + 1],
            ) by {
                assert(part[j] == route[j] && part[j + 1] == route[j + 1]);
            }
            assert(is_route(whole.importers, all, part));
            assert(part.last() == route[i]);
        }
        assert forall|i: int| 0 <= i < route.len() - 1 implies some(
            #[trigger] route[i],
            route[i + 1],
        ) by {
            assert(all(route[i], route[i + 1]));
            let name = choose|name: Seq<char>| #[trigger]
                whole.packages[route[i]].dependencies.contains_key(name)
                    && whole.packages[route[i]].dependencies[name] == route[i + 1];
            assert(reached(whole.importers, all, route[i]));
            assert(kept.packages.contains_key(route[i]));
            assert(kept.packages[route[i]].dependencies.contains_key(name));
        }
        assert(is_route(fewer.importers, some, route));
        assert(reached(whole.importers, all, route[route.len() - 1]));
    }
}

/// A production sync comes to the packages of its lockfile that production
/// dependencies lead to, and no others.
pub proof fn production_takes_what_the_lockfile_records(
    workspace: WorkspaceModel,
    locked: GraphModel,
    prepared: PreparedModel,
    resolved: GraphModel,
    graph: GraphModel,
)
    requires
        workspace.members.dom().finite(),
        locked.importers.dom().finite(),
        forall|p: Seq<char>| #[trigger] declared_of(workspace.members).contains_key(p)
            ==> declared_of(workspace.members)[p].dom().finite(),
        forall|p: Seq<char>| #[trigger]
            locked.importers.contains_key(p) ==> locked.importers[p].dom().finite(),
        prepared_for(workspace, Some(locked), None, Mode::Production) == Ok::<
            PreparedModel,
            InstallFault,
        >(prepared),
        answers_for(resolved, prepared.stale),
        resolved.packages == Map::<IdModel, PackageModel>::empty(),
        settled(prepared, Some(locked), resolved, Mode::Production) == Ok::<
            GraphModel,
            InstallFault,
        >(graph),
    ensures
        graph.packages == reachable_graph(
            GraphModel {
                importers: locked.importers.map_values(
                    |importer: ImporterModel| production_only(importer),
                ),
                packages: locked.packages,
            },
        ).packages,
{
    let declared = declared_of(workspace.members);
    assert(declared.dom() =~= workspace.members.dom());
    assert forall|path: Seq<char>| #[trigger] locked.importers.contains_key(path) implies
        prepared.reused.contains_key(path) && prepared.reused[path] == locked.importers[path] by {
        nothing_at::<ImporterPath, InstallFault>(
            locked.importers.dom(),
            importer_gone(declared),
            path,
        );
        agreement_is_exact(locked, declared, path);
        assert(is_reusable(locked, declared, None, path));
    }
    assert(prepared.reused =~= locked.importers);
    let importers = prepared.reused.union_prefer_right(resolved.importers);
    assert forall|path: Seq<char>| #[trigger] resolved.importers.contains_key(path) implies
        resolved.importers[path] == Map::<Seq<char>, DependencyModel>::empty()
        && !locked.importers.contains_key(path) by {
        assert(resolved.importers.dom().contains(path));
        assert(prepared.stale.contains_key(path));
        production_asks_for_nothing(workspace, Some(locked), path);
        assert(as_declared(resolved.importers[path]).dom() =~= resolved.importers[path].dom());
        assert(resolved.importers[path] =~= Map::<Seq<char>, DependencyModel>::empty());
    }
    assert(locked.packages.union_prefer_right(resolved.packages) =~= locked.packages);
    let whole = GraphModel { importers, packages: locked.packages };
    let kept = combined(prepared.reused, Some(locked), resolved);
    assert(kept == reachable_graph(whole));
    let first = importers.map_values(|importer: ImporterModel| production_only(importer));
    let second = locked.importers.map_values(
        |importer: ImporterModel| production_only(importer),
    );
    assert forall|x: IdModel| #[trigger] is_root(first, x) implies is_root(importers, x)
        && is_root(second, x) by {
        let (p, n) = choose|p: Seq<char>, n: Seq<char>|
            first.contains_key(p) && #[trigger] first[p].contains_key(n) && first[p][n].resolution
                == ResolutionModel::Registry(x);
        assert(importers[p].contains_key(n));
        if resolved.importers.contains_key(p) {
            assert(importers[p] == resolved.importers[p]);
        }
        assert(second.contains_key(p) && second[p].contains_key(n));
        assert(importers.contains_key(p) && importers[p].contains_key(n)
            && importers[p][n].resolution == ResolutionModel::Registry(x));
    }
    assert forall|x: IdModel| #[trigger] is_root(second, x) implies is_root(first, x) by {
        let (p, n) = choose|p: Seq<char>, n: Seq<char>|
            second.contains_key(p) && #[trigger] second[p].contains_key(n)
                && second[p][n].resolution == ResolutionModel::Registry(x);
        assert(locked.importers.contains_key(p));
        assert(!resolved.importers.contains_key(p));
        assert(first.contains_key(p) && first[p].contains_key(n));
    }
    let fewer = GraphModel { importers: second, packages: locked.packages };
    assert forall|x: IdModel| #[trigger] is_root(second, x) implies is_root(importers, x) by {
        assert(is_root(first, x));
    }
    assert forall|id: IdModel| graph.packages.contains_key(id) == reachable_graph(
        fewer,
    ).packages.contains_key(id) by {
        pruned_routes_agree(whole, kept, fewer, id);
        same_roots_reach_alike(first, second, every_edge(kept.packages), id);
    }
    assert(graph.packages =~= reachable_graph(fewer).packages);
}

/// Where the same packages are roots, the same are reached.
proof fn same_roots_reach_alike(
    a: Map<Seq<char>, ImporterModel>,
    b: Map<Seq<char>, ImporterModel>,
    edge: spec_fn(IdModel, IdModel) -> bool,
    id: IdModel,
)
    requires
        forall|x: IdModel| #[trigger] is_root(a, x) ==> is_root(b, x),
        forall|x: IdModel| #[trigger] is_root(b, x) ==> is_root(a, x),
    ensures
        reached(a, edge, id) == reached(b, edge, id),
{
    if reached(a, edge, id) {
        let route = choose|route: Seq<IdModel>|
            is_route(a, edge, route) && route.last() == id;
        assert(is_route(b, edge, route));
    }
    if reached(b, edge, id) {
        let route = choose|route: Seq<IdModel>|
            is_route(b, edge, route) && route.last() == id;
        assert(is_route(a, edge, route));
    }
}

/// Is each package of a graph recorded under its own identity?
pub open spec fn is_keyed(packages: Map<IdModel, PackageModel>) -> bool {
    forall|id: IdModel| #[trigger] packages.contains_key(id) ==> packages[id].id == id
}

proof fn hashes_of_keyed(packages: Map<IdModel, PackageModel>, ids: Seq<IdModel>, id: IdModel)
    requires
        forall|i: int| 0 <= i < ids.len() ==> packages.contains_key(#[trigger] ids[i]),
        is_keyed(packages),
    ensures
        hashes_among(packages, ids).contains_key(id) <==> ids.contains(id),
        ids.contains(id) ==> hashes_among(packages, ids)[id] == packages[id].integrity,
    decreases ids.len(),
{
    if ids.len() > 0 {
        let shorter = ids.drop_last();
        assert forall|i: int| 0 <= i < shorter.len() implies packages.contains_key(
            #[trigger] shorter[i],
        ) by {
            assert(shorter[i] == ids[i]);
        }
        hashes_of_keyed(packages, shorter, id);
        let last = ids[ids.len() - 1];
        assert(packages.contains_key(last));
        assert(packages[last].id == last);
        assert(ids.contains(last));
        if shorter.contains(id) {
            let k = shorter.index_of(id);
            assert(ids[k] == id);
        }
        if ids.contains(id) && id != last {
            let k = ids.index_of(id);
            assert(shorter[k] == id);
        }
    }
}

proof fn locked_hash_of(locked: GraphModel, id: IdModel)
    requires
        locked.packages.dom().finite(),
        is_keyed(locked.packages),
    ensures
        locked_hashes(Some(locked)).contains_key(id) <==> locked.packages.contains_key(id),
        locked.packages.contains_key(id) ==> locked_hashes(Some(locked))[id]
            == locked.packages[id].integrity,
{
    let ids = in_order::<PackageId>(locked.packages.dom());
    in_order_lists::<PackageId>(locked.packages.dom());
    assert forall|i: int| 0 <= i < ids.len() implies locked.packages.contains_key(
        #[trigger] ids[i],
    ) by {
        assert(ids.to_set().contains(ids[i]));
    }
    hashes_of_keyed(locked.packages, ids, id);
    assert(ids.contains(id) <==> ids.to_set().contains(id));
}

/// A package that a lockfile records hashes to what it records, or the sync is
/// refused: nothing changes under a version that was pinned.
pub proof fn locked_packages_do_not_change(
    prepared: PreparedModel,
    locked: GraphModel,
    resolved: GraphModel,
    mode: Mode,
    id: IdModel,
)
    requires
        locked.packages.dom().finite(),
        is_keyed(locked.packages),
        settled(prepared, Some(locked), resolved, mode) is Ok,
        (settled(prepared, Some(locked), resolved, mode)->Ok_0).packages.dom().finite(),
        (settled(prepared, Some(locked), resolved, mode)->Ok_0).packages.contains_key(id),
        locked.packages.contains_key(id),
    ensures
        (settled(prepared, Some(locked), resolved, mode)->Ok_0).packages[id].integrity
            == locked.packages[id].integrity,
{
    let graph = settled(prepared, Some(locked), resolved, mode)->Ok_0;
    locked_hash_of(locked, id);
    nothing_at::<PackageId, InstallFault>(
        graph.packages.dom(),
        mismatched(locked_hashes(Some(locked)), graph.packages),
        id,
    );
}

/// Does a graph answer for what some projects declare, and for nothing else?
pub open spec fn answers_for(graph: GraphModel, roots: Roots) -> bool {
    &&& graph.importers.dom() == roots.dom()
    &&& forall|path: Seq<char>| #[trigger]
        roots.contains_key(path) ==> as_declared(graph.importers[path]) == roots[path]
    &&& is_keyed(graph.packages)
}

/// What is resolved answers for what was asked, its peers resolved or not.
pub proof fn resolutions_answer(
    book: Book,
    roots: Roots,
    members: Map<Seq<char>, Seq<char>>,
    graph: GraphModel,
    levels: nat,
)
    requires
        roots.dom().finite(),
        forall|path: Seq<char>| #[trigger]
            roots.contains_key(path) ==> roots[path].dom().finite(),
        is_finite(graph),
        resolves_to(book, roots, members, Ok(graph)),
        peers_resolved(graph, levels) is Some,
    ensures
        answers_for(peers_resolved(graph, levels)->0, roots),
{
    let resolved = peers_resolved(graph, levels)->0;
    resolved_graphs_record_what_was_declared(book, roots, members, graph);
    resolved_graphs_are_closed(book, roots, members, graph);
    assert(edges_end_inside(graph));
    peer_resolution_keeps_graphs_whole(graph, levels);
    assert forall|path: Seq<char>| #[trigger] roots.contains_key(path) implies as_declared(
        resolved.importers[path],
    ) == roots[path] by {
        peer_resolution_keeps_declarations(graph, levels, path);
    }
    assert(resolved.importers.dom() =~= roots.dom()) by {
        assert forall|path: Seq<char>| resolved.importers.contains_key(path)
            == roots.contains_key(path) by {
            if roots.contains_key(path) {
                peer_resolution_keeps_declarations(graph, levels, path);
            }
            if resolved.importers.contains_key(path) {
                assert(graph.importers.contains_key(path));
            }
        }
    }
}

/// What the projects of a workspace declare, with a request among it.
pub open spec fn declared_with(declared: Roots, request: Option<AskedFor>) -> Roots {
    match request {
        Some(request) => {
            let declares = declared[request.importer];
            declared.insert(
                request.importer,
                declares.insert(
                    request.name,
                    DeclaredModel {
                        specifier: request_text(request.seed),
                        kind: section_asked(declares, request),
                    },
                ),
            )
        },
        None => declared,
    }
}

/// A graph holds a package under its own identity, if what it was put together
/// from does.
proof fn stays_keyed(
    reused: Map<Seq<char>, ImporterModel>,
    locked: Option<GraphModel>,
    resolved: GraphModel,
)
    requires
        is_keyed(resolved.packages),
        is_keyed(locked_packages(locked)),
    ensures
        is_keyed(combined(reused, locked, resolved).packages),
{
    let packages = combined(reused, locked, resolved).packages;
    assert forall|id: IdModel| #[trigger] packages.contains_key(id) implies packages[id].id == id by {
        if resolved.packages.contains_key(id) {
            assert(resolved.packages[id].id == id);
        } else {
            assert(locked_packages(locked).contains_key(id));
        }
    }
}

/// What every project is answered with: what the lockfile records, where it is
/// reused, and what was resolved, where it is not.
pub proof fn every_project_is_answered(
    workspace: WorkspaceModel,
    locked: Option<GraphModel>,
    request: Option<AskedFor>,
    prepared: PreparedModel,
    resolved: GraphModel,
)
    requires
        prepared_for(workspace, locked, request, Mode::Develop) == Ok::<
            PreparedModel,
            InstallFault,
        >(prepared),
        answers_for(resolved, prepared.stale),
        is_keyed(locked_packages(locked)),
    ensures
        ({
            let graph = combined(prepared.reused, locked, resolved);
            let declared = declared_of(workspace.members);
            &&& graph.importers.dom() == declared.dom()
            &&& is_keyed(graph.packages)
            &&& forall|path: Seq<char>| #[trigger]
                declared.contains_key(path) ==> if prepared.reused.contains_key(path) {
                    graph.importers[path] == (locked->0).importers[path] && is_reusable(
                        locked->0,
                        declared,
                        request,
                        path,
                    )
                } else {
                    as_declared(graph.importers[path]) == declared_with(declared, request)[path]
                }
        }),
{
    let declared = declared_of(workspace.members);
    let graph = combined(prepared.reused, locked, resolved);
    stays_keyed(prepared.reused, locked, resolved);
    if let Some(request) = request {
        assert(workspace.members.contains_key(request.importer));
        assert(declared.contains_key(request.importer));
    }
    assert forall|path: Seq<char>| #[trigger] declared.contains_key(
        path,
    ) implies graph.importers.contains_key(path) && if prepared.reused.contains_key(path) {
        graph.importers[path] == (locked->0).importers[path] && is_reusable(
            locked->0,
            declared,
            request,
            path,
        )
    } else {
        as_declared(graph.importers[path]) == declared_with(declared, request)[path]
    } by {
        if prepared.reused.contains_key(path) {
            assert(!prepared.stale.contains_key(path));
            assert(!resolved.importers.dom().contains(path));
        } else {
            assert(prepared.stale.contains_key(path));
            assert(resolved.importers.dom().contains(path));
            assert(prepared.stale[path] == declared_with(declared, request)[path]);
        }
    }
    assert forall|path: Seq<char>| graph.importers.contains_key(
        path,
    ) implies declared.contains_key(path) by {
        if resolved.importers.contains_key(path) {
            assert(resolved.importers.dom().contains(path));
            assert(prepared.stale.contains_key(path));
        } else {
            assert(prepared.reused.contains_key(path));
        }
    }
    assert(graph.importers.dom() =~= declared.dom());
}

/// A lockfile that answers for what every project declares leaves nothing to
/// do: a sync asks for nothing and comes to the same graph.
pub proof fn an_answer_to_everything_is_kept(workspace: WorkspaceModel, graph: GraphModel)
    requires
        answers_for(graph, declared_of(workspace.members)),
        reachable_graph(graph) == graph,
        graph.packages.dom().finite(),
    ensures
        ({
            let again = prepared_for(workspace, Some(graph), None, Mode::Develop);
            &&& again is Ok
            &&& !needs_resolving(again->Ok_0, Some(graph))
            &&& settled(again->Ok_0, Some(graph), empty_graph(), Mode::Develop) == Ok::<
                GraphModel,
                InstallFault,
            >(graph)
        }),
{
    let declared = declared_of(workspace.members);
    let again = prepared_for(workspace, Some(graph), None, Mode::Develop)->Ok_0;
    assert forall|path: Seq<char>| #[trigger] graph.importers.contains_key(
        path,
    ) implies is_reusable(graph, declared, None, path) by {
        assert(declared.dom().contains(path));
        assert(declared.contains_key(path));
    }
    assert(again.reused =~= graph.importers);
    assert forall|path: Seq<char>| !again.stale.contains_key(path) by {
        if again.stale.contains_key(path) {
            assert(declared.dom().contains(path));
            assert(graph.importers.dom().contains(path));
        }
    }
    assert(again.stale =~= Map::<Seq<char>, Map<Seq<char>, DeclaredModel>>::empty());
    assert(again.reused.union_prefer_right(empty_graph().importers) =~= graph.importers);
    assert(graph.packages.union_prefer_right(empty_graph().packages) =~= graph.packages);
    let test = mismatched(locked_hashes(Some(graph)), graph.packages);
    let ids = in_order::<PackageId>(graph.packages.dom());
    in_order_lists::<PackageId>(graph.packages.dom());
    assert forall|i: int| 0 <= i < ids.len() implies test(#[trigger] ids[i]) is None by {
        assert(ids.to_set().contains(ids[i]));
        locked_hash_of(graph, ids[i]);
    }
    nothing_to_find(ids, test);
}

/// A lockfile that answers for what every project declares is one that a
/// production sync accepts.
pub proof fn an_answer_to_everything_suits_production(workspace: WorkspaceModel, graph: GraphModel)
    requires
        answers_for(graph, declared_of(workspace.members)),
        workspace.members.dom().finite(),
        forall|path: Seq<char>| #[trigger]
            graph.importers.contains_key(path) ==> graph.importers[path].dom().finite(),
    ensures
        prepared_for(workspace, Some(graph), None, Mode::Production) is Ok,
{
    let declared = declared_of(workspace.members);
    assert(declared.dom() =~= workspace.members.dom());
    let paths = in_order::<ImporterPath>(declared.dom());
    in_order_lists::<ImporterPath>(declared.dom());
    let test = importer_disagreement(graph, declared);
    assert forall|i: int| 0 <= i < paths.len() implies test(#[trigger] paths[i]) is None by {
        let path = paths[i];
        assert(paths.to_set().contains(path));
        assert(declared.contains_key(path));
        assert(graph.importers.dom().contains(path));
        let recorded = recorded_in(graph, path);
        let declares = declared[path];
        assert(as_declared(recorded) == declares);
        assert(as_declared(recorded).dom() =~= recorded.dom());
        let names = in_order::<String>(declares.dom());
        in_order_lists::<String>(declares.dom());
        assert forall|k: int| 0 <= k < names.len() implies mismatch_at(path, recorded, declares)(
            #[trigger] names[k],
        ) is None by {
            assert(names.to_set().contains(names[k]));
            assert(as_declared(recorded)[names[k]] == declares[names[k]]);
        }
        nothing_to_find(names, mismatch_at(path, recorded, declares));
        assert forall|k: int| 0 <= k < names.len() implies leftover_at(path, recorded, declares)(
            #[trigger] names[k],
        ) is None by {
            assert(names.to_set().contains(names[k]));
        }
        nothing_to_find(names, leftover_at(path, recorded, declares));
    }
    nothing_to_find(paths, test);
    assert forall|i: int| 0 <= i < paths.len() implies importer_gone(declared)(
        #[trigger] paths[i],
    ) is None by {
        assert(paths.to_set().contains(paths[i]));
    }
    nothing_to_find(paths, importer_gone(declared));
}

/// An install right after an install has nothing to do: what one sync came to
/// is, as a lockfile, the answer to every question of the next, which comes to
/// the same graph without asking anything.
pub proof fn a_second_sync_changes_nothing(
    workspace: WorkspaceModel,
    locked: Option<GraphModel>,
    prepared: PreparedModel,
    resolved: GraphModel,
    graph: GraphModel,
)
    requires
        prepared_for(workspace, locked, None, Mode::Develop) == Ok::<PreparedModel, InstallFault>(
            prepared,
        ),
        answers_for(resolved, prepared.stale),
        is_keyed(locked_packages(locked)),
        settled(prepared, locked, resolved, Mode::Develop) == Ok::<GraphModel, InstallFault>(graph),
        graph.packages.dom().finite(),
    ensures
        answers_for(graph, declared_of(workspace.members)),
        ({
            let again = prepared_for(workspace, Some(graph), None, Mode::Develop);
            &&& again is Ok
            &&& !needs_resolving(again->Ok_0, Some(graph))
            &&& settled(again->Ok_0, Some(graph), empty_graph(), Mode::Develop) == Ok::<
                GraphModel,
                InstallFault,
            >(graph)
        }),
{
    let declared = declared_of(workspace.members);
    every_project_is_answered(workspace, locked, None, prepared, resolved);
    assert forall|path: Seq<char>| #[trigger] declared.contains_key(path) implies as_declared(
        graph.importers[path],
    ) == declared[path] by {}
    reachable_is_idempotent(
        GraphModel {
            importers: prepared.reused.union_prefer_right(resolved.importers),
            packages: locked_packages(locked).union_prefer_right(resolved.packages),
        },
    );
    an_answer_to_everything_is_kept(workspace, graph);
}

/// A workspace with one project's manifest written anew.
pub open spec fn workspace_with(
    workspace: WorkspaceModel,
    path: Seq<char>,
    manifest: ManifestModel,
) -> WorkspaceModel {
    WorkspaceModel {
        members: workspace.members.insert(
            path,
            MemberModel { manifest, ..workspace.members[path] },
        ),
        ..workspace
    }
}

/// Are the names that a manifest declares dependencies under all different?
pub open spec fn is_readable(manifest: ManifestModel) -> bool {
    &&& distinct(manifest.members)
    &&& distinct(object_under(manifest.members, section_name(Kind::Prod)))
    &&& distinct(object_under(manifest.members, section_name(Kind::Dev)))
}

/// Another specifier leads to the same packages.
proof fn specifiers_lead_nowhere_else(
    graph: GraphModel,
    path: Seq<char>,
    name: Seq<char>,
    specifier: Seq<char>,
)
    requires
        graph.importers.contains_key(path),
        graph.importers[path].contains_key(name),
        reachable_graph(graph) == graph,
    ensures
        ({
            let lock = with_specifier(graph, path, name, specifier);
            reachable_graph(lock) == lock
        }),
{
    let lock = with_specifier(graph, path, name, specifier);
    assert forall|id: IdModel| is_root(graph.importers, id) implies is_root(
        lock.importers,
        id,
    ) by {
        let (p, n) = choose|p: Seq<char>, n: Seq<char>|
            graph.importers.contains_key(p) && #[trigger] graph.importers[p].contains_key(n)
                && graph.importers[p][n].resolution == ResolutionModel::Registry(id);
        assert(lock.importers.contains_key(p) && lock.importers[p].contains_key(n)
            && lock.importers[p][n].resolution == ResolutionModel::Registry(id));
    }
    let edge = every_edge(graph.packages);
    assert forall|id: IdModel| graph.packages.contains_key(id) implies reached(
        lock.importers,
        edge,
        id,
    ) by {
        assert(reachable_graph(graph).packages.contains_key(id));
        let route = choose|route: Seq<IdModel>|
            is_route(graph.importers, edge, route) && route.last() == id;
        assert(is_route(lock.importers, edge, route));
    }
    assert(reachable_graph(lock).packages =~= lock.packages);
}

/// What a request is recorded as in the manifest is what it is recorded as in
/// the lockfile: an install after it has nothing to do, and a production
/// install accepts the lockfile.
pub proof fn a_recorded_request_is_settled(
    workspace: WorkspaceModel,
    locked: Option<GraphModel>,
    request: AskedFor,
    prepared: PreparedModel,
    resolved: GraphModel,
    graph: GraphModel,
    recorded: RecordedModel,
)
    requires
        prepared_for(workspace, locked, Some(request), Mode::Develop) == Ok::<
            PreparedModel,
            InstallFault,
        >(prepared),
        answers_for(resolved, prepared.stale),
        is_keyed(locked_packages(locked)),
        settled(prepared, locked, resolved, Mode::Develop) == Ok::<GraphModel, InstallFault>(graph),
        recording_of(workspace, graph, Some(request)) == Some(recorded),
        is_readable(workspace.members[request.importer].manifest),
        workspace.members.dom().finite(),
        graph.packages.dom().finite(),
        forall|path: Seq<char>| #[trigger]
            graph.importers.contains_key(path) ==> graph.importers[path].dom().finite(),
    ensures
        ({
            let lock = with_specifier(graph, request.importer, recorded.name, recorded.specifier);
            let after = workspace_with(
                workspace,
                request.importer,
                manifest_after(
                    workspace.members[request.importer].manifest,
                    recorded,
                    request.kind,
                ),
            );
            let again = prepared_for(after, Some(lock), None, Mode::Develop);
            &&& answers_for(lock, declared_of(after.members))
            &&& again is Ok
            &&& !needs_resolving(again->Ok_0, Some(lock))
            &&& settled(again->Ok_0, Some(lock), empty_graph(), Mode::Develop) == Ok::<
                GraphModel,
                InstallFault,
            >(lock)
            &&& prepared_for(after, Some(lock), None, Mode::Production) is Ok
        }),
{
    let path = request.importer;
    let declared = declared_of(workspace.members);
    let manifest = workspace.members[path].manifest;
    let lock = with_specifier(graph, path, recorded.name, recorded.specifier);
    let written = manifest_after(manifest, recorded, request.kind);
    let after = workspace_with(workspace, path, written);
    let declares = declared[path];
    every_project_is_answered(workspace, locked, Some(request), prepared, resolved);
    assert(declared.contains_key(path));
    assert(graph.importers.dom().contains(path));
    let before = graph.importers[path];
    let entry = DeclaredModel { specifier: recorded.specifier, kind: recorded.kind };
    assert(as_declared(before).dom() =~= before.dom());
    assert(as_declared(before)[request.name].kind == recorded.kind);
    assert(recorded.kind == section_asked(declares, request));
    assert(as_declared(before).insert(request.name, entry) =~= declares.insert(request.name, entry));
    assert(as_declared(lock.importers[path]) =~= as_declared(before).insert(request.name, entry));
    match request.kind {
        Some(_) => {
            moving_changes_one_declaration(
                manifest.members,
                recorded.name,
                recorded.specifier,
                recorded.kind,
            );
        },
        None => {
            adding_changes_one_declaration(
                manifest.members,
                recorded.name,
                recorded.specifier,
                recorded.kind,
            );
        },
    }
    assert(declared_in(written.members) == declares.insert(request.name, entry));
    let declared_after = declared_of(after.members);
    assert(declared_after =~= declared.insert(path, declares.insert(request.name, entry)));
    assert forall|p: Seq<char>| #[trigger] declared_after.contains_key(p) implies as_declared(
        lock.importers[p],
    ) == declared_after[p] by {
        assert(declared.contains_key(p));
    }
    assert(lock.importers.dom() =~= declared_after.dom());
    reachable_is_idempotent(
        GraphModel {
            importers: prepared.reused.union_prefer_right(resolved.importers),
            packages: locked_packages(locked).union_prefer_right(resolved.packages),
        },
    );
    specifiers_lead_nowhere_else(graph, path, recorded.name, recorded.specifier);
    an_answer_to_everything_is_kept(after, lock);
    assert(after.members.dom() =~= workspace.members.dom());
    an_answer_to_everything_suits_production(after, lock);
}

/// Do two graphs have the same packages, and projects that provide the same?
spec fn provide_alike(a: GraphModel, b: GraphModel) -> bool {
    &&& a.packages == b.packages
    &&& a.importers.dom() == b.importers.dom()
    &&& forall|path: Seq<char>| #[trigger]
        a.importers.contains_key(path) ==> provided_by(a.importers[path]) == provided_by(
            b.importers[path],
        )
}

proof fn copies_are_found_alike(
    a: GraphModel,
    b: GraphModel,
    paths: Seq<Seq<char>>,
    levels: nat,
    copies: Copies,
)
    requires
        provide_alike(a, b),
        forall|i: int| 0 <= i < paths.len() ==> a.importers.contains_key(#[trigger] paths[i]),
    ensures
        discovered_roots(a, paths, levels) == discovered_roots(b, paths, levels),
        named_roots(a, copies, paths) == named_roots(b, copies, paths),
    decreases paths.len(),
{
    if paths.len() > 0 {
        let rest = paths.drop_last();
        assert forall|i: int| 0 <= i < rest.len() implies a.importers.contains_key(
            #[trigger] rest[i],
        ) by {
            assert(rest[i] == paths[i]);
        }
        copies_are_found_alike(a, b, rest, levels, copies);
        assert(a.importers.contains_key(paths[paths.len() - 1]));
        assert(copies_for(a, paths.last()) == copies_for(b, paths.last()));
    }
}

/// Peers are resolved without a look at what a specifier says.
proof fn specifiers_do_not_decide_peers(
    graph: GraphModel,
    source: GraphModel,
    levels: nat,
    path: Seq<char>,
    name: Seq<char>,
    specifier: Seq<char>,
)
    requires
        is_resolved_from(graph, source, levels),
        graph.importers.contains_key(path),
        graph.importers[path].contains_key(name),
    ensures
        is_resolved_from(
            with_specifier(graph, path, name, specifier),
            with_specifier(source, path, name, specifier),
            levels,
        ),
{
    let before = with_specifier(source, path, name, specifier);
    let after = with_specifier(graph, path, name, specifier);
    let paths = in_order::<ImporterPath>(source.importers.dom());
    in_order_lists::<ImporterPath>(source.importers.dom());
    assert(source.importers.contains_key(path));
    assert(source.importers[path].contains_key(name));
    assert(before.importers.dom() =~= source.importers.dom());
    assert forall|p: Seq<char>| #[trigger] source.importers.contains_key(p) implies provided_by(
        source.importers[p],
    ) == provided_by(before.importers[p]) by {
        assert(provided_by(source.importers[p]) =~= provided_by(before.importers[p]));
    }
    assert forall|i: int| 0 <= i < paths.len() implies source.importers.contains_key(
        #[trigger] paths[i],
    ) by {
        assert(paths.to_set().contains(paths[i]));
    }
    let copies = copies_in_graph(source, levels);
    copies_are_found_alike(source, before, paths, levels, copies);
    let names = names_in_graph(source, levels);
    assert(copies_in_graph(before, levels) == copies);
    assert(names_in_graph(before, levels) == names);
    let resolved = peers_resolved(before, levels)->0;
    assert(resolved.packages == graph.packages);
    assert(resolved.importers =~= after.importers) by {
        assert forall|p: Seq<char>| #[trigger] source.importers.contains_key(p) implies
            resolved.importers[p] == after.importers[p] by {
            assert(copies_for(before, p) == copies_for(source, p));
            assert(resolved.importers[p] =~= after.importers[p]);
        }
    }
    assert(is_finite(before)) by {
        assert forall|p: Seq<char>| #[trigger] before.importers.contains_key(p) implies
            before.importers[p].dom().finite() by {
            assert(source.importers.contains_key(p));
        }
    }
    assert(edges_end_inside(before));
}

/// What is resolved is settled, where no copy leads back to itself.
pub proof fn resolutions_without_loops_are_settled(
    book: Book,
    roots: Roots,
    members: Map<Seq<char>, Seq<char>>,
    graph: GraphModel,
    levels: nat,
)
    requires
        resolves_to(book, roots, members, Ok(graph)),
        is_finite(graph),
        peers_resolved(graph, levels) is Some,
        !goes_round(copies_in_graph(graph, levels)),
    ensures
        all_settled((peers_resolved(graph, levels)->0).packages),
        reachable_graph(peers_resolved(graph, levels)->0) == peers_resolved(graph, levels)->0,
{
    resolutions_are_plain(book, roots, members, graph);
    names_without_loops_are_whole(graph, levels);
    resolved_peers_leave_nothing_over(graph, levels);
}

/// What is resolved, before any peer was, is published plainly, and holds
/// every package that its edges lead to.
proof fn resolutions_are_plain(
    book: Book,
    roots: Roots,
    members: Map<Seq<char>, Seq<char>>,
    graph: GraphModel,
)
    requires
        resolves_to(book, roots, members, Ok(graph)),
    ensures
        is_plain_graph(graph),
        edges_end_inside(graph),
{
    resolved_graphs_are_closed(book, roots, members, graph);
    assert forall|id: IdModel| #[trigger] graph.packages.contains_key(id) implies id == plain_id(
        id.name,
        id.version,
    ) by {
        assert(id.context =~= seq![]);
    }
}

/// What a sync writes down reads back as it was, whatever of it was reused and
/// whatever was resolved, and is as settled as what it was put together from.
/// So it is fit for the next sync to reuse.
pub proof fn what_a_sync_writes_reads_back(
    workspace: WorkspaceModel,
    locked: Option<GraphModel>,
    request: Option<AskedFor>,
    prepared: PreparedModel,
    resolved: GraphModel,
    graph: GraphModel,
    lock: GraphModel,
)
    requires
        settled(prepared, locked, resolved, Mode::Develop) == Ok::<GraphModel, InstallFault>(graph),
        all_settled(locked_packages(locked)),
        all_settled(resolved.packages),
        lock == match recording_of(workspace, graph, request) {
            Some(recorded) => with_specifier(
                graph,
                (request->0).importer,
                recorded.name,
                recorded.specifier,
            ),
            None => graph,
        },
        is_storable(lock),
        reads_back(lock),
    ensures
        all_settled(lock.packages),
        loaded(lock_of(lock)) == Ok::<GraphModel, LockfileFault>(lock),
{
    assert forall|id: IdModel| #[trigger] lock.packages.contains_key(id) implies is_settled(
        lock.packages[id],
    ) by {
        if resolved.packages.contains_key(id) {
            assert(is_settled(resolved.packages[id]));
        } else {
            assert(locked_packages(locked).contains_key(id));
        }
    }
    locks_read_back(lock);
}

/// What a first install writes down reads back as what it came to, whatever
/// loops its names were cut at, where no two copies share one: nothing it
/// resolved is left out, and nothing is lost on the way through the lockfile.
pub proof fn a_first_install_reads_back(
    book: Book,
    workspace: WorkspaceModel,
    request: Option<AskedFor>,
    prepared: PreparedModel,
    source: GraphModel,
    levels: nat,
    resolved: GraphModel,
    graph: GraphModel,
    lock: GraphModel,
)
    requires
        prepared_for(workspace, None, request, Mode::Develop) == Ok::<PreparedModel, InstallFault>(
            prepared,
        ),
        resolves_to(book, prepared.stale, prepared.members, Ok(source)),
        is_finite(source),
        peers_resolved(source, levels) == Some(resolved),
        are_apart(names_in_graph(source, levels)),
        settled(prepared, None, resolved, Mode::Develop) == Ok::<GraphModel, InstallFault>(graph),
        lock == match recording_of(workspace, graph, request) {
            Some(recorded) => with_specifier(
                graph,
                (request->0).importer,
                recorded.name,
                recorded.specifier,
            ),
            None => graph,
        },
        is_storable(lock),
        links_are_no_packages(lock),
        reads_back(lock),
    ensures
        graph == resolved,
        loaded(lock_of(lock)) == Ok::<GraphModel, LockfileFault>(lock),
{
    resolutions_are_plain(book, prepared.stale, prepared.members, source);
    assert(is_resolved_from(resolved, source, levels));
    resolved_peers_leave_nothing_over(source, levels);
    assert(prepared.reused.union_prefer_right(resolved.importers) =~= resolved.importers);
    assert(locked_packages(None).union_prefer_right(resolved.packages) =~= resolved.packages);
    assert(graph == resolved);
    match recording_of(workspace, graph, request) {
        Some(recorded) => {
            let path = (request->0).importer;
            specifiers_do_not_decide_peers(
                graph,
                source,
                levels,
                path,
                recorded.name,
                recorded.specifier,
            );
            peer_resolved_locks_read_back(
                lock,
                with_specifier(source, path, recorded.name, recorded.specifier),
                levels,
            );
        },
        None => {
            peer_resolved_locks_read_back(lock, source, levels);
        },
    }
}

proof fn nothing_to_find<K, T>(keys: Seq<K>, test: spec_fn(K) -> Option<T>)
    requires
        forall|i: int| 0 <= i < keys.len() ==> test(#[trigger] keys[i]) is None,
    ensures
        first_of(keys, test) is None,
    decreases keys.len(),
{
    if keys.len() > 0 {
        let shorter = keys.drop_last();
        assert forall|i: int| 0 <= i < shorter.len() implies test(#[trigger] shorter[i]) is None by {
            assert(shorter[i] == keys[i]);
        }
        nothing_to_find(shorter, test);
        assert(test(keys[keys.len() - 1]) is None);
    }
}

/// What is found is found at some key.
pub(crate) proof fn found_somewhere<K, T>(keys: Seq<K>, test: spec_fn(K) -> Option<T>)
    requires
        first_of(keys, test) is Some,
    ensures
        exists|i: int|
            0 <= i < keys.len() && test(#[trigger] keys[i]) == first_of(keys, test),
    decreases keys.len(),
{
    if keys.len() > 0 {
        let shorter = keys.drop_last();
        if first_of(shorter, test) is Some {
            found_somewhere(shorter, test);
            let i = choose|i: int|
                0 <= i < shorter.len() && test(#[trigger] shorter[i]) == first_of(shorter, test);
            assert(keys[i] == shorter[i]);
        } else {
            assert(keys[keys.len() - 1] == keys.last());
        }
    }
}

/// A production install is refused over its lockfile only for something that
/// differs: a dependency that is declared and not recorded, recorded and not
/// declared, or recorded otherwise than it is declared, or a project that is
/// recorded and gone.
pub proof fn disagreements_are_real(locked: GraphModel, declared: Roots)
    requires
        declared.dom().finite(),
        locked.importers.dom().finite(),
        forall|path: Seq<char>| #[trigger]
            declared.contains_key(path) ==> declared[path].dom().finite(),
        forall|path: Seq<char>| #[trigger]
            locked.importers.contains_key(path) ==> locked.importers[path].dom().finite(),
        disagreement(locked, declared) is Some,
    ensures
        match disagreement(locked, declared)->0 {
            InstallFault::ProductionLockfileStale { importer, name, .. } => {
                let recorded = recorded_in(locked, importer);
                &&& declared.contains_key(importer)
                &&& declared[importer].contains_key(name) || recorded.contains_key(name)
                &&& !(declared[importer].contains_key(name) && recorded.contains_key(name)
                    && declared[importer][name].specifier == recorded[name].specifier
                    && declared[importer][name].kind == recorded[name].kind)
            },
            InstallFault::ProductionLockfileImporterGone { importer } => {
                locked.importers.contains_key(importer) && !declared.contains_key(importer)
            },
            _ => false,
        },
{
    let paths = in_order::<ImporterPath>(declared.dom());
    in_order_lists::<ImporterPath>(declared.dom());
    let test = importer_disagreement(locked, declared);
    if first_of(paths, test) is Some {
        found_somewhere(paths, test);
        let i = choose|i: int|
            0 <= i < paths.len() && test(#[trigger] paths[i]) == first_of(paths, test);
        let path = paths[i];
        assert(paths.to_set().contains(path));
        assert(declared.contains_key(path));
        let recorded = recorded_in(locked, path);
        let declares = declared[path];
        let names = in_order::<String>(declares.dom());
        in_order_lists::<String>(declares.dom());
        let mismatch = mismatch_at(path, recorded, declares);
        if first_of(names, mismatch) is Some {
            found_somewhere(names, mismatch);
            let k = choose|k: int|
                0 <= k < names.len() && mismatch(#[trigger] names[k]) == first_of(names, mismatch);
            assert(names.to_set().contains(names[k]));
        } else {
            let left = in_order::<String>(recorded.dom());
            if locked.importers.contains_key(path) {
                assert(locked.importers[path].dom().finite());
            }
            in_order_lists::<String>(recorded.dom());
            let leftover = leftover_at(path, recorded, declares);
            found_somewhere(left, leftover);
            let k = choose|k: int|
                0 <= k < left.len() && leftover(#[trigger] left[k]) == first_of(left, leftover);
            assert(left.to_set().contains(left[k]));
        }
    } else {
        let others = in_order::<ImporterPath>(locked.importers.dom());
        in_order_lists::<ImporterPath>(locked.importers.dom());
        let gone = importer_gone(declared);
        found_somewhere(others, gone);
        let k = choose|k: int|
            0 <= k < others.len() && gone(#[trigger] others[k]) == first_of(others, gone);
        assert(others.to_set().contains(others[k]));
    }
}

/// A lockfile that records exactly what every project declares, and no project
/// that is gone, is never refused.
pub proof fn agreement_is_accepted(locked: GraphModel, declared: Roots)
    requires
        declared.dom().finite(),
        locked.importers.dom().finite(),
        forall|path: Seq<char>| #[trigger]
            declared.contains_key(path) ==> declared[path].dom().finite(),
        forall|path: Seq<char>| #[trigger]
            locked.importers.contains_key(path) ==> locked.importers[path].dom().finite(),
        forall|path: Seq<char>| #[trigger]
            declared.contains_key(path) ==> as_declared(recorded_in(locked, path))
                == declared[path],
        forall|path: Seq<char>| #[trigger]
            locked.importers.contains_key(path) ==> declared.contains_key(path),
    ensures
        disagreement(locked, declared) is None,
{
    if disagreement(locked, declared) is Some {
        disagreements_are_real(locked, declared);
        match disagreement(locked, declared)->0 {
            InstallFault::ProductionLockfileStale { importer, name, .. } => {
                let recorded = as_declared(recorded_in(locked, importer));
                assert(recorded == declared[importer]);
                assert(recorded.contains_key(name) <==> recorded_in(locked, importer).contains_key(
                    name,
                ));
            },
            _ => {},
        }
    }
}

/// A request is settled by what is recorded exactly where what it asks for is
/// recorded, as a version or as it was asked, in the section it asks for, if it
/// asks for one. The latest version is always asked for anew.
pub proof fn requests_are_settled_by_what_they_ask_for(
    recorded: &Importer,
    request: &Request,
    yes: bool,
)
    requires
        call_ensures(already_satisfies, (recorded, request), yes),
    ensures
        ({
            let asked = request.deep_view();
            let known = recorded.deep_view();
            &&& asked.seed is Latest ==> !yes
            &&& !known.contains_key(asked.name) ==> !yes
            &&& known.contains_key(asked.name) && asked.seed is Exact ==> {
                let found = known[asked.name];
                let version = asked.seed->Exact_0;
                yes <==> (asked.kind is None || asked.kind == Some(found.kind)) && (found.specifier
                    == version || (found.resolution is Registry && (
                found.resolution->Registry_0).version == version))
            }
        }),
{
}

/// What a lockfile records of a project is reused exactly where it records
/// what the project declares, and what is asked for, if it is asked there. It
/// is reused as it is.
pub proof fn only_what_is_declared_is_reused(
    locked: GraphModel,
    declared: Roots,
    request: Option<AskedFor>,
    path: Seq<char>,
)
    ensures
        ({
            let reused = reused_from(Some(locked), declared, request);
            &&& reused.contains_key(path) <==> {
                &&& locked.importers.contains_key(path)
                &&& declared.contains_key(path)
                &&& as_declared(locked.importers[path]) == declared[path]
                &&& request is Some && (request->0).importer == path ==> satisfies_request(
                    locked.importers[path],
                    request->0,
                )
            }
            &&& reused.contains_key(path) ==> reused[path] == locked.importers[path]
        }),
        !reused_from(None, declared, request).contains_key(path),
{
}

} // verus!
