//! What every resolution keeps as it goes: each package that it finds is one
//! that a project leads to, each link is to a member, and each hash has the
//! length of its kind.

use vstd::prelude::*;
use crate::graph::{
    depends, every_edge, is_root, is_route, reachable_graph, reached, route_extends, DeclaredModel,
    GraphModel, ImporterModel, PackageModel, ResolutionModel,
};
use crate::importer::{path_between, ImporterPath};
use crate::package_id::{plain_id, IdModel};
use crate::range::{is_pick, range_parses, version_parses, Version};
use crate::registry::{
    dist_integrity, dist_integrity_reads, is_writable, published_versions, Answer,
    MetadataModel, PackumentModel,
};
use crate::sorted::{in_order, in_order_lists, take_one_more};
use crate::specifier::{chosen, edges_of, EdgeModel, ResolveFault};
use crate::walk::{
    blank_walk, graph_of, is_written, node_of, pendings_of, recorded, request_for, resolves_to,
    seeded_by_names, seeded_by_paths, seeded_walk, seeded_with, visited, walked, Book,
    DependentModel, PendingModel, Roots, WalkModel,
};

verus! {

/// Are two pieces of work about the same edge?
spec fn same_edge(a: PendingModel, b: PendingModel) -> bool {
    a.name == b.name && match (a.dependent, b.dependent) {
        (
            DependentModel::Package { id: x, .. },
            DependentModel::Package { id: y, .. },
        ) => x == y,
        (
            DependentModel::Importer { path: x, .. },
            DependentModel::Importer { path: y, .. },
        ) => x == y,
        _ => false,
    }
}

/// Is the edge that some work is about still to be recorded, on something
/// that is there?
spec fn is_due(walk: WalkModel, pending: PendingModel) -> bool {
    match pending.dependent {
        DependentModel::Package { id, .. } => walk.packages.contains_key(id)
            && !walk.packages[id].dependencies.contains_key(pending.name),
        DependentModel::Importer { path, .. } => !(walk.importers.contains_key(path)
            && walk.importers[path].contains_key(pending.name)),
    }
}

/// Is each edge worked on once?
spec fn is_orderly(walk: WalkModel) -> bool {
    &&& forall|i: int| 0 <= i < walk.work.len() ==> is_due(walk, #[trigger] walk.work[i])
    &&& forall|i: int, j: int|
        0 <= i < j < walk.work.len() ==> !same_edge(#[trigger] walk.work[i], #[trigger] walk.work[j])
}

/// Is every link to a member, seen from the project that has it?
pub open spec fn links_lead_to_members(
    importers: Map<Seq<char>, ImporterModel>,
    members: Map<Seq<char>, Seq<char>>,
) -> bool {
    forall|path: Seq<char>, name: Seq<char>|
        importers.contains_key(path) && #[trigger] importers[path].contains_key(name)
            && importers[path][name].resolution is Local ==> members.contains_key(name)
            && importers[path][name].resolution == ResolutionModel::Local(
            path_between(path, members[name]),
        )
}

/// Does every hash have the length of its kind?
pub open spec fn hashes_are_whole(packages: Map<IdModel, PackageModel>) -> bool {
    forall|id: IdModel| #[trigger]
        packages.contains_key(id) ==> packages[id].integrity.digest.len()
            == packages[id].integrity.algo.spec_digest_len()
}

spec fn all_reached(walk: WalkModel) -> bool {
    forall|id: IdModel| #[trigger]
        walk.packages.contains_key(id) ==> reached(
            walk.importers,
            every_edge(walk.packages),
            id,
        )
}

/// What holds of a walk at every step.
spec fn is_kept(walk: WalkModel, members: Map<Seq<char>, Seq<char>>) -> bool {
    &&& is_orderly(walk)
    &&& all_reached(walk)
    &&& links_lead_to_members(walk.importers, members)
    &&& hashes_are_whole(walk.packages)
}

/// What was reached stays reached as edges are added.
proof fn reach_grows(
    importers: Map<Seq<char>, ImporterModel>,
    packages: Map<IdModel, PackageModel>,
    more_importers: Map<Seq<char>, ImporterModel>,
    more_packages: Map<IdModel, PackageModel>,
    id: IdModel,
)
    requires
        reached(importers, every_edge(packages), id),
        forall|x: IdModel| #[trigger] is_root(importers, x) ==> is_root(more_importers, x),
        forall|x: IdModel, y: IdModel| #[trigger]
            depends(packages, x, y) ==> depends(more_packages, x, y),
    ensures
        reached(more_importers, every_edge(more_packages), id),
{
    let edge = every_edge(packages);
    let more = every_edge(more_packages);
    let route = choose|route: Seq<IdModel>|
        is_route(importers, edge, route) && route.last() == id;
    assert forall|i: int| 0 <= i < route.len() - 1 implies more(
        #[trigger] route[i],
        route[i + 1],
    ) by {
        assert(edge(route[i], route[i + 1]));
        assert(depends(packages, route[i], route[i + 1]));
    }
    assert(is_route(more_importers, more, route));
}

/// Recording an edge that was due loses none, and reaches what it leads to.
proof fn recording_reaches(walk: WalkModel, pending: PendingModel, id: IdModel)
    requires
        all_reached(walk),
        is_due(walk, pending),
    ensures
        ({
            let next = recorded(walk, pending, id);
            &&& all_reached(next)
            &&& reached(next.importers, every_edge(next.packages), id)
            &&& next.packages.dom() == walk.packages.dom()
        }),
{
    let next = recorded(walk, pending, id);
    assert(next.packages.dom() =~= walk.packages.dom());
    assert forall|x: IdModel| #[trigger] is_root(walk.importers, x) implies is_root(
        next.importers,
        x,
    ) by {
        let (p, n) = choose|p: Seq<char>, n: Seq<char>|
            walk.importers.contains_key(p) && #[trigger] walk.importers[p].contains_key(n)
                && walk.importers[p][n].resolution == ResolutionModel::Registry(x);
        assert(next.importers.contains_key(p) && next.importers[p].contains_key(n)
            && next.importers[p][n].resolution == ResolutionModel::Registry(x));
    }
    assert forall|x: IdModel, y: IdModel| #[trigger] depends(walk.packages, x, y) implies depends(
        next.packages,
        x,
        y,
    ) by {
        let n = choose|n: Seq<char>| #[trigger]
            walk.packages[x].dependencies.contains_key(n) && walk.packages[x].dependencies[n] == y;
        assert(next.packages[x].dependencies.contains_key(n)
            && next.packages[x].dependencies[n] == y);
    }
    assert forall|x: IdModel| #[trigger] next.packages.contains_key(x) implies reached(
        next.importers,
        every_edge(next.packages),
        x,
    ) by {
        assert(walk.packages.contains_key(x));
        reach_grows(walk.importers, walk.packages, next.importers, next.packages, x);
    }
    match pending.dependent {
        DependentModel::Package { id: parent, .. } => {
            assert(next.packages.contains_key(parent));
            assert(next.packages[parent].dependencies.contains_key(pending.name)
                && next.packages[parent].dependencies[pending.name] == id);
            assert(depends(next.packages, parent, id));
            route_extends(next.importers, every_edge(next.packages), parent, id);
        },
        DependentModel::Importer { path, kind } => {
            assert(next.importers.contains_key(path) && next.importers[path].contains_key(
                pending.name,
            ) && next.importers[path][pending.name].resolution == ResolutionModel::Registry(id));
            assert(is_root(next.importers, id));
            assert(is_route(next.importers, every_edge(next.packages), seq![id]));
            assert(seq![id].last() == id);
        },
    }
}

/// A `dist` that can be read gives a hash of the length of its kind.
proof fn readings_are_whole(metadata: MetadataModel)
    requires
        dist_integrity(metadata.dist) is Ok,
    ensures
        (dist_integrity(metadata.dist)->Ok_0).digest.len() == (dist_integrity(
            metadata.dist,
        )->Ok_0).algo.spec_digest_len(),
{
    dist_integrity_reads(metadata.dist);
}

/// No two edges of a version are declared under one name.
proof fn edges_are_distinct(metadata: MetadataModel)
    requires
        metadata.dependencies.dom().finite(),
        metadata.optional_dependencies.dom().finite(),
    ensures
        forall|i: int, j: int|
            0 <= i < j < edges_of(metadata).len() ==> (#[trigger] edges_of(metadata)[i]).name != (
            #[trigger] edges_of(metadata)[j]).name,
{
    let required = metadata.dependencies.dom().difference(metadata.optional_dependencies.dom());
    vstd::set_lib::lemma_set_subset_finite(metadata.dependencies.dom(), required);
    let optional = metadata.optional_dependencies.dom();
    let first = in_order::<String>(required);
    let second = in_order::<String>(optional);
    in_order_lists::<String>(required);
    in_order_lists::<String>(optional);
    let edges = edges_of(metadata);
    assert forall|i: int, j: int| 0 <= i < j < edges.len() implies (#[trigger] edges[i]).name != (
    #[trigger] edges[j]).name by {
        if i < first.len() && j >= first.len() {
            assert(first.to_set().contains(first[i]));
            assert(second.to_set().contains(second[j - first.len()]));
        }
    }
}

/// Work that edges amount to is about those edges, in order.
proof fn work_is_about_edges(id: IdModel, edges: Seq<EdgeModel>)
    requires
        pendings_of(id, edges) is Ok,
    ensures
        (pendings_of(id, edges)->Ok_0).len() == edges.len(),
        forall|i: int|
            0 <= i < edges.len() ==> (#[trigger] (pendings_of(id, edges)->Ok_0)[i]).name
                == edges[i].name && (pendings_of(id, edges)->Ok_0)[i].dependent == (
            DependentModel::Package { id, optional: edges[i].optional }),
    decreases edges.len(),
{
    if edges.len() > 0 {
        work_is_about_edges(id, edges.drop_last());
    }
}

/// What is chosen is published.
proof fn choices_are_published(packument: PackumentModel, name: Seq<char>, range: Seq<char>)
    requires
        is_writable(packument),
        chosen(packument, name, range) is Ok,
    ensures
        packument.versions.contains_key(chosen(packument, name, range)->Ok_0),
{
    if range_parses(range) {
        let parses = |v: Seq<char>| version_parses(v);
        let kept = packument.versions.dom().filter(parses);
        let available = published_versions(packument.versions.dom());
        vstd::set_lib::lemma_set_subset_finite(packument.versions.dom(), kept);
        in_order_lists::<Version>(kept);
        let i = choose|i: int| is_pick(range, available, i);
        assert(is_pick(range, available, i));
        assert(available.to_set().contains(available[i]));
    }
}

proof fn visits_keep(
    walk: WalkModel,
    answer: Answer,
    members: Map<Seq<char>, Seq<char>>,
)
    requires
        is_kept(walk, members),
        walk.work.len() > 0,
        answer is Ok ==> is_writable(answer->Ok_0),
        visited(
            (WalkModel { work: walk.work.drop_first(), ..walk }),
            walk.work[0],
            answer,
        ) is Ok,
    ensures
        is_kept(
            visited(
                (WalkModel { work: walk.work.drop_first(), ..walk }),
                walk.work[0],
                answer,
            )->Ok_0,
            members,
        ),
{
    let pending = walk.work[0];
    let rest = WalkModel { work: walk.work.drop_first(), ..walk };
    let packument = answer->Ok_0;
    let version = chosen(packument, pending.asked.name, pending.asked.range)->Ok_0;
    let id = plain_id(pending.asked.name, version);
    let step = recorded(rest, pending, id);
    let next = visited(rest, pending, answer)->Ok_0;
    assert(is_due(walk, walk.work[0]));
    assert(is_due(rest, pending));
    assert(all_reached(rest));
    recording_reaches(rest, pending, id);
    assert(step.work == rest.work);
    assert forall|i: int| 0 <= i < rest.work.len() implies is_due(step, #[trigger] rest.work[i]) by {
        assert(rest.work[i] == walk.work[i + 1]);
        assert(is_due(walk, walk.work[i + 1]));
        assert(!same_edge(walk.work[0], walk.work[i + 1]));
    }
    assert forall|i: int, j: int| 0 <= i < j < rest.work.len() implies !same_edge(
        #[trigger] rest.work[i],
        #[trigger] rest.work[j],
    ) by {
        assert(rest.work[i] == walk.work[i + 1] && rest.work[j] == walk.work[j + 1]);
    }
    assert(links_lead_to_members(step.importers, members)) by {
        assert forall|p: Seq<char>, n: Seq<char>|
            step.importers.contains_key(p) && #[trigger] step.importers[p].contains_key(n)
                && step.importers[p][n].resolution is Local implies members.contains_key(n)
            && step.importers[p][n].resolution == ResolutionModel::Local(
            path_between(p, members[n]),
        ) by {
            assert(walk.importers.contains_key(p) && walk.importers[p].contains_key(n));
            assert(walk.importers[p][n] == step.importers[p][n]);
        }
    }
    assert forall|x: IdModel| #[trigger] step.packages.contains_key(x) implies
        step.packages[x].integrity == walk.packages[x].integrity && walk.packages.contains_key(
        x,
    ) by {
        assert(step.packages.dom().contains(x));
    }
    if !step.packages.contains_key(id) {
        choices_are_published(packument, pending.asked.name, pending.asked.range);
        let metadata = packument.versions[version];
        let edges = edges_of(metadata);
        let found = pendings_of(id, edges)->Ok_0;
        let integrity = dist_integrity(metadata.dist)->Ok_0;
        let node = node_of(id, metadata, integrity);
        readings_are_whole(metadata);
        edges_are_distinct(metadata);
        work_is_about_edges(id, edges);
        assert(next.packages == step.packages.insert(id, node));
        assert(next.work == rest.work + found);
        assert forall|i: int| 0 <= i < next.work.len() implies is_due(
            next,
            #[trigger] next.work[i],
        ) by {
            if i < rest.work.len() {
                assert(next.work[i] == rest.work[i]);
                assert(is_due(step, rest.work[i]));
            } else {
                assert(next.work[i] == found[i - rest.work.len()]);
            }
        }
        assert forall|i: int, j: int| 0 <= i < j < next.work.len() implies !same_edge(
            #[trigger] next.work[i],
            #[trigger] next.work[j],
        ) by {
            if j < rest.work.len() {
                assert(next.work[i] == rest.work[i] && next.work[j] == rest.work[j]);
            } else {
                assert(next.work[j] == found[j - rest.work.len()]);
                if i < rest.work.len() {
                    assert(next.work[i] == rest.work[i]);
                    assert(is_due(step, rest.work[i]));
                } else {
                    assert(next.work[i] == found[i - rest.work.len()]);
                    assert(edges[i - rest.work.len()].name != edges[j - rest.work.len()].name);
                }
            }
        }
        assert forall|x: IdModel, y: IdModel| #[trigger]
            depends(step.packages, x, y) implies depends(next.packages, x, y) by {
            assert(next.packages[x] == step.packages[x]);
        }
        assert forall|x: IdModel| #[trigger] next.packages.contains_key(x) implies reached(
            next.importers,
            every_edge(next.packages),
            x,
        ) by {
            if x != id {
                assert(step.packages.contains_key(x));
            }
            reach_grows(step.importers, step.packages, next.importers, next.packages, x);
        }
    } else {
        assert(next == step);
    }
}

proof fn walks_keep(
    book: Book,
    walk: WalkModel,
    steps: nat,
    members: Map<Seq<char>, Seq<char>>,
)
    requires
        is_kept(walk, members),
        is_written(book),
        walked(book, walk, steps) is Some,
        walked(book, walk, steps)->0 is Ok,
    ensures
        is_kept((walked(book, walk, steps)->0)->Ok_0, members),
    decreases steps,
{
    if walk.work.len() > 0 {
        let pending = walk.work[0];
        let rest = WalkModel { work: walk.work.drop_first(), ..walk };
        let request = request_for(pending.asked);
        assert(book.contains_key(request));
        visits_keep(walk, book[request], members);
        walks_keep(
            book,
            visited(rest, pending, book[request])->Ok_0,
            (steps - 1) as nat,
            members,
        );
    }
}

/// What holds of a walk while projects are taken into account: its work and
/// its links are for declarations that were, and it has found no package.
spec fn is_seeded(
    walk: WalkModel,
    members: Map<Seq<char>, Seq<char>>,
    done: Set<(Seq<char>, Seq<char>)>,
) -> bool {
    &&& is_kept(walk, members)
    &&& walk.packages == Map::<IdModel, PackageModel>::empty()
    &&& forall|i: int|
        0 <= i < walk.work.len() ==> (#[trigger] walk.work[i]).dependent is Importer
            && done.contains((walk.work[i].dependent->path, walk.work[i].name))
    &&& forall|path: Seq<char>, name: Seq<char>|
        walk.importers.contains_key(path) && #[trigger] walk.importers[path].contains_key(name)
            ==> done.contains((path, name))
}

proof fn seeding_one_keeps(
    members: Map<Seq<char>, Seq<char>>,
    path: Seq<char>,
    name: Seq<char>,
    declared: DeclaredModel,
    walk: WalkModel,
    done: Set<(Seq<char>, Seq<char>)>,
)
    requires
        is_seeded(walk, members, done),
        !done.contains((path, name)),
        seeded_with(members, path, name, declared, walk) is Ok,
    ensures
        is_seeded(
            seeded_with(members, path, name, declared, walk)->Ok_0,
            members,
            done.insert((path, name)),
        ),
{
    let next = seeded_with(members, path, name, declared, walk)->Ok_0;
    let now = done.insert((path, name));
    assert forall|i: int| 0 <= i < next.work.len() implies is_due(next, #[trigger] next.work[i])
        && next.work[i].dependent is Importer && now.contains(
        (next.work[i].dependent->path, next.work[i].name),
    ) by {
        if i < walk.work.len() {
            assert(next.work[i] == walk.work[i]);
            assert(is_due(walk, walk.work[i]));
        }
    }
    assert forall|i: int, j: int| 0 <= i < j < next.work.len() implies !same_edge(
        #[trigger] next.work[i],
        #[trigger] next.work[j],
    ) by {
        assert(next.work[i] == walk.work[i]);
        if j < walk.work.len() {
            assert(next.work[j] == walk.work[j]);
        }
    }
    assert forall|p: Seq<char>, n: Seq<char>|
        next.importers.contains_key(p) && #[trigger] next.importers[p].contains_key(
            n,
        ) implies now.contains((p, n)) && (next.importers[p][n].resolution is Local
        ==> members.contains_key(n) && next.importers[p][n].resolution == ResolutionModel::Local(
        path_between(p, members[n]),
    )) by {
        if !(p == path && n == name) {
            assert(walk.importers.contains_key(p) && walk.importers[p].contains_key(n));
            assert(walk.importers[p][n] == next.importers[p][n]);
        } else if next.importers == walk.importers {
            assert(walk.importers[p].contains_key(n));
        }
    }
}

spec fn pairs_of(path: Seq<char>, names: Set<Seq<char>>) -> Set<(Seq<char>, Seq<char>)> {
    Set::new(|pair: (Seq<char>, Seq<char>)| pair.0 == path && names.contains(pair.1))
}

proof fn seeding_names_keeps(
    members: Map<Seq<char>, Seq<char>>,
    path: Seq<char>,
    declared: Map<Seq<char>, DeclaredModel>,
    names: Seq<Seq<char>>,
    walk: WalkModel,
    done: Set<(Seq<char>, Seq<char>)>,
)
    requires
        is_seeded(walk, members, done),
        names.no_duplicates(),
        forall|name: Seq<char>| !done.contains((path, name)),
        seeded_by_names(members, path, declared, names, walk) is Ok,
    ensures
        is_seeded(
            seeded_by_names(members, path, declared, names, walk)->Ok_0,
            members,
            done.union(pairs_of(path, names.to_set())),
        ),
    decreases names.len(),
{
    if names.len() == 0 {
        assert(done.union(pairs_of(path, names.to_set())) =~= done);
    } else {
        let rest = names.drop_last();
        seeding_names_keeps(members, path, declared, rest, walk, done);
        let so_far = done.union(pairs_of(path, rest.to_set()));
        let before = seeded_by_names(members, path, declared, rest, walk)->Ok_0;
        let name = names[names.len() - 1];
        assert(!rest.contains(name)) by {
            if rest.contains(name) {
                let k = rest.index_of(name);
                assert(names[k] == name);
            }
        }
        seeding_one_keeps(members, path, name, declared[name], before, so_far);
        take_one_more(names, names.len() - 1);
        assert(names.take(names.len() - 1) =~= rest);
        assert(names.take(names.len() as int) =~= names);
        assert(so_far.insert((path, name)) =~= done.union(pairs_of(path, names.to_set())));
    }
}

proof fn seeding_paths_keeps(
    members: Map<Seq<char>, Seq<char>>,
    roots: Roots,
    paths: Seq<Seq<char>>,
)
    requires
        paths.no_duplicates(),
        forall|i: int| 0 <= i < paths.len() ==> roots[#[trigger] paths[i]].dom().finite(),
        seeded_by_paths(members, roots, paths, blank_walk(roots)) is Ok,
    ensures
        is_seeded(
            seeded_by_paths(members, roots, paths, blank_walk(roots))->Ok_0,
            members,
            Set::new(|pair: (Seq<char>, Seq<char>)| paths.contains(pair.0)),
        ),
    decreases paths.len(),
{
    let done = Set::new(|pair: (Seq<char>, Seq<char>)| paths.contains(pair.0));
    if paths.len() > 0 {
        let rest = paths.drop_last();
        assert forall|i: int| 0 <= i < rest.len() implies roots[#[trigger] rest[i]].dom().finite() by {
            assert(rest[i] == paths[i]);
        }
        seeding_paths_keeps(members, roots, rest);
        let path = paths[paths.len() - 1];
        let so_far = Set::new(|pair: (Seq<char>, Seq<char>)| rest.contains(pair.0));
        let before = seeded_by_paths(members, roots, rest, blank_walk(roots))->Ok_0;
        let names = in_order::<String>(roots[path].dom());
        in_order_lists::<String>(roots[path].dom());
        assert(!rest.contains(path)) by {
            if rest.contains(path) {
                let k = rest.index_of(path);
                assert(paths[k] == path);
            }
        }
        seeding_names_keeps(members, path, roots[path], names, before, so_far);
        let after = seeded_by_paths(members, roots, paths, blank_walk(roots))->Ok_0;
        let now = so_far.union(pairs_of(path, names.to_set()));
        assert(is_seeded(after, members, now));
        assert forall|p: Seq<char>, n: Seq<char>| now.contains((p, n)) implies #[trigger]
            done.contains((p, n)) by {
            if rest.contains(p) {
                let k = rest.index_of(p);
                assert(paths[k] == p);
            } else {
                assert(paths[paths.len() - 1] == p);
            }
        }
    }
}

/// Every package of a resolved graph is one that a project leads to, every
/// link is to a member, and every hash has the length of its kind.
pub proof fn resolved_graphs_are_reached(
    book: Book,
    roots: Roots,
    members: Map<Seq<char>, Seq<char>>,
    graph: GraphModel,
)
    requires
        roots.dom().finite(),
        forall|path: Seq<char>| #[trigger]
            roots.contains_key(path) ==> roots[path].dom().finite(),
        is_written(book),
        resolves_to(book, roots, members, Ok(graph)),
    ensures
        reachable_graph(graph) == graph,
        links_lead_to_members(graph.importers, members),
        hashes_are_whole(graph.packages),
{
    let seed = seeded_walk(roots, members)->Ok_0;
    let steps = choose|steps: nat|
        match #[trigger] walked(book, seed, steps) {
            Some(Ok(walk)) => Ok::<GraphModel, ResolveFault>(graph) == Ok::<
                GraphModel,
                ResolveFault,
            >(graph_of(walk)),
            Some(Err(fault)) => Ok::<GraphModel, ResolveFault>(graph) == Err::<
                GraphModel,
                ResolveFault,
            >(fault),
            None => false,
        };
    let paths = in_order::<ImporterPath>(roots.dom());
    in_order_lists::<ImporterPath>(roots.dom());
    assert forall|i: int| 0 <= i < paths.len() implies roots[#[trigger] paths[i]].dom().finite() by {
        assert(paths.to_set().contains(paths[i]));
        assert(roots.contains_key(paths[i]));
    }
    seeding_paths_keeps(members, roots, paths);
    walks_keep(book, seed, steps, members);
    assert(reachable_graph(graph).packages =~= graph.packages);
}

} // verus!
