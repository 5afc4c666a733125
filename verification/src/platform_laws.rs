//! What is kept of a graph: what its projects lead to, and on a platform what
//! they lead to there.

use vstd::prelude::*;
use crate::graph::{
    depends, every_edge, follows, followed_edge, is_root, is_route, kept_on, platform_graph,
    reachable_graph, reached, skipped_on, GraphModel, PackageModel, ResolutionModel,
};
use crate::package_id::IdModel;
use crate::platform::{support_admits, PlatformModel};

verus! {

/// Does a set hold everything that the projects of a graph depend on
/// themselves?
pub open spec fn holds_roots(graph: GraphModel, ids: Set<IdModel>) -> bool {
    forall|path: Seq<char>, name: Seq<char>|
        graph.importers.contains_key(path) && #[trigger] graph.importers[path].contains_key(name)
            && graph.importers[path][name].resolution is Registry ==> ids.contains(
            graph.importers[path][name].resolution->Registry_0,
        )
}

/// Is a dependency one to do without on a platform: an optional one, on a
/// package that does not run there?
pub open spec fn is_dispensable(
    graph: GraphModel,
    platform: PlatformModel,
    from: IdModel,
    name: Seq<char>,
) -> bool {
    let to = graph.packages[from].dependencies[name];
    &&& graph.packages[from].optional_dependencies.contains(name)
    &&& graph.packages.contains_key(to)
    &&& !support_admits(graph.packages[to].supports, platform)
}

/// Does a set hold everything that what it holds depends on, but for what a
/// platform does without?
pub open spec fn is_closed_on(
    graph: GraphModel,
    platform: Option<PlatformModel>,
    ids: Set<IdModel>,
) -> bool {
    forall|from: IdModel, name: Seq<char>|
        ids.contains(from) && graph.packages.contains_key(from)
            && #[trigger] graph.packages[from].dependencies.contains_key(name) && !(platform is Some
            && is_dispensable(graph, platform->0, from, name)) ==> ids.contains(
            graph.packages[from].dependencies[name],
        )
}

proof fn routes_stay_inside(
    graph: GraphModel,
    platform: Option<PlatformModel>,
    edge: spec_fn(IdModel, IdModel) -> bool,
    ids: Set<IdModel>,
    route: Seq<IdModel>,
)
    requires
        holds_roots(graph, ids),
        is_closed_on(graph, platform, ids),
        edge == match platform {
            Some(platform) => followed_edge(graph.packages, platform),
            None => every_edge(graph.packages),
        },
        is_route(graph.importers, edge, route),
    ensures
        ids.contains(route.last()),
    decreases route.len(),
{
    if route.len() == 1 {
        let (path, name) = choose|path: Seq<char>, name: Seq<char>|
            graph.importers.contains_key(path) && #[trigger] graph.importers[path].contains_key(
                name,
            ) && graph.importers[path][name].resolution == ResolutionModel::Registry(route[0]);
        assert(graph.importers[path].contains_key(name));
    } else {
        let shorter = route.drop_last();
        let n = route.len() - 1;
        assert forall|i: int| 0 <= i < shorter.len() - 1 implies edge(
            #[trigger] shorter[i],
            shorter[i + 1],
        ) by {
            assert(edge(route[i], route[i + 1]));
        }
        assert(shorter[0] == route[0]);
        routes_stay_inside(graph, platform, edge, ids, shorter);
        let from = route[n - 1];
        assert(shorter.last() == from);
        assert(edge(route[n - 1], route[n - 1 + 1]));
        match platform {
            Some(platform) => {
                assert(follows(graph.packages, platform, from, route[n]));
            },
            None => {
                assert(depends(graph.packages, from, route[n]));
            },
        }
    }
}

/// One more edge, one more package.
proof fn edges_lead_on(
    graph: GraphModel,
    edge: spec_fn(IdModel, IdModel) -> bool,
    from: IdModel,
    to: IdModel,
)
    requires
        reached(graph.importers, edge, from),
        edge(from, to),
    ensures
        reached(graph.importers, edge, to),
{
    let route = choose|route: Seq<IdModel>|
        is_route(graph.importers, edge, route) && route.last() == from;
    let longer = route.push(to);
    assert forall|i: int| 0 <= i < longer.len() - 1 implies edge(
        #[trigger] longer[i],
        longer[i + 1],
    ) by {
        if i < route.len() - 1 {
            assert(edge(route[i], route[i + 1]));
        }
    }
    assert(longer[0] == route[0]);
    assert(is_route(graph.importers, edge, longer));
    assert(longer.last() == to);
}

proof fn roots_are_reached(
    graph: GraphModel,
    edge: spec_fn(IdModel, IdModel) -> bool,
    id: IdModel,
)
    requires
        is_root(graph.importers, id),
    ensures
        reached(graph.importers, edge, id),
{
    assert(is_route(graph.importers, edge, seq![id]));
    assert(seq![id].last() == id);
}

/// What is kept of a graph is the least there can be: everything that its
/// projects depend on, and everything that what is kept depends on, and
/// nothing but that.
pub proof fn exactly_what_is_led_to_is_kept(graph: GraphModel, ids: Set<IdModel>, id: IdModel)
    ensures
        ({
            let kept = Set::new(
                |id: IdModel| reached(graph.importers, every_edge(graph.packages), id),
            );
            &&& holds_roots(graph, kept)
            &&& is_closed_on(graph, None, kept)
            &&& reachable_graph(graph).packages.contains_key(id) <==> graph.packages.contains_key(
                id,
            ) && kept.contains(id)
            &&& holds_roots(graph, ids) && is_closed_on(graph, None, ids)
                && reachable_graph(graph).packages.contains_key(id) ==> ids.contains(id)
            &&& reachable_graph(graph).packages.contains_key(id)
                ==> reachable_graph(graph).packages[id] == graph.packages[id]
            &&& reachable_graph(graph).importers == graph.importers
        }),
{
    let edge = every_edge(graph.packages);
    let kept = Set::new(|id: IdModel| reached(graph.importers, edge, id));
    assert forall|path: Seq<char>, name: Seq<char>|
        graph.importers.contains_key(path) && #[trigger] graph.importers[path].contains_key(name)
            && graph.importers[path][name].resolution is Registry implies kept.contains(
        graph.importers[path][name].resolution->Registry_0,
    ) by {
        let root = graph.importers[path][name].resolution->Registry_0;
        assert(is_root(graph.importers, root));
        roots_are_reached(graph, edge, root);
    }
    assert forall|from: IdModel, name: Seq<char>|
        kept.contains(from) && graph.packages.contains_key(from)
            && #[trigger] graph.packages[from].dependencies.contains_key(name) implies kept.contains(
        graph.packages[from].dependencies[name],
    ) by {
        let to = graph.packages[from].dependencies[name];
        assert(depends(graph.packages, from, to));
        assert(edge(from, to));
        edges_lead_on(graph, edge, from, to);
    }
    if holds_roots(graph, ids) && is_closed_on(graph, None, ids) && reached(
        graph.importers,
        edge,
        id,
    ) {
        let route = choose|route: Seq<IdModel>|
            is_route(graph.importers, edge, route) && route.last() == id;
        routes_stay_inside(graph, None, edge, ids, route);
    }
}

/// What a platform keeps of a graph is the least there can be: everything that
/// its projects depend on, and everything that what is kept depends on but for
/// optional packages that do not run there, and nothing but that.
pub proof fn exactly_what_a_platform_leads_to_is_kept(
    graph: GraphModel,
    platform: PlatformModel,
    ids: Set<IdModel>,
    id: IdModel,
)
    ensures
        ({
            let kept = Set::new(|id: IdModel| kept_on(graph, platform, id));
            &&& holds_roots(graph, kept)
            &&& is_closed_on(graph, Some(platform), kept)
            &&& platform_graph(graph, platform).packages.contains_key(id)
                <==> graph.packages.contains_key(id) && kept.contains(id)
            &&& holds_roots(graph, ids) && is_closed_on(graph, Some(platform), ids)
                && kept.contains(id) ==> ids.contains(id)
        }),
{
    let edge = followed_edge(graph.packages, platform);
    let kept = Set::new(|id: IdModel| kept_on(graph, platform, id));
    assert forall|path: Seq<char>, name: Seq<char>|
        graph.importers.contains_key(path) && #[trigger] graph.importers[path].contains_key(name)
            && graph.importers[path][name].resolution is Registry implies kept.contains(
        graph.importers[path][name].resolution->Registry_0,
    ) by {
        let root = graph.importers[path][name].resolution->Registry_0;
        assert(is_root(graph.importers, root));
        roots_are_reached(graph, edge, root);
    }
    assert forall|from: IdModel, name: Seq<char>|
        kept.contains(from) && graph.packages.contains_key(from)
            && #[trigger] graph.packages[from].dependencies.contains_key(name) && !is_dispensable(
            graph,
            platform,
            from,
            name,
        ) implies kept.contains(graph.packages[from].dependencies[name]) by {
        let to = graph.packages[from].dependencies[name];
        assert(follows(graph.packages, platform, from, to));
        assert(edge(from, to));
        edges_lead_on(graph, edge, from, to);
    }
    if holds_roots(graph, ids) && is_closed_on(graph, Some(platform), ids) && kept_on(
        graph,
        platform,
        id,
    ) {
        let route = choose|route: Seq<IdModel>|
            is_route(graph.importers, edge, route) && route.last() == id;
        routes_stay_inside(graph, Some(platform), edge, ids, route);
    }
}

/// A package that a platform keeps has all of its edges there that lead to
/// something kept, to peers and to dependencies alike, with their marks, and is
/// otherwise as it was.
pub proof fn kept_packages_lose_only_what_is_gone(
    graph: GraphModel,
    platform: PlatformModel,
    id: IdModel,
    name: Seq<char>,
)
    requires
        platform_graph(graph, platform).packages.contains_key(id),
    ensures
        ({
            let before = graph.packages[id];
            let after = platform_graph(graph, platform).packages[id];
            &&& after.dependencies.contains_key(name) <==> before.dependencies.contains_key(name)
                && kept_on(graph, platform, before.dependencies[name])
            &&& after.dependencies.contains_key(name) ==> after.dependencies[name]
                == before.dependencies[name]
            &&& after.peers.contains_key(name) <==> before.peers.contains_key(name) && kept_on(
                graph,
                platform,
                before.peers[name],
            )
            &&& after.peers.contains_key(name) ==> after.peers[name] == before.peers[name]
            &&& after.optional_dependencies.contains(name)
                <==> before.optional_dependencies.contains(name)
                && after.dependencies.contains_key(name)
            &&& after == (PackageModel {
                dependencies: after.dependencies,
                peers: after.peers,
                optional_dependencies: after.optional_dependencies,
                ..before
            })
            &&& platform_graph(graph, platform).importers == graph.importers
        }),
{
}

/// What is skipped on a platform is what nothing keeps there and some package
/// that is kept would have had as an optional dependency.
pub proof fn only_dispensable_packages_are_skipped(
    graph: GraphModel,
    platform: PlatformModel,
    from: IdModel,
    name: Seq<char>,
)
    requires
        graph.packages.contains_key(from),
        kept_on(graph, platform, from),
        graph.packages[from].dependencies.contains_key(name),
    ensures
        ({
            let to = graph.packages[from].dependencies[name];
            &&& is_dispensable(graph, platform, from, name) && !kept_on(graph, platform, to)
                ==> skipped_on(graph, platform, to)
            &&& skipped_on(graph, platform, to) ==> !kept_on(graph, platform, to)
                && graph.packages.contains_key(to) && !support_admits(
                graph.packages[to].supports,
                platform,
            )
        }),
{
}

} // verus!
