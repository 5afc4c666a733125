//! Whose answer a peer is: that of the nearest package above which provides
//! its name, wherever that stands, and whether or not the peer is optional.

use vstd::prelude::*;
use crate::complaints::{provided_by, UnsatisfiedPeer};
use crate::copies::{
    copy_of, discovered, discovered_below, environment_of, instance_at, instance_of, no_copy,
    provider, queries, queries_are_finite, Chain, Copies,
};
use crate::graph::{depends, GraphModel, PackageModel, ResolvedGraph};
use crate::importer::ImporterPath;
use crate::instance::InstanceModel;
use crate::naming::{emitted_package, Names};
use crate::package_id::IdModel;
use crate::peer_laws::{
    are_alike, copies_in_graph, edges_end_inside, graphs_are_finite, is_finite,
    named_copies_are_known, named_copies_are_written, names_in_graph,
};
use crate::peer_pass::{copies_for, discovered_roots, peers_resolved, renamed, resolve_peers};
use crate::peers::{leads, names_needed, needs};
use crate::range::range_admits;
use crate::sorted::{in_order, in_order_lists};

verus! {

/// What is offered under a name at one level of a way down from a project: at
/// the top by the project itself, below that by the packages on the way, each
/// of which offers what it depends on.
pub open spec fn offered(
    graph: GraphModel,
    path: Seq<char>,
    way: Seq<IdModel>,
    level: int,
    name: Seq<char>,
) -> Option<IdModel> {
    if level == 0 {
        if graph.importers[path].contains_key(name)
            && graph.importers[path][name].resolution is Registry {
            Some(graph.importers[path][name].resolution->Registry_0)
        } else {
            None
        }
    } else if graph.packages[way[level - 1]].dependencies.contains_key(name) {
        Some(graph.packages[way[level - 1]].dependencies[name])
    } else {
        None
    }
}

/// Does a step of a way go to a package of the graph, by an edge of what
/// stands above?
pub open spec fn is_step(
    graph: GraphModel,
    path: Seq<char>,
    way: Seq<IdModel>,
    level: int,
) -> bool {
    &&& graph.packages.contains_key(way[level])
    &&& exists|name: Seq<char>| #[trigger]
        offered(graph, path, way, level, name) == Some(way[level])
}

/// Is this a way from a project down to a package, edge by edge?
pub open spec fn leads_down(graph: GraphModel, path: Seq<char>, way: Seq<IdModel>) -> bool {
    &&& graph.importers.contains_key(path)
    &&& forall|level: int|
        #![trigger way[level]]
        0 <= level < way.len() ==> is_step(graph, path, way, level)
}

/// Is a level the nearest to the end of a way at which a name is offered?
pub open spec fn is_nearest(
    graph: GraphModel,
    path: Seq<char>,
    way: Seq<IdModel>,
    level: int,
    name: Seq<char>,
) -> bool {
    &&& 0 <= level <= way.len()
    &&& offered(graph, path, way, level, name) is Some
    &&& forall|below: int|
        level < below <= way.len() ==> #[trigger] offered(graph, path, way, below, name) is None
}

/// The levels of a way, each as what it offers.
pub open spec fn levels_of(graph: GraphModel, path: Seq<char>, way: Seq<IdModel>) -> Chain {
    Seq::new(
        way.len() + 1,
        |level: int|
            if level == 0 {
                provided_by(graph.importers[path])
            } else {
                graph.packages[way[level - 1]].dependencies
            },
    )
}

pub(crate) proof fn levels_offer(
    graph: GraphModel,
    path: Seq<char>,
    way: Seq<IdModel>,
    level: int,
    name: Seq<char>,
)
    requires
        0 <= level <= way.len(),
    ensures
        ({
            let frame = levels_of(graph, path, way)[level];
            offered(graph, path, way, level, name) == if frame.contains_key(name) {
                Some(frame[name])
            } else {
                None
            }
        }),
{
}

proof fn provider_is_nearest(name: Seq<char>, chain: Chain)
    ensures
        provider(name, chain) is Some <==> exists|f: int|
            0 <= f < chain.len() && #[trigger] chain[f].contains_key(name),
        provider(name, chain) is Some ==> {
            let (frame, found) = provider(name, chain)->0;
            &&& frame < chain.len()
            &&& chain[frame as int].contains_key(name)
            &&& found == chain[frame as int][name]
            &&& forall|g: int| frame < g < chain.len() ==> !#[trigger] chain[g].contains_key(name)
        },
    decreases chain.len(),
{
    if chain.len() > 0 {
        let top = chain.len() - 1;
        if chain.last().contains_key(name) {
            assert(chain[top].contains_key(name));
        } else {
            let rest = chain.drop_last();
            provider_is_nearest(name, rest);
            if exists|f: int| 0 <= f < chain.len() && #[trigger] chain[f].contains_key(name) {
                let f = choose|f: int|
                    0 <= f < chain.len() && #[trigger] chain[f].contains_key(name);
                assert(f < top);
                assert(rest[f].contains_key(name));
            }
            if provider(name, chain) is Some {
                let frame = (provider(name, chain)->0).0;
                assert forall|g: int| frame < g < chain.len() implies !#[trigger] chain[
                    g
                ].contains_key(name) by {
                    if g < top {
                        assert(rest[g] == chain[g]);
                    }
                }
            }
        }
    }
}

/// The provider on a way is what is offered nearest.
pub(crate) proof fn nearest_provides(
    graph: GraphModel,
    path: Seq<char>,
    way: Seq<IdModel>,
    name: Seq<char>,
)
    ensures
        ({
            let chain = levels_of(graph, path, way);
            &&& match provider(name, chain) {
                Some((frame, found)) => is_nearest(graph, path, way, frame as int, name)
                    && offered(graph, path, way, frame as int, name) == Some(found),
                None => forall|level: int| !is_nearest(graph, path, way, level, name),
            }
            &&& forall|level: int| #[trigger]
                is_nearest(graph, path, way, level, name) ==> provider(name, chain) == Some(
                    (level as nat, offered(graph, path, way, level, name)->0),
                )
        }),
{
    let chain = levels_of(graph, path, way);
    provider_is_nearest(name, chain);
    assert forall|level: int| 0 <= level <= way.len() implies (chain[level].contains_key(name)
        <==> #[trigger] offered(graph, path, way, level, name) is Some) by {
        levels_offer(graph, path, way, level, name);
    }
    if provider(name, chain) is Some {
        let (frame, found) = provider(name, chain)->0;
        levels_offer(graph, path, way, frame as int, name);
        assert forall|below: int| frame < below <= way.len() implies #[trigger] offered(
            graph,
            path,
            way,
            below,
            name,
        ) is None by {
            assert(!chain[below].contains_key(name));
        }
        assert(is_nearest(graph, path, way, frame as int, name));
    }
    assert forall|level: int| #[trigger] is_nearest(graph, path, way, level, name) implies provider(
        name,
        chain,
    ) == Some((level as nat, offered(graph, path, way, level, name)->0)) by {
        levels_offer(graph, path, way, level, name);
        assert(chain[level].contains_key(name));
        let frame = (provider(name, chain)->0).0 as int;
        if frame < level {
            assert(!chain[level].contains_key(name));
        }
        if level < frame {
            assert(offered(graph, path, way, frame, name) is None);
        }
    }
}

/// Which copy stands at a step of a way.
spec fn stands(graph: GraphModel, path: Seq<char>, way: Seq<IdModel>, k: int) -> InstanceModel {
    instance_of(graph.packages, way[k], levels_of(graph, path, way.take(k)))
}

/// Did a copy resolve what it does below some levels, or is it about to?
spec fn is_settled_at(
    graph: GraphModel,
    copies: Copies,
    opened: Map<InstanceModel, Chain>,
    x: InstanceModel,
    chain: Chain,
) -> bool {
    &&& copies.contains_key(x)
    &&& if opened.contains_key(x) {
        opened[x] == chain
    } else {
        copies[x] == copy_of(graph.packages, graph.packages[x.package], chain)
    }
}

/// Did every copy on a way resolve what it does right there?
spec fn is_walked(
    graph: GraphModel,
    copies: Copies,
    opened: Map<InstanceModel, Chain>,
    path: Seq<char>,
    way: Seq<IdModel>,
) -> bool {
    &&& leads_down(graph, path, way)
    &&& forall|k: int|
        #![trigger way[k]]
        0 <= k < way.len() ==> is_settled_at(
            graph,
            copies,
            opened,
            stands(graph, path, way, k),
            levels_of(graph, path, way.take(k + 1)),
        )
}

/// Is there a way to a copy on which everything was resolved?
spec fn is_reached(
    graph: GraphModel,
    copies: Copies,
    opened: Map<InstanceModel, Chain>,
    x: InstanceModel,
) -> bool {
    exists|path: Seq<char>, way: Seq<IdModel>| #[trigger]
        is_walked(graph, copies, opened, path, way) && way.len() > 0 && stands(
            graph,
            path,
            way,
            way.len() - 1,
        ) == x
}

spec fn all_reached(
    graph: GraphModel,
    copies: Copies,
    opened: Map<InstanceModel, Chain>,
) -> bool {
    &&& opened.dom().subset_of(copies.dom())
    &&& forall|x: InstanceModel| #[trigger]
        copies.contains_key(x) ==> is_reached(graph, copies, opened, x)
}

spec fn entries_kept(before: Copies, after: Copies) -> bool {
    forall|x: InstanceModel| #[trigger]
        before.contains_key(x) ==> after.contains_key(x) && after[x] == before[x]
}

proof fn walks_last(
    graph: GraphModel,
    before: Copies,
    after: Copies,
    opened: Map<InstanceModel, Chain>,
    still: Map<InstanceModel, Chain>,
    path: Seq<char>,
    way: Seq<IdModel>,
)
    requires
        is_walked(graph, before, opened, path, way),
        forall|x: InstanceModel, chain: Chain| #[trigger]
            is_settled_at(graph, before, opened, x, chain) ==> is_settled_at(
                graph,
                after,
                still,
                x,
                chain,
            ),
    ensures
        is_walked(graph, after, still, path, way),
{
}

proof fn reaching_lasts(
    graph: GraphModel,
    before: Copies,
    after: Copies,
    opened: Map<InstanceModel, Chain>,
    still: Map<InstanceModel, Chain>,
    x: InstanceModel,
)
    requires
        is_reached(graph, before, opened, x),
        forall|x: InstanceModel, chain: Chain| #[trigger]
            is_settled_at(graph, before, opened, x, chain) ==> is_settled_at(
                graph,
                after,
                still,
                x,
                chain,
            ),
    ensures
        is_reached(graph, after, still, x),
{
    let (path, way) = choose|path: Seq<char>, way: Seq<IdModel>| #[trigger]
        is_walked(graph, before, opened, path, way) && way.len() > 0 && stands(
            graph,
            path,
            way,
            way.len() - 1,
        ) == x;
    walks_last(graph, before, after, opened, still, path, way);
}

/// One step further down.
proof fn way_goes_on(
    graph: GraphModel,
    copies: Copies,
    opened: Map<InstanceModel, Chain>,
    path: Seq<char>,
    way: Seq<IdModel>,
    name: Seq<char>,
    id: IdModel,
)
    requires
        is_walked(graph, copies, opened, path, way),
        graph.packages.contains_key(id),
        offered(graph, path, way, way.len() as int, name) == Some(id),
        is_settled_at(
            graph,
            copies,
            opened,
            instance_of(graph.packages, id, levels_of(graph, path, way)),
            levels_of(graph, path, way).push(graph.packages[id].dependencies),
        ),
    ensures
        is_walked(graph, copies, opened, path, way.push(id)),
        stands(graph, path, way.push(id), way.len() as int) == instance_of(
            graph.packages,
            id,
            levels_of(graph, path, way),
        ),
        levels_of(graph, path, way.push(id)) == levels_of(graph, path, way).push(
            graph.packages[id].dependencies,
        ),
{
    let more = way.push(id);
    let n = way.len() as int;
    assert(levels_of(graph, path, more) =~= levels_of(graph, path, way).push(
        graph.packages[id].dependencies,
    ));
    assert(more.take(n) =~= way);
    assert(more.take(n + 1) =~= more);
    assert forall|k: int|
        #![trigger more[k]]
        0 <= k < more.len() implies is_step(graph, path, more, k) && is_settled_at(
        graph,
        copies,
        opened,
        stands(graph, path, more, k),
        levels_of(graph, path, more.take(k + 1)),
    ) by {
        if k < n {
            assert(way[k] == more[k]);
            assert(is_step(graph, path, way, k));
            let by = choose|name: Seq<char>| #[trigger]
                offered(graph, path, way, k, name) == Some(way[k]);
            assert(offered(graph, path, more, k, by) == Some(more[k]));
            assert(more.take(k) =~= way.take(k));
            assert(more.take(k + 1) =~= way.take(k + 1));
        } else {
            assert(offered(graph, path, more, n, name) == Some(more[n]));
        }
    }
}

/// A copy that was not found before is opened where it was found.
proof fn opening(
    graph: GraphModel,
    path: Seq<char>,
    way: Seq<IdModel>,
    name: Seq<char>,
    id: IdModel,
    copies: Copies,
    opened: Map<InstanceModel, Chain>,
)
    requires
        is_finite(graph),
        graph.packages.contains_key(id),
        offered(graph, path, way, way.len() as int, name) == Some(id),
        is_walked(graph, copies, opened, path, way),
        all_reached(graph, copies, opened),
        !copies.contains_key(instance_of(graph.packages, id, levels_of(graph, path, way))),
    ensures
        ({
            let here = instance_of(graph.packages, id, levels_of(graph, path, way));
            let start = copies.insert(here, no_copy());
            let more = opened.insert(here, levels_of(graph, path, way.push(id)));
            &&& is_walked(graph, start, more, path, way.push(id))
            &&& all_reached(graph, start, more)
            &&& levels_of(graph, path, way.push(id)) == levels_of(graph, path, way).push(
                graph.packages[id].dependencies,
            )
        }),
{
    let chain = levels_of(graph, path, way);
    let here = instance_of(graph.packages, id, chain);
    let longer = chain.push(graph.packages[id].dependencies);
    let start = copies.insert(here, no_copy());
    let more = opened.insert(here, longer);
    assert(!opened.dom().contains(here));
    assert forall|x: InstanceModel, c: Chain| #[trigger]
        is_settled_at(graph, copies, opened, x, c) implies is_settled_at(
        graph,
        start,
        more,
        x,
        c,
    ) by {}
    walks_last(graph, copies, start, opened, more, path, way);
    way_goes_on(graph, start, more, path, way, name, id);
    assert forall|x: InstanceModel| #[trigger] start.contains_key(x) implies is_reached(
        graph,
        start,
        more,
        x,
    ) by {
        if x == here {
            assert(way.push(id).len() - 1 == way.len());
        } else {
            assert(copies.contains_key(x));
            reaching_lasts(graph, copies, start, opened, more, x);
        }
    }
    assert(more.dom().subset_of(start.dom()));
}

/// A copy that is opened is closed again where it was opened.
proof fn closing(
    graph: GraphModel,
    here: InstanceModel,
    chain: Chain,
    found: Copies,
    opened: Map<InstanceModel, Chain>,
)
    requires
        !opened.contains_key(here),
        all_reached(graph, found, opened.insert(here, chain)),
    ensures
        all_reached(
            graph,
            found.insert(here, copy_of(graph.packages, graph.packages[here.package], chain)),
            opened,
        ),
{
    let more = opened.insert(here, chain);
    let after = found.insert(here, copy_of(graph.packages, graph.packages[here.package], chain));
    assert forall|x: InstanceModel, c: Chain| #[trigger]
        is_settled_at(graph, found, more, x, c) implies is_settled_at(
        graph,
        after,
        opened,
        x,
        c,
    ) by {}
    assert(more.dom().contains(here));
    assert(found.dom().contains(here));
    assert forall|x: InstanceModel| #[trigger] after.contains_key(x) implies is_reached(
        graph,
        after,
        opened,
        x,
    ) by {
        assert(found.contains_key(x));
        reaching_lasts(graph, found, after, more, opened, x);
    }
    assert(opened.dom().subset_of(after.dom())) by {
        assert forall|x: InstanceModel| opened.dom().contains(x) implies after.dom().contains(
            x,
        ) by {
            assert(more.dom().contains(x));
        }
    }
}

proof fn discovery_walks(
    graph: GraphModel,
    path: Seq<char>,
    way: Seq<IdModel>,
    name: Seq<char>,
    id: IdModel,
    copies: Copies,
    opened: Map<InstanceModel, Chain>,
    levels: nat,
)
    requires
        graph.packages.dom().finite(),
        is_finite(graph),
        edges_end_inside(graph),
        graph.packages.contains_key(id),
        offered(graph, path, way, way.len() as int, name) == Some(id),
        is_walked(graph, copies, opened, path, way),
        all_reached(graph, copies, opened),
        discovered(graph.packages, id, levels_of(graph, path, way), copies, levels) is Some,
    ensures
        ({
            let after = discovered(
                graph.packages,
                id,
                levels_of(graph, path, way),
                copies,
                levels,
            )->0;
            all_reached(graph, after, opened) && entries_kept(copies, after)
        }),
    decreases levels, 0nat,
{
    let packages = graph.packages;
    let chain = levels_of(graph, path, way);
    let here = instance_of(packages, id, chain);
    queries_are_finite(packages, chain.len());
    assert(here.package == id);
    if !copies.contains_key(here) {
        let deps = packages[id].dependencies;
        let longer = chain.push(deps);
        let start = copies.insert(here, no_copy());
        let more = opened.insert(here, longer);
        opening(graph, path, way, name, id, copies, opened);
        let names = in_order::<String>(deps.dom());
        in_order_lists::<String>(deps.dom());
        assert forall|i: int| 0 <= i < names.len() implies #[trigger] deps.contains_key(
            names[i],
        ) by {
            assert(names.to_set().contains(names[i]));
        }
        discovery_below_walks(
            graph,
            path,
            way.push(id),
            names,
            deps,
            start,
            more,
            (levels - 1) as nat,
        );
        let found = discovered_below(packages, names, deps, longer, start, (levels - 1) as nat)->0;
        let after = found.insert(here, copy_of(packages, packages[id], longer));
        assert(!opened.dom().contains(here));
        closing(graph, here, longer, found, opened);
        assert forall|x: InstanceModel| #[trigger] copies.contains_key(x) implies after.contains_key(
            x,
        ) && after[x] == copies[x] by {
            assert(start.contains_key(x));
        }
    }
}

proof fn discovery_below_walks(
    graph: GraphModel,
    path: Seq<char>,
    way: Seq<IdModel>,
    names: Seq<Seq<char>>,
    deps: Map<Seq<char>, IdModel>,
    copies: Copies,
    opened: Map<InstanceModel, Chain>,
    levels: nat,
)
    requires
        is_finite(graph),
        edges_end_inside(graph),
        deps == levels_of(graph, path, way).last(),
        forall|i: int| 0 <= i < names.len() ==> #[trigger] deps.contains_key(names[i]),
        is_walked(graph, copies, opened, path, way),
        all_reached(graph, copies, opened),
        discovered_below(
            graph.packages,
            names,
            deps,
            levels_of(graph, path, way),
            copies,
            levels,
        ) is Some,
    ensures
        ({
            let after = discovered_below(
                graph.packages,
                names,
                deps,
                levels_of(graph, path, way),
                copies,
                levels,
            )->0;
            all_reached(graph, after, opened) && entries_kept(copies, after)
        }),
    decreases levels, names.len(),
{
    if names.len() > 0 {
        let rest = names.drop_last();
        let chain = levels_of(graph, path, way);
        assert forall|i: int| 0 <= i < rest.len() implies #[trigger] deps.contains_key(rest[i]) by {
            assert(deps.contains_key(names[i]));
        }
        discovery_below_walks(graph, path, way, rest, deps, copies, opened, levels);
        let before = discovered_below(graph.packages, rest, deps, chain, copies, levels)->0;
        assert forall|x: InstanceModel, c: Chain| #[trigger]
            is_settled_at(graph, copies, opened, x, c) implies is_settled_at(
            graph,
            before,
            opened,
            x,
            c,
        ) by {}
        walks_last(graph, copies, before, opened, opened, path, way);
        let name = names[names.len() - 1];
        assert(deps.contains_key(name));
        let n = way.len() as int;
        assert(chain.last() == chain[n]);
        levels_offer(graph, path, way, n, name);
        if n > 0 {
            assert(graph.packages.contains_key(way[n - 1]));
        }
        discovery_walks(graph, path, way, name, deps[name], before, opened, levels);
    }
}

proof fn discovery_of_roots_walks(graph: GraphModel, paths: Seq<Seq<char>>, levels: nat)
    requires
        is_finite(graph),
        edges_end_inside(graph),
        forall|i: int| 0 <= i < paths.len() ==> graph.importers.contains_key(#[trigger] paths[i]),
        discovered_roots(graph, paths, levels) is Some,
    ensures
        all_reached(graph, discovered_roots(graph, paths, levels)->0, Map::empty()),
    decreases paths.len(),
{
    let opened = Map::<InstanceModel, Chain>::empty();
    if paths.len() > 0 {
        let rest = paths.drop_last();
        assert forall|i: int| 0 <= i < rest.len() implies graph.importers.contains_key(
            #[trigger] rest[i],
        ) by {
            assert(rest[i] == paths[i]);
        }
        discovery_of_roots_walks(graph, rest, levels);
        let before = discovered_roots(graph, rest, levels)->0;
        let path = paths[paths.len() - 1];
        assert(graph.importers.contains_key(path));
        let frame = provided_by(graph.importers[path]);
        let none = Seq::<IdModel>::empty();
        assert(levels_of(graph, path, none) =~= seq![frame]);
        let names = in_order::<String>(frame.dom());
        assert(frame.dom().subset_of(graph.importers[path].dom()));
        vstd::set_lib::lemma_set_subset_finite(graph.importers[path].dom(), frame.dom());
        in_order_lists::<String>(frame.dom());
        assert forall|i: int| 0 <= i < names.len() implies #[trigger] frame.contains_key(
            names[i],
        ) by {
            assert(names.to_set().contains(names[i]));
        }
        assert(is_walked(graph, before, opened, path, none));
        discovery_below_walks(graph, path, none, names, frame, before, opened, levels);
    }
}

/// Does a package have a peer answered by what is offered nearest above it,
/// if and only if it declares that peer and the range it declares admits the
/// version that is offered? Whether the peer is optional is not asked.
pub open spec fn answers_nearest(
    graph: GraphModel,
    path: Seq<char>,
    way: Seq<IdModel>,
    package: PackageModel,
    name: Seq<char>,
) -> bool {
    package.peers.contains_key(name) <==> package.declared_peers.contains_key(name) && exists|
        level: int,
    | #[trigger]
        is_nearest(graph, path, way, level, name) && range_admits(
            package.declared_peers[name].range,
            (offered(graph, path, way, level, name)->0).version,
        )
}

/// Is a peer's answer the package that is offered nearest: the very one that
/// the project came to where the project offers it, and the very one that the
/// package depends on where it does so itself?
pub open spec fn is_answer(
    graph: GraphModel,
    resolved: GraphModel,
    path: Seq<char>,
    way: Seq<IdModel>,
    package: PackageModel,
    level: int,
    name: Seq<char>,
) -> bool {
    let answer = package.peers[name];
    let provider = offered(graph, path, way, level, name)->0;
    &&& answer.name == provider.name
    &&& answer.version == provider.version
    &&& level == 0 ==> offered(resolved, path, way, 0, name) == Some(answer)
    &&& level == way.len() ==> package.dependencies.contains_key(name)
        && package.dependencies[name] == answer
}

/// Does a package stand at the end of a way down a graph, with each of its
/// peers answered from what is offered on that way?
pub open spec fn answers_on_the_way(
    graph: GraphModel,
    resolved: GraphModel,
    path: Seq<char>,
    way: Seq<IdModel>,
    package: PackageModel,
) -> bool {
    &&& leads_down(graph, path, way)
    &&& way.len() > 0
    &&& way.last().name == package.id.name
    &&& way.last().version == package.id.version
    &&& forall|name: Seq<char>| #[trigger] answers_nearest(graph, path, way, package, name)
    &&& forall|level: int, name: Seq<char>| #[trigger]
        is_nearest(graph, path, way, level, name) && package.peers.contains_key(name) ==> is_answer(
            graph,
            resolved,
            path,
            way,
            package,
            level,
            name,
        )
}

/// The copy at the end of a way on which everything was resolved.
proof fn end_of_a_way(graph: GraphModel, copies: Copies, path: Seq<char>, way: Seq<IdModel>, k: int)
    requires
        is_finite(graph),
        is_walked(graph, copies, Map::empty(), path, way),
        0 <= k < way.len(),
    ensures
        ({
            let x = stands(graph, path, way, k);
            &&& x.package == way[k]
            &&& graph.packages.contains_key(way[k])
            &&& copies.contains_key(x)
            &&& copies[x] == copy_of(
                graph.packages,
                graph.packages[way[k]],
                levels_of(graph, path, way.take(k + 1)),
            )
        }),
{
    let x = stands(graph, path, way, k);
    queries_are_finite(graph.packages, levels_of(graph, path, way.take(k)).len());
    assert(is_step(graph, path, way, k));
    assert(is_settled_at(
        graph,
        copies,
        Map::empty(),
        x,
        levels_of(graph, path, way.take(k + 1)),
    ));
}

/// The levels above a step are the first levels of the way.
proof fn first_levels(graph: GraphModel, path: Seq<char>, way: Seq<IdModel>, k: int)
    requires
        0 <= k <= way.len(),
    ensures
        levels_of(graph, path, way.take(k)) == levels_of(graph, path, way).take(k + 1),
{
    assert(levels_of(graph, path, way.take(k)) =~= levels_of(graph, path, way).take(k + 1));
}

/// Every copy was resolved on a way from a project down.
proof fn copies_are_reached(graph: GraphModel, levels: nat)
    requires
        is_finite(graph),
        edges_end_inside(graph),
        peers_resolved(graph, levels) is Some,
    ensures
        all_reached(graph, copies_in_graph(graph, levels), Map::empty()),
{
    let paths = in_order::<ImporterPath>(graph.importers.dom());
    in_order_lists::<ImporterPath>(graph.importers.dom());
    assert forall|i: int| 0 <= i < paths.len() implies graph.importers.contains_key(
        #[trigger] paths[i],
    ) by {
        assert(paths.to_set().contains(paths[i]));
    }
    discovery_of_roots_walks(graph, paths, levels);
}

/// The way on which a copy was first found.
pub(crate) proof fn first_way_of(graph: GraphModel, levels: nat, x: InstanceModel) -> (found: (
    Seq<char>,
    Seq<IdModel>,
))
    requires
        is_finite(graph),
        edges_end_inside(graph),
        peers_resolved(graph, levels) is Some,
        copies_in_graph(graph, levels).contains_key(x),
    ensures
        found.1.len() > 0,
        found.1.last() == x.package,
        graph.packages.contains_key(x.package),
        x == instance_of(graph.packages, x.package, levels_of(graph, found.0, found.1.drop_last())),
        copies_in_graph(graph, levels)[x] == copy_of(
            graph.packages,
            graph.packages[x.package],
            levels_of(graph, found.0, found.1),
        ),
{
    let copies = copies_in_graph(graph, levels);
    copies_are_reached(graph, levels);
    assert(is_reached(graph, copies, Map::empty(), x));
    let (path, way) = choose|path: Seq<char>, way: Seq<IdModel>| #[trigger]
        is_walked(graph, copies, Map::empty(), path, way) && way.len() > 0 && stands(
            graph,
            path,
            way,
            way.len() - 1,
        ) == x;
    let n = way.len() as int;
    end_of_a_way(graph, copies, path, way, n - 1);
    assert(way.take(n) =~= way);
    assert(way.drop_last() =~= way.take(n - 1));
    (path, way)
}

/// Each package of a graph whose peers were resolved stands at the end of a
/// way down from a project, and of the peers that it declares, optional or
/// not, it has exactly those that something on the way offers at a version
/// which the declared range admits, the nearest offer counting. What it has is
/// what was offered.
pub proof fn peers_come_from_the_nearest(graph: GraphModel, levels: nat, id: IdModel)
    requires
        is_finite(graph),
        edges_end_inside(graph),
        peers_resolved(graph, levels) is Some,
        (peers_resolved(graph, levels)->0).packages.contains_key(id),
    ensures
        exists|path: Seq<char>, way: Seq<IdModel>| #[trigger]
            answers_on_the_way(
                graph,
                peers_resolved(graph, levels)->0,
                path,
                way,
                (peers_resolved(graph, levels)->0).packages[id],
            ),
        (peers_resolved(graph, levels)->0).packages[id].id == id,
{
    let resolved = peers_resolved(graph, levels)->0;
    let copies = copies_in_graph(graph, levels);
    let names = names_in_graph(graph, levels);
    named_copies_are_known(graph, levels);
    copies_are_reached(graph, levels);
    let package = resolved.packages[id];
    let x = choose|x: InstanceModel| #[trigger]
        names.contains_key(x) && names[x] == id && resolved.packages[id] == emitted_package(
            graph.packages[x.package],
            copies[x],
            names,
            id,
        );
    assert(names.dom().contains(x));
    assert(copies.dom().contains(x));
    assert(copies.contains_key(x));
    assert(is_reached(graph, copies, Map::empty(), x));
    let (path, way) = choose|path: Seq<char>, way: Seq<IdModel>| #[trigger]
        is_walked(graph, copies, Map::empty(), path, way) && way.len() > 0 && stands(
            graph,
            path,
            way,
            way.len() - 1,
        ) == x;
    let n = way.len() as int;
    end_of_a_way(graph, copies, path, way, n - 1);
    assert(way.take(n) =~= way);
    let chain = levels_of(graph, path, way);
    let copy = copies[x];
    assert(copy == copy_of(graph.packages, graph.packages[x.package], chain));
    assert forall|name: Seq<char>| #[trigger] answers_nearest(graph, path, way, package, name) by {
        nearest_provides(graph, path, way, name);
        assert(package.peers.contains_key(name) <==> copy.own.contains_key(name));
        if package.peers.contains_key(name) {
            let level = (provider(name, chain)->0).0 as int;
            assert(is_nearest(graph, path, way, level, name));
        }
    }
    assert forall|level: int, name: Seq<char>| #[trigger]
        is_nearest(graph, path, way, level, name) && package.peers.contains_key(
            name,
        ) implies is_answer(graph, resolved, path, way, package, level, name) by {
        nearest_provides(graph, path, way, name);
        assert(copy.own.contains_key(name));
        let found = offered(graph, path, way, level, name)->0;
        let y = copy.own[name];
        assert(y == instance_of(graph.packages, found, chain.take(level + 1)));
        queries_are_finite(graph.packages, chain.take(level + 1).len());
        assert(y.package == found);
        assert(names.contains_key(y));
        if level == 0 {
            let frame = provided_by(graph.importers[path]);
            assert(chain.take(1) =~= seq![frame]);
            let targets = copies_for(graph, path);
            assert(targets.contains_key(name) && targets[name] == y);
            assert(resolved.importers[path] == renamed(graph.importers[path], targets, names));
        }
        if level == n {
            assert(chain.take(n + 1) =~= chain);
            assert(copy.dependencies.contains_key(name));
            assert(copy.dependencies[name] == y);
        }
    }
    assert(answers_on_the_way(graph, resolved, path, way, package));
}

/// A way down, by the names that the copies on it were given.
spec fn named_way(
    graph: GraphModel,
    names: Names,
    path: Seq<char>,
    way: Seq<IdModel>,
) -> Seq<IdModel> {
    Seq::new(way.len(), |k: int| names[stands(graph, path, way, k)])
}

/// Each copy on a way was given a name.
proof fn ways_are_named(graph: GraphModel, levels: nat, path: Seq<char>, way: Seq<IdModel>, k: int)
    requires
        is_finite(graph),
        edges_end_inside(graph),
        peers_resolved(graph, levels) is Some,
        is_walked(graph, copies_in_graph(graph, levels), Map::empty(), path, way),
        0 <= k < way.len(),
    ensures
        names_in_graph(graph, levels).contains_key(stands(graph, path, way, k)),
    decreases k,
{
    let copies = copies_in_graph(graph, levels);
    named_copies_are_known(graph, levels);
    assert(is_step(graph, path, way, k));
    let name = choose|name: Seq<char>| #[trigger]
        offered(graph, path, way, k, name) == Some(way[k]);
    if k == 0 {
        let frame = provided_by(graph.importers[path]);
        assert(levels_of(graph, path, way.take(0)) =~= seq![frame]);
        assert(copies_for(graph, path).contains_key(name));
    } else {
        ways_are_named(graph, levels, path, way, k - 1);
        end_of_a_way(graph, copies, path, way, k - 1);
        let above = stands(graph, path, way, k - 1);
        assert(copies[above].dependencies.contains_key(name));
        assert(copies[above].dependencies[name] == stands(graph, path, way, k));
    }
}

/// What is offered on a way is offered on the way of its names, by name.
proof fn offers_are_named(
    graph: GraphModel,
    levels: nat,
    path: Seq<char>,
    way: Seq<IdModel>,
    level: int,
    name: Seq<char>,
)
    requires
        is_finite(graph),
        edges_end_inside(graph),
        peers_resolved(graph, levels) is Some,
        are_alike(graph, levels),
        is_walked(graph, copies_in_graph(graph, levels), Map::empty(), path, way),
        0 <= level <= way.len(),
    ensures
        ({
            let names = names_in_graph(graph, levels);
            let resolved = peers_resolved(graph, levels)->0;
            offered(resolved, path, named_way(graph, names, path, way), level, name)
                == match offered(graph, path, way, level, name) {
                Some(id) => Some(
                    names[instance_of(graph.packages, id, levels_of(graph, path, way.take(level)))],
                ),
                None => None,
            }
        }),
        offered(graph, path, way, level, name) is Some ==> ({
            let id = offered(graph, path, way, level, name)->0;
            let x = instance_of(graph.packages, id, levels_of(graph, path, way.take(level)));
            names_in_graph(graph, levels).contains_key(x) && x.package == id
        }),
{
    let copies = copies_in_graph(graph, levels);
    let names = names_in_graph(graph, levels);
    let resolved = peers_resolved(graph, levels)->0;
    let chain = levels_of(graph, path, way.take(level));
    queries_are_finite(graph.packages, chain.len());
    named_copies_are_known(graph, levels);
    named_copies_are_written(graph, levels);
    if level == 0 {
        let frame = provided_by(graph.importers[path]);
        assert(chain =~= seq![frame]);
        let targets = copies_for(graph, path);
        assert(resolved.importers[path] == renamed(graph.importers[path], targets, names));
        if offered(graph, path, way, 0, name) is Some {
            assert(targets.contains_key(name));
        }
    } else {
        ways_are_named(graph, levels, path, way, level - 1);
        end_of_a_way(graph, copies, path, way, level - 1);
        let above = stands(graph, path, way, level - 1);
        let copy = copies[above];
        assert(resolved.packages[names[above]] == emitted_package(
            graph.packages[above.package],
            copy,
            names,
            names[above],
        ));
        assert(copy.dependencies.dom() =~= graph.packages[way[level - 1]].dependencies.dom());
        if offered(graph, path, way, level, name) is Some {
            assert(copy.dependencies.contains_key(name));
        }
    }
}

/// Where copies of one name are alike, as they are unless peers go round, all
/// of this shows in the graph that comes out: each package stands at the end
/// of a way down from a project, and of the peers that it declares, optional
/// or not, it has exactly those that something on the way offers at a version
/// which the declared range admits. The nearest offer counts, and the peer
/// leads to the very package that was offered.
pub proof fn peers_lead_to_the_nearest(graph: GraphModel, levels: nat, id: IdModel)
    requires
        is_finite(graph),
        edges_end_inside(graph),
        peers_resolved(graph, levels) is Some,
        are_alike(graph, levels),
        (peers_resolved(graph, levels)->0).packages.contains_key(id),
    ensures
        ({
            let resolved = peers_resolved(graph, levels)->0;
            let package = resolved.packages[id];
            exists|path: Seq<char>, way: Seq<IdModel>|
                {
                    &&& #[trigger] leads_down(resolved, path, way)
                    &&& way.len() > 0
                    &&& way.last() == id
                    &&& forall|name: Seq<char>| #[trigger]
                        answers_nearest(resolved, path, way, package, name)
                    &&& forall|level: int, name: Seq<char>| #[trigger]
                        is_nearest(resolved, path, way, level, name) && package.peers.contains_key(
                            name,
                        ) ==> offered(resolved, path, way, level, name) == Some(
                            package.peers[name],
                        )
                }
        }),
{
    let resolved = peers_resolved(graph, levels)->0;
    let copies = copies_in_graph(graph, levels);
    let names = names_in_graph(graph, levels);
    named_copies_are_known(graph, levels);
    named_copies_are_written(graph, levels);
    copies_are_reached(graph, levels);
    let package = resolved.packages[id];
    let x = choose|x: InstanceModel| #[trigger] names.contains_key(x) && names[x] == id;
    assert(names.dom().contains(x));
    assert(copies.dom().contains(x));
    assert(copies.contains_key(x));
    assert(is_reached(graph, copies, Map::empty(), x));
    let (path, route) = choose|path: Seq<char>, way: Seq<IdModel>| #[trigger]
        is_walked(graph, copies, Map::empty(), path, way) && way.len() > 0 && stands(
            graph,
            path,
            way,
            way.len() - 1,
        ) == x;
    let way = named_way(graph, names, path, route);
    let n = route.len() as int;
    end_of_a_way(graph, copies, path, route, n - 1);
    assert(route.take(n) =~= route);
    let chain = levels_of(graph, path, route);
    let copy = copies[x];
    assert(way.last() == id);
    assert forall|level: int| #![trigger way[level]] 0 <= level < way.len() implies is_step(
        resolved,
        path,
        way,
        level,
    ) by {
        ways_are_named(graph, levels, path, route, level);
        assert(is_step(graph, path, route, level));
        let by = choose|name: Seq<char>| #[trigger]
            offered(graph, path, route, level, name) == Some(route[level]);
        offers_are_named(graph, levels, path, route, level, by);
        assert(offered(resolved, path, way, level, by) == Some(way[level]));
    }
    assert(leads_down(resolved, path, way));
    assert forall|level: int, name: Seq<char>|
        0 <= level <= n implies (#[trigger] offered(resolved, path, way, level, name) is Some
        <==> offered(graph, path, route, level, name) is Some) by {
        offers_are_named(graph, levels, path, route, level, name);
    }
    assert forall|level: int, name: Seq<char>| #[trigger]
        is_nearest(resolved, path, way, level, name) <==> is_nearest(
            graph,
            path,
            route,
            level,
            name,
        ) by {
        if is_nearest(resolved, path, way, level, name) {
            assert forall|below: int| level < below <= n implies #[trigger] offered(
                graph,
                path,
                route,
                below,
                name,
            ) is None by {
                assert(offered(resolved, path, way, below, name) is None);
            }
        }
        if is_nearest(graph, path, route, level, name) {
            assert(offered(resolved, path, way, level, name) is Some);
            assert forall|below: int| level < below <= n implies #[trigger] offered(
                resolved,
                path,
                way,
                below,
                name,
            ) is None by {
                assert(offered(graph, path, route, below, name) is None);
            }
        }
    }
    assert forall|name: Seq<char>| #[trigger] answers_nearest(
        resolved,
        path,
        way,
        package,
        name,
    ) by {
        nearest_provides(graph, path, route, name);
        assert(package.peers.contains_key(name) <==> copy.own.contains_key(name));
        if package.peers.contains_key(name) {
            let level = (provider(name, chain)->0).0 as int;
            assert(is_nearest(resolved, path, way, level, name));
            offers_are_named(graph, levels, path, route, level, name);
        }
        if exists|level: int| #[trigger]
            is_nearest(resolved, path, way, level, name) && range_admits(
                package.declared_peers[name].range,
                (offered(resolved, path, way, level, name)->0).version,
            ) {
            let level = choose|level: int| #[trigger]
                is_nearest(resolved, path, way, level, name) && range_admits(
                    package.declared_peers[name].range,
                    (offered(resolved, path, way, level, name)->0).version,
                );
            offers_are_named(graph, levels, path, route, level, name);
            assert(is_nearest(graph, path, route, level, name));
        }
    }
    assert forall|level: int, name: Seq<char>| #[trigger]
        is_nearest(resolved, path, way, level, name) && package.peers.contains_key(
            name,
        ) implies offered(resolved, path, way, level, name) == Some(package.peers[name]) by {
        assert(is_nearest(graph, path, route, level, name));
        nearest_provides(graph, path, route, name);
        offers_are_named(graph, levels, path, route, level, name);
        first_levels(graph, path, route, level);
        assert(copy.own.contains_key(name));
    }
}

/// What an environment holds: an entry for each name that is provided above
/// and that the package does not provide itself, made of a copy of what
/// provides it.
proof fn environments_list_providers(
    packages: Map<IdModel, PackageModel>,
    names: Seq<Seq<char>>,
    id: IdModel,
    chain: Chain,
    open: Set<(IdModel, nat)>,
)
    requires
        open.finite(),
    ensures
        ({
            let environment = environment_of(packages, names, id, chain, open);
            &&& forall|i: int|
                0 <= i < environment.len() ==> {
                    let (name, answer) = #[trigger] environment[i];
                    provider(name, chain) is Some && (provider(name, chain)->0).1 == answer.package
                }
            &&& forall|name: Seq<char>| #[trigger]
                names.contains(name) && !packages[id].dependencies.contains_key(name) && provider(
                    name,
                    chain,
                ) is Some ==> exists|i: int|
                    0 <= i < environment.len() && (#[trigger] environment[i]).0 == name
        }),
    decreases names.len(),
{
    if names.len() > 0 {
        let shorter = names.drop_last();
        let last = names.last();
        environments_list_providers(packages, shorter, id, chain, open);
        let before = environment_of(packages, shorter, id, chain, open);
        let after = environment_of(packages, names, id, chain, open);
        if provider(last, chain) is Some {
            let (frame, found) = provider(last, chain)->0;
            assert(instance_at(packages, found, chain.take(frame as int + 1), open).package
                == found);
        }
        assert forall|i: int| 0 <= i < after.len() implies {
            let (name, answer) = #[trigger] after[i];
            provider(name, chain) is Some && (provider(name, chain)->0).1 == answer.package
        } by {
            if i < before.len() {
                assert(after[i] == before[i]);
            }
        }
        assert forall|name: Seq<char>| #[trigger]
            names.contains(name) && !packages[id].dependencies.contains_key(name) && provider(
                name,
                chain,
            ) is Some implies exists|i: int|
            0 <= i < after.len() && (#[trigger] after[i]).0 == name by {
            if shorter.contains(name) {
                let i = choose|i: int| 0 <= i < before.len() && (#[trigger] before[i]).0 == name;
                assert(after[i] == before[i]);
            } else {
                let k = names.index_of(name);
                if k < shorter.len() {
                    assert(shorter[k] == name);
                }
                assert(name == last);
                assert(after[before.len() as int].0 == name);
            }
        }
    }
}

/// Does a line of dependencies go down from one package to another that
/// declares a peer?
pub open spec fn asks_below(graph: GraphModel, line: Seq<IdModel>, name: Seq<char>) -> bool {
    &&& line.len() > 0
    &&& forall|i: int|
        0 <= i < line.len() - 1 ==> graph.packages.contains_key(#[trigger] line[i]) && exists|
            by: Seq<char>,
        | #[trigger]
            graph.packages[line[i]].dependencies.contains_key(by)
                && graph.packages[line[i]].dependencies[by] == line[i + 1]
    &&& graph.packages.contains_key(line.last())
    &&& graph.packages[line.last()].declared_peers.contains_key(name)
}

/// Two ways lead to one and the same copy of a package only if they offer the
/// same: for each name that something in the package's subtree asks for and
/// the package does not depend on, either neither way offers it, or what is
/// offered nearest is the same package on both.
pub proof fn one_copy_sees_one_environment(
    graph: GraphModel,
    id: IdModel,
    line: Seq<IdModel>,
    path: Seq<char>,
    way: Seq<IdModel>,
    other_path: Seq<char>,
    other_way: Seq<IdModel>,
    name: Seq<char>,
    level: int,
)
    requires
        is_finite(graph),
        graph.packages.contains_key(id),
        instance_of(graph.packages, id, levels_of(graph, path, way)) == instance_of(
            graph.packages,
            id,
            levels_of(graph, other_path, other_way),
        ),
        asks_below(graph, line, name),
        line[0] == id,
        !graph.packages[id].dependencies.contains_key(name),
        is_nearest(graph, path, way, level, name),
    ensures
        exists|other_level: int| #[trigger]
            is_nearest(graph, other_path, other_way, other_level, name) && offered(
                graph,
                other_path,
                other_way,
                other_level,
                name,
            ) == offered(graph, path, way, level, name),
{
    let packages = graph.packages;
    let chain = levels_of(graph, path, way);
    let other = levels_of(graph, other_path, other_way);
    let wanted = names_needed(packages)[id];
    let names = in_order::<String>(wanted);
    needed_names_are_finite(graph, id);
    assert forall|i: int| 0 <= i < line.len() - 1 implies depends(
        packages,
        #[trigger] line[i],
        line[i + 1],
    ) by {}
    assert(leads(packages, line));
    assert(needs(packages, id, name));
    in_order_lists::<String>(wanted);
    assert(names.to_set().contains(name));
    queries_are_finite(packages, chain.len());
    queries_are_finite(packages, other.len());
    let open = queries(packages, chain.len()).remove((id, chain.len()));
    let other_open = queries(packages, other.len()).remove((id, other.len()));
    let environment = environment_of(packages, names, id, chain, open);
    assert(environment == instance_of(packages, id, chain).environment);
    assert(environment == environment_of(packages, names, id, other, other_open));
    environments_list_providers(packages, names, id, chain, open);
    environments_list_providers(packages, names, id, other, other_open);
    nearest_provides(graph, path, way, name);
    nearest_provides(graph, other_path, other_way, name);
    let i = choose|i: int| 0 <= i < environment.len() && (#[trigger] environment[i]).0 == name;
    assert(environment[i].0 == name);
    let found = (provider(name, other)->0).0 as int;
    assert(is_nearest(graph, other_path, other_way, found, name));
}

/// A package's subtree asks for finitely many names.
proof fn needed_names_are_finite(graph: GraphModel, id: IdModel)
    requires
        is_finite(graph),
        graph.packages.contains_key(id),
    ensures
        names_needed(graph.packages)[id].finite(),
{
    declared_names_are_finite(graph, graph.packages.dom());
    let wanted = names_needed(graph.packages)[id];
    let all = declared_by(graph, graph.packages.dom());
    assert(wanted.subset_of(all)) by {
        assert forall|name: Seq<char>| wanted.contains(name) implies all.contains(name) by {
            let route = choose|route: Seq<IdModel>| #[trigger]
                leads(graph.packages, route) && route[0] == id && graph.packages.contains_key(
                    route.last(),
                ) && graph.packages[route.last()].declared_peers.contains_key(name);
            assert(graph.packages.dom().contains(route.last()));
        }
    }
    vstd::set_lib::lemma_set_subset_finite(all, wanted);
}

/// The peers that some packages declare.
spec fn declared_by(graph: GraphModel, ids: Set<IdModel>) -> Set<Seq<char>> {
    Set::new(
        |name: Seq<char>|
            exists|id: IdModel| #[trigger]
                ids.contains(id) && graph.packages[id].declared_peers.contains_key(name),
    )
}

proof fn declared_names_are_finite(graph: GraphModel, ids: Set<IdModel>)
    requires
        is_finite(graph),
        ids.finite(),
        ids.subset_of(graph.packages.dom()),
    ensures
        declared_by(graph, ids).finite(),
    decreases ids.len(),
{
    if ids.len() == 0 {
        assert(declared_by(graph, ids) =~= Set::empty());
    } else {
        let id = ids.choose();
        let rest = ids.remove(id);
        declared_names_are_finite(graph, rest);
        assert(graph.packages.contains_key(id));
        assert(declared_by(graph, ids) =~= declared_by(graph, rest).union(
            graph.packages[id].declared_peers.dom(),
        )) by {
            assert forall|name: Seq<char>|
                declared_by(graph, rest).union(
                    graph.packages[id].declared_peers.dom(),
                ).contains(name) implies declared_by(graph, ids).contains(name) by {
                if graph.packages[id].declared_peers.contains_key(name) {
                    assert(ids.contains(id));
                } else {
                    let other = choose|other: IdModel| #[trigger]
                        rest.contains(other) && graph.packages[other].declared_peers.contains_key(
                            name,
                        );
                    assert(ids.contains(other));
                }
            }
            assert forall|name: Seq<char>| declared_by(graph, ids).contains(name) implies
                declared_by(graph, rest).union(
                graph.packages[id].declared_peers.dom(),
            ).contains(name) by {
                let other = choose|other: IdModel| #[trigger]
                    ids.contains(other) && graph.packages[other].declared_peers.contains_key(name);
                if other != id {
                    assert(rest.contains(other));
                }
            }
        }
    }
}

/// Where a package does not offer a name itself, the nearest offer is the
/// nearest above it.
proof fn nearest_above(
    graph: GraphModel,
    path: Seq<char>,
    way: Seq<IdModel>,
    level: int,
    name: Seq<char>,
)
    requires
        way.len() > 0,
        offered(graph, path, way, way.len() as int, name) is None,
    ensures
        is_nearest(graph, path, way, level, name) <==> is_nearest(
            graph,
            path,
            way.drop_last(),
            level,
            name,
        ),
        0 <= level < way.len() ==> offered(graph, path, way, level, name) == offered(
            graph,
            path,
            way.drop_last(),
            level,
            name,
        ),
{
    let above = way.drop_last();
    assert forall|k: int| 0 <= k < way.len() implies #[trigger] offered(graph, path, way, k, name)
        == offered(graph, path, above, k, name) by {
        if k > 0 {
            assert(above[k - 1] == way[k - 1]);
        }
    }
    if is_nearest(graph, path, above, level, name) {
        assert forall|below: int| level < below <= way.len() implies #[trigger] offered(
            graph,
            path,
            way,
            below,
            name,
        ) is None by {
            if below < way.len() {
                assert(offered(graph, path, above, below, name) is None);
            }
        }
    }
    if is_nearest(graph, path, way, level, name) {
        assert forall|below: int| level < below <= above.len() implies #[trigger] offered(
            graph,
            path,
            above,
            below,
            name,
        ) is None by {
            assert(offered(graph, path, way, below, name) is None);
        }
    }
}

/// The same from the one way to the other: what is offered nearest on one way
/// to a copy is what is offered nearest on any other.
proof fn every_way_offers_the_same(
    graph: GraphModel,
    path: Seq<char>,
    way: Seq<IdModel>,
    other_path: Seq<char>,
    other_way: Seq<IdModel>,
    name: Seq<char>,
    level: int,
) -> (other_level: int)
    requires
        is_finite(graph),
        way.len() > 0,
        other_way.len() > 0,
        way.last() == other_way.last(),
        graph.packages.contains_key(way.last()),
        graph.packages[way.last()].declared_peers.contains_key(name),
        instance_of(graph.packages, way.last(), levels_of(graph, path, way.drop_last()))
            == instance_of(
            graph.packages,
            way.last(),
            levels_of(graph, other_path, other_way.drop_last()),
        ),
        is_nearest(graph, path, way, level, name),
    ensures
        is_nearest(graph, other_path, other_way, other_level, name),
        offered(graph, other_path, other_way, other_level, name) == offered(
            graph,
            path,
            way,
            level,
            name,
        ),
{
    let id = way.last();
    let n = way.len() as int;
    if graph.packages[id].dependencies.contains_key(name) {
        assert(offered(graph, path, way, n, name) is Some);
        assert(level == n) by {
            if level < n {
                assert(offered(graph, path, way, n, name) is None);
            }
        }
        other_way.len() as int
    } else {
        nearest_above(graph, path, way, level, name);
        assert(asks_below(graph, seq![id], name));
        one_copy_sees_one_environment(
            graph,
            id,
            seq![id],
            path,
            way.drop_last(),
            other_path,
            other_way.drop_last(),
            name,
            level,
        );
        let found = choose|found: int| #[trigger]
            is_nearest(graph, other_path, other_way.drop_last(), found, name) && offered(
                graph,
                other_path,
                other_way.drop_last(),
                found,
                name,
            ) == offered(graph, path, way.drop_last(), level, name);
        nearest_above(graph, other_path, other_way, found, name);
        found
    }
}

/// Every project sees its own: whatever copies others share, the peers of a
/// package that a project depends on are answered from what that very project
/// offers, or from what the package itself depends on, and from nothing else.
pub proof fn every_project_sees_its_own(
    graph: GraphModel,
    levels: nat,
    path: Seq<char>,
    dependency: Seq<char>,
)
    requires
        is_finite(graph),
        edges_end_inside(graph),
        peers_resolved(graph, levels) is Some,
        are_alike(graph, levels),
        graph.importers.contains_key(path),
        graph.importers[path].contains_key(dependency),
        graph.importers[path][dependency].resolution is Registry,
    ensures
        ({
            let resolved = peers_resolved(graph, levels)->0;
            let way = seq![graph.importers[path][dependency].resolution->Registry_0];
            let id = resolved.importers[path][dependency].resolution->Registry_0;
            &&& resolved.importers[path].contains_key(dependency)
            &&& resolved.importers[path][dependency].resolution is Registry
            &&& resolved.packages.contains_key(id)
            &&& id.name == way[0].name && id.version == way[0].version
            &&& forall|name: Seq<char>| #[trigger]
                answers_nearest(graph, path, way, resolved.packages[id], name)
            &&& forall|level: int, name: Seq<char>| #[trigger]
                is_nearest(graph, path, way, level, name)
                    && resolved.packages[id].peers.contains_key(name) ==> {
                    let answer = resolved.packages[id].peers[name];
                    let offer = offered(graph, path, way, level, name)->0;
                    answer.name == offer.name && answer.version == offer.version
                }
        }),
{
    let resolved = peers_resolved(graph, levels)->0;
    let copies = copies_in_graph(graph, levels);
    let names = names_in_graph(graph, levels);
    named_copies_are_known(graph, levels);
    named_copies_are_written(graph, levels);
    copies_are_reached(graph, levels);
    let of = graph.importers[path][dependency].resolution->Registry_0;
    let way = seq![of];
    let frame = provided_by(graph.importers[path]);
    let targets = copies_for(graph, path);
    assert(targets.contains_key(dependency));
    let x = targets[dependency];
    assert(way.drop_last() =~= seq![]);
    assert(levels_of(graph, path, way.drop_last()) =~= seq![frame]);
    assert(x == instance_of(graph.packages, of, levels_of(graph, path, way.drop_last())));
    queries_are_finite(graph.packages, 1);
    assert(x.package == of);
    assert(resolved.importers[path] == renamed(graph.importers[path], targets, names));
    let id = names[x];
    assert(resolved.importers[path][dependency].resolution->Registry_0 == id);
    assert(names.dom().contains(x));
    assert(copies.dom().contains(x));
    assert(copies.contains_key(x));
    assert(is_reached(graph, copies, Map::empty(), x));
    let (first_path, first) = choose|path: Seq<char>, way: Seq<IdModel>| #[trigger]
        is_walked(graph, copies, Map::empty(), path, way) && way.len() > 0 && stands(
            graph,
            path,
            way,
            way.len() - 1,
        ) == x;
    let n = first.len() as int;
    end_of_a_way(graph, copies, first_path, first, n - 1);
    assert(first.take(n) =~= first);
    assert(first.drop_last() =~= first.take(n - 1));
    assert(first.last() == of);
    let chain = levels_of(graph, first_path, first);
    let package = resolved.packages[id];
    let copy = copies[x];
    assert forall|level: int, name: Seq<char>| #[trigger]
        is_nearest(graph, path, way, level, name) && package.peers.contains_key(name) implies {
        let answer = package.peers[name];
        let offer = offered(graph, path, way, level, name)->0;
        answer.name == offer.name && answer.version == offer.version
    } by {
        assert(copy.own.contains_key(name));
        let there = every_way_offers_the_same(graph, path, way, first_path, first, name, level);
        nearest_provides(graph, first_path, first, name);
        let found = offered(graph, path, way, level, name)->0;
        queries_are_finite(graph.packages, chain.take(there + 1).len());
        assert(copy.own[name] == instance_of(graph.packages, found, chain.take(there + 1)));
        assert(copy.own[name].package == found);
        assert(names.contains_key(copy.own[name]));
    }
    assert forall|name: Seq<char>| #[trigger] answers_nearest(graph, path, way, package, name) by {
        nearest_provides(graph, first_path, first, name);
        assert(package.peers.contains_key(name) <==> copy.own.contains_key(name));
        if package.peers.contains_key(name) {
            let there = (provider(name, chain)->0).0 as int;
            let level = every_way_offers_the_same(
                graph,
                first_path,
                first,
                path,
                way,
                name,
                there,
            );
            assert(is_nearest(graph, path, way, level, name));
        }
        if package.declared_peers.contains_key(name) && exists|level: int| #[trigger]
            is_nearest(graph, path, way, level, name) && range_admits(
                package.declared_peers[name].range,
                (offered(graph, path, way, level, name)->0).version,
            ) {
            let level = choose|level: int| #[trigger]
                is_nearest(graph, path, way, level, name) && range_admits(
                    package.declared_peers[name].range,
                    (offered(graph, path, way, level, name)->0).version,
                );
            let there = every_way_offers_the_same(graph, path, way, first_path, first, name, level);
            assert(copy.own.contains_key(name));
        }
    }
}

/// Resolving peers answers each from the nearest package in sight.
pub proof fn resolving_finds_the_nearest(
    graph: ResolvedGraph,
    outcome: (ResolvedGraph, Vec<UnsatisfiedPeer>),
    id: IdModel,
)
    requires
        edges_end_inside(graph.deep_view()),
        call_ensures(resolve_peers, (graph,), outcome),
        outcome.0.deep_view().packages.contains_key(id),
    ensures
        exists|path: Seq<char>, way: Seq<IdModel>| #[trigger]
            answers_on_the_way(
                graph.deep_view(),
                outcome.0.deep_view(),
                path,
                way,
                outcome.0.deep_view().packages[id],
            ),
        outcome.0.deep_view().packages[id].id == id,
{
    graphs_are_finite(&graph);
    let levels = choose|levels: nat| #[trigger]
        peers_resolved(graph.deep_view(), levels) == Some(outcome.0.deep_view());
    peers_come_from_the_nearest(graph.deep_view(), levels, id);
}

} // verus!
