//! Peers are answered rightly along every way: whichever way down a resolved
//! graph leads to a package, what the package has as its peers is what is
//! offered nearest on that very way.

use vstd::prelude::*;
use crate::complaints::provided_by;
use crate::copies::{copy_of, instance_of, provider, queries_are_finite, Copies};
use crate::graph::GraphModel;
use crate::instance::InstanceModel;
use crate::naming::emitted_package;
use crate::package_id::IdModel;
use crate::peer_laws::{
    are_alike, copies_in_graph, edges_end_inside, is_finite, named_copies_are_known,
    named_copies_are_written, names_in_graph,
};
use crate::peer_pass::{copies_for, peers_resolved, renamed};
use crate::range::range_admits;
use crate::sight_laws::{
    answers_nearest, asks_below, first_way_of, is_nearest, is_step, leads_down, levels_of,
    nearest_provides, offered, one_copy_sees_one_environment,
};

verus! {

/// What is offered nearest on a way, wherever that is.
spec fn nearest_offer(
    graph: GraphModel,
    path: Seq<char>,
    way: Seq<IdModel>,
    name: Seq<char>,
) -> Option<IdModel> {
    match provider(name, levels_of(graph, path, way)) {
        Some((_, found)) => Some(found),
        None => None,
    }
}

proof fn offers_on_a_longer_way(
    graph: GraphModel,
    path: Seq<char>,
    way: Seq<IdModel>,
    id: IdModel,
    name: Seq<char>,
)
    ensures
        nearest_offer(graph, path, way.push(id), name)
            == if graph.packages[id].dependencies.contains_key(name) {
            Some(graph.packages[id].dependencies[name])
        } else {
            nearest_offer(graph, path, way, name)
        },
{
    let chain = levels_of(graph, path, way);
    let longer = levels_of(graph, path, way.push(id));
    assert(longer =~= chain.push(graph.packages[id].dependencies));
    assert(longer.drop_last() =~= chain);
}

/// One copy, one environment, whichever of two ways is taken.
proof fn copies_see_the_same(
    graph: GraphModel,
    id: IdModel,
    line: Seq<IdModel>,
    path: Seq<char>,
    way: Seq<IdModel>,
    other_path: Seq<char>,
    other_way: Seq<IdModel>,
    name: Seq<char>,
)
    requires
        is_finite(graph),
        graph.packages.contains_key(id),
        instance_of(graph.packages, id, levels_of(graph, path, way)) == instance_of(
            graph.packages,
            id,
            levels_of(graph, other_path, other_way),
        ),
        asks_below(graph, line, name),
        line[0] == id,
        !graph.packages[id].dependencies.contains_key(name),
    ensures
        nearest_offer(graph, path, way, name) == nearest_offer(graph, other_path, other_way, name),
{
    nearest_provides(graph, path, way, name);
    nearest_provides(graph, other_path, other_way, name);
    match provider(name, levels_of(graph, path, way)) {
        Some((level, _)) => {
            one_copy_sees_one_environment(
                graph,
                id,
                line,
                path,
                way,
                other_path,
                other_way,
                name,
                level as int,
            );
        },
        None => match provider(name, levels_of(graph, other_path, other_way)) {
            Some((level, _)) => {
                one_copy_sees_one_environment(
                    graph,
                    id,
                    line,
                    other_path,
                    other_way,
                    path,
                    way,
                    name,
                    level as int,
                );
            },
            None => {},
        },
    }
}

/// Does a way that leads to a copy offer what the way offered on which the copy
/// was first found, under every name that is asked for there or further down?
spec fn sees_as_found(
    graph: GraphModel,
    copies: Copies,
    path: Seq<char>,
    way: Seq<IdModel>,
    found_path: Seq<char>,
    found_way: Seq<IdModel>,
    x: InstanceModel,
) -> bool {
    &&& way.len() > 0
    &&& found_way.len() > 0
    &&& x.package == way.last()
    &&& found_way.last() == way.last()
    &&& graph.packages.contains_key(way.last())
    &&& copies.contains_key(x)
    &&& copies[x] == copy_of(
        graph.packages,
        graph.packages[way.last()],
        levels_of(graph, found_path, found_way),
    )
    &&& forall|line: Seq<IdModel>, name: Seq<char>| #[trigger]
        asks_below(graph, line, name) && line[0] == way.last() ==> nearest_offer(
            graph,
            path,
            way,
            name,
        ) == nearest_offer(graph, found_path, found_way, name)
}

/// One step further down, a copy is found again as it was first found.
proof fn seeing_goes_on(
    graph: GraphModel,
    levels: nat,
    path: Seq<char>,
    way: Seq<IdModel>,
    above_path: Seq<char>,
    above: Seq<IdModel>,
    id: IdModel,
) -> (found: (Seq<char>, Seq<IdModel>))
    requires
        is_finite(graph),
        edges_end_inside(graph),
        peers_resolved(graph, levels) is Some,
        graph.packages.contains_key(id),
        copies_in_graph(graph, levels).contains_key(
            instance_of(graph.packages, id, levels_of(graph, above_path, above)),
        ),
        forall|line: Seq<IdModel>, name: Seq<char>| #[trigger]
            asks_below(graph, line, name) && line[0] == id
                && !graph.packages[id].dependencies.contains_key(name) ==> nearest_offer(
                graph,
                path,
                way,
                name,
            ) == nearest_offer(graph, above_path, above, name),
    ensures
        sees_as_found(
            graph,
            copies_in_graph(graph, levels),
            path,
            way.push(id),
            found.0,
            found.1,
            instance_of(graph.packages, id, levels_of(graph, above_path, above)),
        ),
{
    let chain = levels_of(graph, above_path, above);
    let x = instance_of(graph.packages, id, chain);
    queries_are_finite(graph.packages, chain.len());
    assert(x.package == id);
    let found = first_way_of(graph, levels, x);
    let (found_path, found_way) = found;
    let before = found_way.drop_last();
    assert(found_way =~= before.push(id));
    assert(way.push(id).last() == id);
    assert forall|line: Seq<IdModel>, name: Seq<char>| #[trigger]
        asks_below(graph, line, name) && line[0] == way.push(id).last() implies nearest_offer(
        graph,
        path,
        way.push(id),
        name,
    ) == nearest_offer(graph, found_path, found_way, name) by {
        offers_on_a_longer_way(graph, path, way, id, name);
        offers_on_a_longer_way(graph, found_path, before, id, name);
        if !graph.packages[id].dependencies.contains_key(name) {
            copies_see_the_same(
                graph,
                id,
                line,
                above_path,
                above,
                found_path,
                before,
                name,
            );
        }
    }
    found
}

/// Does a way down the resolved graph go where one down the graph that it came
/// of goes, with the same offered at every level?
spec fn goes_along(
    graph: GraphModel,
    resolved: GraphModel,
    path: Seq<char>,
    ids: Seq<IdModel>,
    way: Seq<IdModel>,
) -> bool {
    &&& ids.len() == way.len()
    &&& forall|level: int, name: Seq<char>|
        0 <= level <= ids.len() ==> {
            let here = #[trigger] offered(resolved, path, ids, level, name);
            let there = offered(graph, path, way, level, name);
            &&& here is Some <==> there is Some
            &&& here is Some ==> (here->0).name == (there->0).name && (here->0).version == (
            there->0).version
        }
}

/// What a copy offers once it is written down.
proof fn written_copies_offer(
    graph: GraphModel,
    levels: nat,
    x: InstanceModel,
    name: Seq<char>,
)
    requires
        is_finite(graph),
        edges_end_inside(graph),
        peers_resolved(graph, levels) is Some,
        are_alike(graph, levels),
        names_in_graph(graph, levels).contains_key(x),
    ensures
        ({
            let names = names_in_graph(graph, levels);
            let copies = copies_in_graph(graph, levels);
            let package = (peers_resolved(graph, levels)->0).packages[names[x]];
            let source = graph.packages[x.package];
            &&& copies.contains_key(x)
            &&& graph.packages.contains_key(x.package)
            &&& package.dependencies.contains_key(name) <==> source.dependencies.contains_key(name)
            &&& source.dependencies.contains_key(name) ==> {
                let to = copies[x].dependencies[name];
                &&& copies[x].dependencies.contains_key(name)
                &&& copies.contains_key(to)
                &&& names.contains_key(to)
                &&& to.package == source.dependencies[name]
                &&& package.dependencies[name] == names[to]
                &&& names[to].name == to.package.name
                &&& names[to].version == to.package.version
            }
        }),
{
    let names = names_in_graph(graph, levels);
    let copies = copies_in_graph(graph, levels);
    named_copies_are_known(graph, levels);
    named_copies_are_written(graph, levels);
    assert(names.dom().contains(x));
    assert(copies.dom().contains(x));
    assert(copies.contains_key(x));
    let source = graph.packages[x.package];
    assert(copies[x].dependencies.dom().contains(name) <==> source.dependencies.dom().contains(
        name,
    ));
    if source.dependencies.contains_key(name) {
        assert(copies[x].dependencies.contains_key(name));
        let to = copies[x].dependencies[name];
        assert(names.contains_key(to));
        assert(names.dom().contains(to));
        assert(copies.dom().contains(to));
    }
}

/// A shorter way is a way.
proof fn leading_less_far(graph: GraphModel, path: Seq<char>, ids: Seq<IdModel>)
    requires
        leads_down(graph, path, ids),
        ids.len() > 0,
    ensures
        leads_down(graph, path, ids.drop_last()),
        forall|level: int, name: Seq<char>|
            0 <= level < ids.len() ==> #[trigger] offered(graph, path, ids, level, name) == offered(
                graph,
                path,
                ids.drop_last(),
                level,
                name,
            ),
{
    let shorter = ids.drop_last();
    assert forall|level: int, name: Seq<char>| 0 <= level < ids.len() implies #[trigger] offered(
        graph,
        path,
        ids,
        level,
        name,
    ) == offered(graph, path, shorter, level, name) by {
        if level > 0 {
            assert(shorter[level - 1] == ids[level - 1]);
        }
    }
    assert forall|k: int| #![trigger shorter[k]] 0 <= k < shorter.len() implies is_step(
        graph,
        path,
        shorter,
        k,
    ) by {
        assert(shorter[k] == ids[k]);
        assert(is_step(graph, path, ids, k));
        let by = choose|name: Seq<char>| #[trigger]
            offered(graph, path, ids, k, name) == Some(ids[k]);
        assert(offered(graph, path, shorter, k, by) == Some(shorter[k]));
    }
}

/// What a project offers once its packages are renamed.
proof fn projects_offer_the_same(
    graph: GraphModel,
    levels: nat,
    path: Seq<char>,
    ids: Seq<IdModel>,
    way: Seq<IdModel>,
    name: Seq<char>,
)
    requires
        is_finite(graph),
        edges_end_inside(graph),
        peers_resolved(graph, levels) is Some,
        graph.importers.contains_key(path),
    ensures
        ({
            let resolved = peers_resolved(graph, levels)->0;
            let names = names_in_graph(graph, levels);
            let here = offered(resolved, path, ids, 0, name);
            let there = offered(graph, path, way, 0, name);
            &&& here is Some <==> there is Some
            &&& here is Some ==> {
                let x = instance_of(
                    graph.packages,
                    there->0,
                    levels_of(graph, path, Seq::<IdModel>::empty()),
                );
                &&& names.contains_key(x)
                &&& copies_in_graph(graph, levels).contains_key(x)
                &&& graph.packages.contains_key(there->0)
                &&& here->0 == names[x]
                &&& (here->0).name == (there->0).name
                &&& (here->0).version == (there->0).version
            }
        }),
{
    let resolved = peers_resolved(graph, levels)->0;
    let names = names_in_graph(graph, levels);
    let targets = copies_for(graph, path);
    named_copies_are_known(graph, levels);
    assert(resolved.importers[path] == renamed(graph.importers[path], targets, names));
    if offered(graph, path, way, 0, name) is Some {
        let of = offered(graph, path, way, 0, name)->0;
        assert(targets.contains_key(name));
        let chain = levels_of(graph, path, Seq::<IdModel>::empty());
        assert(chain =~= seq![provided_by(graph.importers[path])]);
        queries_are_finite(graph.packages, chain.len());
        assert(targets[name] == instance_of(graph.packages, of, chain));
        assert(targets[name].package == of);
        assert(names.contains_key(targets[name]));
    }
}

/// Every way down the resolved graph leads to a copy, and offers what the way
/// offered on which that copy was first found.
proof fn every_way_is_seen(graph: GraphModel, levels: nat, path: Seq<char>, ids: Seq<IdModel>) -> (
    seen: (Seq<IdModel>, InstanceModel, (Seq<char>, Seq<IdModel>)))
    requires
        is_finite(graph),
        edges_end_inside(graph),
        peers_resolved(graph, levels) is Some,
        are_alike(graph, levels),
        leads_down(peers_resolved(graph, levels)->0, path, ids),
        ids.len() > 0,
    ensures
        goes_along(graph, peers_resolved(graph, levels)->0, path, ids, seen.0),
        names_in_graph(graph, levels).contains_key(seen.1),
        names_in_graph(graph, levels)[seen.1] == ids.last(),
        sees_as_found(
            graph,
            copies_in_graph(graph, levels),
            path,
            seen.0,
            seen.2.0,
            seen.2.1,
            seen.1,
        ),
    decreases ids.len(),
{
    let resolved = peers_resolved(graph, levels)->0;
    let copies = copies_in_graph(graph, levels);
    let names = names_in_graph(graph, levels);
    let n = ids.len() as int;
    let shorter = ids.drop_last();
    leading_less_far(resolved, path, ids);
    assert(is_step(resolved, path, ids, n - 1));
    let by = choose|name: Seq<char>| #[trigger]
        offered(resolved, path, ids, n - 1, name) == Some(ids[n - 1]);
    if n == 1 {
        let none = Seq::<IdModel>::empty();
        projects_offer_the_same(graph, levels, path, ids, none, by);
        let of = offered(graph, path, none, 0, by)->0;
        let x = instance_of(graph.packages, of, levels_of(graph, path, none));
        let found = seeing_goes_on(graph, levels, path, none, path, none, of);
        let way = none.push(of);
        seen_along(graph, levels, path, ids, way, x);
        (way, x, found)
    } else {
        let (before, y, above) = every_way_is_seen(graph, levels, path, shorter);
        assert(shorter.last() == ids[n - 2]);
        written_copies_offer(graph, levels, y, by);
        let source = graph.packages[y.package];
        assert(source.dependencies.contains_key(by));
        let id = source.dependencies[by];
        let x = copies[y].dependencies[by];
        let chain = levels_of(graph, above.0, above.1);
        assert(x == instance_of(graph.packages, id, chain));
        assert(graph.packages.contains_key(id));
        assert forall|line: Seq<IdModel>, name: Seq<char>| #[trigger]
            asks_below(graph, line, name) && line[0] == id
                && !graph.packages[id].dependencies.contains_key(name) implies nearest_offer(
            graph,
            path,
            before,
            name,
        ) == nearest_offer(graph, above.0, above.1, name) by {
            let longer = seq![before.last()] + line;
            asking_further_up(graph, before.last(), by, line, name);
            assert(asks_below(graph, longer, name));
        }
        let found = seeing_goes_on(graph, levels, path, before, above.0, above.1, id);
        let way = before.push(id);
        assert forall|level: int, name: Seq<char>| 0 <= level < n implies #[trigger] offered(
            graph,
            path,
            way,
            level,
            name,
        ) == offered(graph, path, before, level, name) by {
            if level > 0 {
                assert(way[level - 1] == before[level - 1]);
            }
        }
        assert forall|level: int, name: Seq<char>| 0 <= level < n implies ({
            let here = #[trigger] offered(resolved, path, ids, level, name);
            let there = offered(graph, path, way, level, name);
            &&& here is Some <==> there is Some
            &&& here is Some ==> (here->0).name == (there->0).name && (here->0).version == (
            there->0).version
        }) by {
            assert(offered(resolved, path, shorter, level, name) == offered(
                resolved,
                path,
                ids,
                level,
                name,
            ));
            assert(offered(graph, path, way, level, name) == offered(
                graph,
                path,
                before,
                level,
                name,
            ));
        }
        assert forall|name: Seq<char>| ({
            let here = #[trigger] offered(resolved, path, ids, n, name);
            let there = offered(graph, path, way, n, name);
            &&& here is Some <==> there is Some
            &&& here is Some ==> (here->0).name == (there->0).name && (here->0).version == (
            there->0).version
        }) by {
            written_copies_offer(graph, levels, x, name);
            assert(way[n - 1] == id);
        }
        (way, x, found)
    }
}

/// What is asked for below a dependency is asked for below whoever has it.
proof fn asking_further_up(
    graph: GraphModel,
    from: IdModel,
    by: Seq<char>,
    line: Seq<IdModel>,
    name: Seq<char>,
)
    requires
        graph.packages.contains_key(from),
        graph.packages[from].dependencies.contains_key(by),
        asks_below(graph, line, name),
        graph.packages[from].dependencies[by] == line[0],
    ensures
        asks_below(graph, seq![from] + line, name),
        (seq![from] + line)[0] == from,
{
    let longer = seq![from] + line;
    assert(longer.last() == line.last());
    assert forall|i: int| 0 <= i < longer.len() - 1 implies graph.packages.contains_key(
        #[trigger] longer[i],
    ) && exists|by: Seq<char>| #[trigger]
        graph.packages[longer[i]].dependencies.contains_key(by)
            && graph.packages[longer[i]].dependencies[by] == longer[i + 1] by {
        if i == 0 {
            assert(longer[1] == line[0]);
            assert(graph.packages[longer[0]].dependencies.contains_key(by));
        } else {
            assert(longer[i] == line[i - 1]);
            assert(longer[i + 1] == line[i - 1 + 1]);
        }
    }
}

/// The first step of a way.
proof fn seen_along(
    graph: GraphModel,
    levels: nat,
    path: Seq<char>,
    ids: Seq<IdModel>,
    way: Seq<IdModel>,
    x: InstanceModel,
)
    requires
        is_finite(graph),
        edges_end_inside(graph),
        peers_resolved(graph, levels) is Some,
        are_alike(graph, levels),
        graph.importers.contains_key(path),
        ids.len() == 1,
        way.len() == 1,
        names_in_graph(graph, levels).contains_key(x),
        names_in_graph(graph, levels)[x] == ids[0],
        x.package == way[0],
    ensures
        goes_along(graph, peers_resolved(graph, levels)->0, path, ids, way),
{
    let resolved = peers_resolved(graph, levels)->0;
    assert forall|level: int, name: Seq<char>| 0 <= level <= ids.len() implies ({
        let here = #[trigger] offered(resolved, path, ids, level, name);
        let there = offered(graph, path, way, level, name);
        &&& here is Some <==> there is Some
        &&& here is Some ==> (here->0).name == (there->0).name && (here->0).version == (
        there->0).version
    }) by {
        if level == 0 {
            projects_offer_the_same(graph, levels, path, ids, way, name);
        } else {
            written_copies_offer(graph, levels, x, name);
        }
    }
}

/// Ways that go along have the same nearest levels.
proof fn nearest_goes_along(
    graph: GraphModel,
    resolved: GraphModel,
    path: Seq<char>,
    ids: Seq<IdModel>,
    way: Seq<IdModel>,
    level: int,
    name: Seq<char>,
)
    requires
        goes_along(graph, resolved, path, ids, way),
    ensures
        is_nearest(resolved, path, ids, level, name) <==> is_nearest(graph, path, way, level, name),
        is_nearest(resolved, path, ids, level, name) ==> {
            let here = offered(resolved, path, ids, level, name)->0;
            let there = offered(graph, path, way, level, name)->0;
            here.name == there.name && here.version == there.version
        },
{
    assert forall|k: int| 0 <= k <= ids.len() implies (#[trigger] offered(
        resolved,
        path,
        ids,
        k,
        name,
    ) is Some <==> offered(graph, path, way, k, name) is Some) by {}
    if is_nearest(resolved, path, ids, level, name) {
        assert forall|below: int| level < below <= way.len() implies #[trigger] offered(
            graph,
            path,
            way,
            below,
            name,
        ) is None by {
            assert(offered(resolved, path, ids, below, name) is None);
        }
    }
    if is_nearest(graph, path, way, level, name) {
        assert(offered(resolved, path, ids, level, name) is Some);
        assert forall|below: int| level < below <= ids.len() implies #[trigger] offered(
            resolved,
            path,
            ids,
            below,
            name,
        ) is None by {
            assert(offered(graph, path, way, below, name) is None);
        }
    }
}

/// Where copies of one name are alike, as they are unless peers go round, peers
/// are answered rightly along every way down the graph that comes out:
/// whichever way leads to a package, it has exactly those of the peers that it
/// declares, optional or not, that are offered on that way at a version which
/// the range admits, the nearest offer counting, and each leads to a package
/// of the name and the version that is offered.
pub proof fn peers_are_right_along_every_way(
    graph: GraphModel,
    levels: nat,
    path: Seq<char>,
    ids: Seq<IdModel>,
)
    requires
        is_finite(graph),
        edges_end_inside(graph),
        peers_resolved(graph, levels) is Some,
        are_alike(graph, levels),
        leads_down(peers_resolved(graph, levels)->0, path, ids),
        ids.len() > 0,
    ensures
        ({
            let resolved = peers_resolved(graph, levels)->0;
            let package = resolved.packages[ids.last()];
            &&& forall|name: Seq<char>| #[trigger]
                answers_nearest(resolved, path, ids, package, name)
            &&& forall|level: int, name: Seq<char>| #[trigger]
                is_nearest(resolved, path, ids, level, name) && package.peers.contains_key(name)
                    ==> {
                    let offer = offered(resolved, path, ids, level, name)->0;
                    package.peers[name].name == offer.name && package.peers[name].version
                        == offer.version
                }
        }),
{
    let resolved = peers_resolved(graph, levels)->0;
    let copies = copies_in_graph(graph, levels);
    let names = names_in_graph(graph, levels);
    named_copies_are_known(graph, levels);
    named_copies_are_written(graph, levels);
    let (way, x, found) = every_way_is_seen(graph, levels, path, ids);
    let package = resolved.packages[ids.last()];
    let source = graph.packages[x.package];
    let copy = copies[x];
    let chain = levels_of(graph, found.0, found.1);
    assert(package == emitted_package(source, copy, names, names[x]));
    assert forall|name: Seq<char>| #[trigger] source.declared_peers.contains_key(
        name,
    ) implies nearest_offer(graph, path, way, name) == nearest_offer(
        graph,
        found.0,
        found.1,
        name,
    ) by {
        assert(asks_below(graph, seq![x.package], name));
    }
    assert forall|name: Seq<char>| #[trigger] answers_nearest(
        resolved,
        path,
        ids,
        package,
        name,
    ) by {
        nearest_provides(graph, path, way, name);
        assert(package.peers.contains_key(name) <==> copy.own.contains_key(name));
        if package.peers.contains_key(name) {
            assert(source.declared_peers.contains_key(name));
            let level = (provider(name, levels_of(graph, path, way))->0).0 as int;
            assert(is_nearest(graph, path, way, level, name));
            nearest_goes_along(graph, resolved, path, ids, way, level, name);
            assert(is_nearest(resolved, path, ids, level, name));
        }
        if package.declared_peers.contains_key(name) && exists|level: int| #[trigger]
            is_nearest(resolved, path, ids, level, name) && range_admits(
                package.declared_peers[name].range,
                (offered(resolved, path, ids, level, name)->0).version,
            ) {
            let level = choose|level: int| #[trigger]
                is_nearest(resolved, path, ids, level, name) && range_admits(
                    package.declared_peers[name].range,
                    (offered(resolved, path, ids, level, name)->0).version,
                );
            nearest_goes_along(graph, resolved, path, ids, way, level, name);
            assert(is_nearest(graph, path, way, level, name));
            assert(source.declared_peers.contains_key(name));
            assert(copy.own.contains_key(name));
        }
    }
    assert forall|level: int, name: Seq<char>| #[trigger]
        is_nearest(resolved, path, ids, level, name) && package.peers.contains_key(name) implies ({
        let offer = offered(resolved, path, ids, level, name)->0;
        package.peers[name].name == offer.name && package.peers[name].version == offer.version
    }) by {
        nearest_goes_along(graph, resolved, path, ids, way, level, name);
        nearest_provides(graph, path, way, name);
        assert(copy.own.contains_key(name));
        assert(source.declared_peers.contains_key(name));
        let (frame, of) = provider(name, chain)->0;
        let up = chain.take(frame as int + 1);
        queries_are_finite(graph.packages, up.len());
        assert(copy.own[name] == instance_of(graph.packages, of, up));
        assert(copy.own[name].package == of);
        assert(names.contains_key(copy.own[name]));
        assert(of == offered(graph, path, way, level, name)->0);
    }
}

} // verus!
