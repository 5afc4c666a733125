//! Every copy of a package is depended on: there is a way down to it from a
//! project, so that resolving peers leaves nothing over.

use vstd::prelude::*;
use crate::complaints::provided_by;
use crate::copies::{
    copy_of, discovered, discovered_below, instance_of, no_copy, queries_are_finite, Chain, Copies,
};
use crate::graph::{
    depends, every_edge, is_root, is_route, reachable_graph, reached, GraphModel, PackageModel,
    ResolutionModel,
};
use crate::importer::ImporterPath;
use crate::instance::InstanceModel;
use crate::naming::emitted_package;
use crate::package_id::IdModel;
use crate::peer_laws::{
    are_alike, copies_in_graph, edges_end_inside, is_finite, named_copies_are_known,
    named_copies_are_written, names_in_graph,
};
use crate::peer_pass::{copies_for, discovered_roots, peers_resolved, renamed};
use crate::sorted::{in_order, in_order_lists};

verus! {

/// Does the first copy depend on the second?
pub open spec fn leans_on(copies: Copies, from: InstanceModel, to: InstanceModel) -> bool {
    copies.contains_key(from) && exists|name: Seq<char>| #[trigger]
        copies[from].dependencies.contains_key(name) && copies[from].dependencies[name] == to
}

/// A way down from one copy to another, along dependencies.
pub open spec fn is_descent(
    copies: Copies,
    from: InstanceModel,
    to: InstanceModel,
    route: Seq<InstanceModel>,
) -> bool {
    &&& route.len() > 0
    &&& route[0] == from
    &&& route.last() == to
    &&& forall|i: int|
        0 <= i < route.len() - 1 ==> leans_on(copies, #[trigger] route[i], route[i + 1])
}

/// Is there a way down from one copy to another?
pub open spec fn is_below(copies: Copies, from: InstanceModel, to: InstanceModel) -> bool {
    exists|route: Seq<InstanceModel>| is_descent(copies, from, to, route)
}

/// Is everything that the first copies lean on still what they lean on in the
/// second?
spec fn leans_kept(before: Copies, after: Copies) -> bool {
    forall|from: InstanceModel, to: InstanceModel| #[trigger]
        leans_on(before, from, to) ==> leans_on(after, from, to)
}

proof fn descents_stay(before: Copies, after: Copies, from: InstanceModel, to: InstanceModel)
    requires
        leans_kept(before, after),
        is_below(before, from, to),
    ensures
        is_below(after, from, to),
{
    let route = choose|route: Seq<InstanceModel>| is_descent(before, from, to, route);
    assert(is_descent(after, from, to, route));
}

proof fn descents_start_higher(
    copies: Copies,
    higher: InstanceModel,
    from: InstanceModel,
    to: InstanceModel,
)
    requires
        leans_on(copies, higher, from),
        is_below(copies, from, to),
    ensures
        is_below(copies, higher, to),
{
    let route = choose|route: Seq<InstanceModel>| is_descent(copies, from, to, route);
    let longer = seq![higher] + route;
    assert forall|i: int| 0 <= i < longer.len() - 1 implies leans_on(
        copies,
        #[trigger] longer[i],
        longer[i + 1],
    ) by {
        if i > 0 {
            assert(longer[i] == route[i - 1]);
            assert(longer[i + 1] == route[i - 1 + 1]);
        }
    }
    assert(is_descent(copies, higher, to, longer));
}

/// Are the copies that were known still known as they were?
spec fn copies_kept(before: Copies, after: Copies) -> bool {
    forall|x: InstanceModel| #[trigger]
        before.contains_key(x) ==> after.contains_key(x) && after[x] == before[x]
}

proof fn kept_copies_lean_alike(before: Copies, after: Copies)
    requires
        copies_kept(before, after),
    ensures
        leans_kept(before, after),
{
    assert forall|from: InstanceModel, to: InstanceModel| #[trigger]
        leans_on(before, from, to) implies leans_on(after, from, to) by {
        assert(before.contains_key(from));
        assert(after[from] == before[from]);
        let name = choose|name: Seq<char>| #[trigger]
            before[from].dependencies.contains_key(name) && before[from].dependencies[name] == to;
        assert(after[from].dependencies.contains_key(name));
    }
}

proof fn found_copies_are_below(
    packages: Map<IdModel, PackageModel>,
    id: IdModel,
    chain: Chain,
    copies: Copies,
    levels: nat,
)
    requires
        discovered(packages, id, chain, copies, levels) is Some,
        forall|other: IdModel| #[trigger]
            packages.contains_key(other) ==> packages[other].dependencies.dom().finite(),
    ensures
        ({
            let found = discovered(packages, id, chain, copies, levels)->0;
            &&& copies_kept(copies, found)
            &&& forall|x: InstanceModel| #[trigger]
                found.contains_key(x) && !copies.contains_key(x) ==> is_below(
                    found,
                    instance_of(packages, id, chain),
                    x,
                )
        }),
    decreases levels, 0nat,
{
    let here = instance_of(packages, id, chain);
    let found = discovered(packages, id, chain, copies, levels)->0;
    assert(is_below(found, here, here)) by {
        assert(is_descent(found, here, here, seq![here]));
    }
    if !copies.contains_key(here) && packages.contains_key(id) {
        let deps = packages[id].dependencies;
        let longer = chain.push(deps);
        let names = in_order::<String>(deps.dom());
        in_order_lists::<String>(deps.dom());
        let entered = copies.insert(here, no_copy());
        let less = (levels - 1) as nat;
        below_copies_are_below(packages, names, deps, longer, entered, less);
        let below = discovered_below(packages, names, deps, longer, entered, less)->0;
        let copy = copy_of(packages, packages[id], longer);
        assert(found == below.insert(here, copy));
        assert(entered.contains_key(here));
        assert(below[here] == no_copy::<InstanceModel>());
        assert(copies_kept(copies, found)) by {
            assert forall|x: InstanceModel| #[trigger] copies.contains_key(x) implies
                found.contains_key(x) && found[x] == copies[x] by {
                assert(entered.contains_key(x));
            }
        }
        assert(leans_kept(below, found)) by {
            assert forall|from: InstanceModel, to: InstanceModel| #[trigger]
                leans_on(below, from, to) implies leans_on(found, from, to) by {
                let name = choose|name: Seq<char>| #[trigger]
                    below[from].dependencies.contains_key(name) && below[from].dependencies[name]
                        == to;
                assert(from != here);
                assert(found[from] == below[from]);
                assert(found[from].dependencies.contains_key(name));
            }
        }
        assert forall|x: InstanceModel| #[trigger]
            found.contains_key(x) && !copies.contains_key(x) implies is_below(found, here, x) by {
            if x != here {
                assert(below.contains_key(x) && !entered.contains_key(x));
                let k = choose|k: int|
                    0 <= k < names.len() && is_below(
                        below,
                        instance_of(packages, deps[#[trigger] names[k]], longer),
                        x,
                    );
                let child = instance_of(packages, deps[names[k]], longer);
                descents_stay(below, found, child, x);
                assert(names.to_set().contains(names[k]));
                assert(copy.dependencies.contains_key(names[k]));
                assert(copy.dependencies[names[k]] == child);
                assert(found[here] == copy);
                assert(found[here].dependencies.contains_key(names[k]));
                assert(leans_on(found, here, child));
                descents_start_higher(found, here, child, x);
            }
        }
    }
}

proof fn below_copies_are_below(
    packages: Map<IdModel, PackageModel>,
    names: Seq<Seq<char>>,
    deps: Map<Seq<char>, IdModel>,
    chain: Chain,
    copies: Copies,
    levels: nat,
)
    requires
        discovered_below(packages, names, deps, chain, copies, levels) is Some,
        forall|other: IdModel| #[trigger]
            packages.contains_key(other) ==> packages[other].dependencies.dom().finite(),
    ensures
        ({
            let found = discovered_below(packages, names, deps, chain, copies, levels)->0;
            &&& copies_kept(copies, found)
            &&& forall|x: InstanceModel| #[trigger]
                found.contains_key(x) && !copies.contains_key(x) ==> exists|k: int|
                    0 <= k < names.len() && is_below(
                        found,
                        instance_of(packages, deps[#[trigger] names[k]], chain),
                        x,
                    )
        }),
    decreases levels, names.len(),
{
    if names.len() > 0 {
        let rest = names.drop_last();
        below_copies_are_below(packages, rest, deps, chain, copies, levels);
        let before = discovered_below(packages, rest, deps, chain, copies, levels)->0;
        found_copies_are_below(packages, deps[names.last()], chain, before, levels);
        let found = discovered_below(packages, names, deps, chain, copies, levels)->0;
        kept_copies_lean_alike(before, found);
        assert forall|x: InstanceModel| #[trigger]
            found.contains_key(x) && !copies.contains_key(x) implies exists|k: int|
            0 <= k < names.len() && is_below(
                found,
                instance_of(packages, deps[#[trigger] names[k]], chain),
                x,
            ) by {
            if before.contains_key(x) {
                let k = choose|k: int|
                    0 <= k < rest.len() && is_below(
                        before,
                        instance_of(packages, deps[#[trigger] rest[k]], chain),
                        x,
                    );
                assert(names[k] == rest[k]);
                descents_stay(before, found, instance_of(packages, deps[rest[k]], chain), x);
            } else {
                assert(names[names.len() - 1] == names.last());
                assert(is_below(found, instance_of(packages, deps[names[names.len() - 1]], chain), x));
            }
        }
    }
}

/// Is there a way down to a copy from a dependency of one of some projects?
spec fn is_below_some(
    graph: GraphModel,
    paths: Seq<Seq<char>>,
    copies: Copies,
    x: InstanceModel,
) -> bool {
    exists|i: int, name: Seq<char>|
        0 <= i < paths.len() && #[trigger] copies_for(graph, paths[i]).contains_key(name)
            && is_below(copies, copies_for(graph, paths[i])[name], x)
}

proof fn root_copies_are_below(graph: GraphModel, paths: Seq<Seq<char>>, levels: nat)
    requires
        is_finite(graph),
        discovered_roots(graph, paths, levels) is Some,
        forall|i: int| 0 <= i < paths.len() ==> graph.importers.contains_key(#[trigger] paths[i]),
    ensures
        forall|x: InstanceModel| #[trigger]
            (discovered_roots(graph, paths, levels)->0).contains_key(x) ==> is_below_some(
                graph,
                paths,
                discovered_roots(graph, paths, levels)->0,
                x,
            ),
    decreases paths.len(),
{
    if paths.len() > 0 {
        let rest = paths.drop_last();
        assert forall|i: int| 0 <= i < rest.len() implies graph.importers.contains_key(
            #[trigger] rest[i],
        ) by {
            assert(rest[i] == paths[i]);
        }
        root_copies_are_below(graph, rest, levels);
        let before = discovered_roots(graph, rest, levels)->0;
        let found = discovered_roots(graph, paths, levels)->0;
        let last = paths[paths.len() - 1];
        assert(graph.importers.contains_key(last));
        let frame = provided_by(graph.importers[last]);
        assert(frame.dom().subset_of(graph.importers[last].dom()));
        vstd::set_lib::lemma_set_subset_finite(graph.importers[last].dom(), frame.dom());
        let names = in_order::<String>(frame.dom());
        in_order_lists::<String>(frame.dom());
        below_copies_are_below(graph.packages, names, frame, seq![frame], before, levels);
        kept_copies_lean_alike(before, found);
        assert forall|x: InstanceModel| #[trigger] found.contains_key(x) implies is_below_some(
            graph,
            paths,
            found,
            x,
        ) by {
            if before.contains_key(x) {
                let (i, name) = choose|i: int, name: Seq<char>|
                    0 <= i < rest.len() && #[trigger] copies_for(graph, rest[i]).contains_key(name)
                        && is_below(before, copies_for(graph, rest[i])[name], x);
                assert(rest[i] == paths[i]);
                descents_stay(before, found, copies_for(graph, rest[i])[name], x);
                assert(copies_for(graph, paths[i]).contains_key(name));
            } else {
                let k = choose|k: int|
                    0 <= k < names.len() && is_below(
                        found,
                        instance_of(graph.packages, frame[#[trigger] names[k]], seq![frame]),
                        x,
                    );
                assert(names.to_set().contains(names[k]));
                assert(copies_for(graph, last).contains_key(names[k]));
                assert(paths[paths.len() - 1] == last);
            }
        }
    }
}

/// A way down through copies is a way down through the packages that they
/// became.
proof fn descents_are_routes(
    graph: GraphModel,
    levels: nat,
    path: Seq<char>,
    name: Seq<char>,
    to: InstanceModel,
    route: Seq<InstanceModel>,
)
    requires
        is_finite(graph),
        edges_end_inside(graph),
        peers_resolved(graph, levels) is Some,
        are_alike(graph, levels),
        graph.importers.contains_key(path),
        copies_for(graph, path).contains_key(name),
        is_descent(
            copies_in_graph(graph, levels),
            copies_for(graph, path)[name],
            to,
            route,
        ),
    ensures
        names_in_graph(graph, levels).contains_key(to),
        ({
            let resolved = peers_resolved(graph, levels)->0;
            reached(
                resolved.importers,
                every_edge(resolved.packages),
                names_in_graph(graph, levels)[to],
            )
        }),
    decreases route.len(),
{
    let copies = copies_in_graph(graph, levels);
    let names = names_in_graph(graph, levels);
    let resolved = peers_resolved(graph, levels)->0;
    let from = copies_for(graph, path)[name];
    let edge = every_edge(resolved.packages);
    named_copies_are_written(graph, levels);
    if route.len() == 1 {
        assert(to == from);
        assert(names.contains_key(to));
        assert(resolved.importers.contains_key(path));
        assert(resolved.importers[path] == renamed(
            graph.importers[path],
            copies_for(graph, path),
            names,
        ));
        assert(resolved.importers[path].contains_key(name));
        assert(resolved.importers[path][name].resolution == ResolutionModel::Registry(names[to]));
        assert(is_root(resolved.importers, names[to]));
        assert(is_route(resolved.importers, edge, seq![names[to]]));
        assert(seq![names[to]].last() == names[to]);
    } else {
        let shorter = route.drop_last();
        let above = shorter.last();
        assert forall|i: int| 0 <= i < shorter.len() - 1 implies leans_on(
            copies,
            #[trigger] shorter[i],
            shorter[i + 1],
        ) by {
            assert(shorter[i] == route[i] && shorter[i + 1] == route[i + 1]);
        }
        descents_are_routes(graph, levels, path, name, above, shorter);
        let k = route.len() - 2;
        assert(leans_on(copies, route[k], route[k + 1]));
        let edge_name = choose|n: Seq<char>| #[trigger]
            copies[above].dependencies.contains_key(n) && copies[above].dependencies[n] == to;
        assert(names.contains_key(above));
        assert(names.contains_key(copies[above].dependencies[edge_name]));
        assert(resolved.packages[names[above]] == emitted_package(
            graph.packages[above.package],
            copies[above],
            names,
            names[above],
        ));
        assert(resolved.packages[names[above]].dependencies.contains_key(edge_name));
        assert(resolved.packages[names[above]].dependencies[edge_name] == names[to]);
        assert(depends(resolved.packages, names[above], names[to]));
        let way = choose|way: Seq<IdModel>|
            is_route(resolved.importers, edge, way) && way.last() == names[above];
        let longer = way.push(names[to]);
        assert forall|i: int| 0 <= i < longer.len() - 1 implies edge(
            #[trigger] longer[i],
            longer[i + 1],
        ) by {
            if i < way.len() - 1 {
                assert(longer[i] == way[i] && longer[i + 1] == way[i + 1]);
            }
        }
        assert(is_route(resolved.importers, edge, longer));
        assert(longer.last() == names[to]);
    }
}

/// Resolving peers leaves nothing over: every package of the graph that comes
/// of it is one that a project depends on, directly or further down, and so
/// pruning it drops nothing.
pub proof fn resolved_peers_leave_nothing_over(graph: GraphModel, levels: nat)
    requires
        is_finite(graph),
        edges_end_inside(graph),
        peers_resolved(graph, levels) is Some,
        are_alike(graph, levels),
    ensures
        reachable_graph(peers_resolved(graph, levels)->0) == peers_resolved(graph, levels)->0,
{
    let copies = copies_in_graph(graph, levels);
    let names = names_in_graph(graph, levels);
    let resolved = peers_resolved(graph, levels)->0;
    let paths = in_order::<ImporterPath>(graph.importers.dom());
    in_order_lists::<ImporterPath>(graph.importers.dom());
    assert forall|i: int| 0 <= i < paths.len() implies graph.importers.contains_key(
        #[trigger] paths[i],
    ) by {
        assert(paths.to_set().contains(paths[i]));
    }
    root_copies_are_below(graph, paths, levels);
    named_copies_are_written(graph, levels);
    assert forall|id: IdModel| #[trigger] resolved.packages.contains_key(id) implies reached(
        resolved.importers,
        every_edge(resolved.packages),
        id,
    ) by {
        let x = choose|x: InstanceModel| #[trigger] names.contains_key(x) && names[x] == id;
        assert(names.dom().contains(x));
        assert(copies.contains_key(x));
        assert(is_below_some(graph, paths, copies, x));
        let (i, name) = choose|i: int, name: Seq<char>|
            0 <= i < paths.len() && #[trigger] copies_for(graph, paths[i]).contains_key(name)
                && is_below(copies, copies_for(graph, paths[i])[name], x);
        let from = copies_for(graph, paths[i])[name];
        let route = choose|route: Seq<InstanceModel>| is_descent(copies, from, x, route);
        descents_are_routes(graph, levels, paths[i], name, x, route);
    }
    assert(reachable_graph(resolved).packages =~= resolved.packages);
}

/// A way down through a graph is followed by a copy of the package at its end.
proof fn routes_have_copies(graph: GraphModel, levels: nat, route: Seq<IdModel>) -> (x:
    InstanceModel)
    requires
        is_finite(graph),
        edges_end_inside(graph),
        peers_resolved(graph, levels) is Some,
        is_route(graph.importers, every_edge(graph.packages), route),
    ensures
        names_in_graph(graph, levels).contains_key(x),
        x.package == route.last(),
    decreases route.len(),
{
    let copies = copies_in_graph(graph, levels);
    let names = names_in_graph(graph, levels);
    named_copies_are_known(graph, levels);
    if route.len() == 1 {
        let id = route[0];
        let (path, name) = choose|path: Seq<char>, name: Seq<char>|
            graph.importers.contains_key(path) && #[trigger] graph.importers[path].contains_key(
                name,
            ) && graph.importers[path][name].resolution == ResolutionModel::Registry(id);
        let frame = provided_by(graph.importers[path]);
        assert(frame.contains_key(name) && frame[name] == id);
        assert(copies_for(graph, path).contains_key(name));
        queries_are_finite(graph.packages, 1);
        let x = copies_for(graph, path)[name];
        assert(x == instance_of(graph.packages, id, seq![frame]));
        assert(x.package == id);
        x
    } else {
        let shorter = route.drop_last();
        assert forall|i: int| 0 <= i < shorter.len() - 1 implies every_edge(graph.packages)(
            #[trigger] shorter[i],
            shorter[i + 1],
        ) by {
            assert(shorter[i] == route[i] && shorter[i + 1] == route[i + 1]);
        }
        let above = routes_have_copies(graph, levels, shorter);
        let k = route.len() - 2;
        assert(every_edge(graph.packages)(route[k], route[k + 1]));
        assert(route[k] == shorter.last());
        assert(depends(graph.packages, above.package, route.last()));
        let name = choose|name: Seq<char>| #[trigger]
            graph.packages[above.package].dependencies.contains_key(name)
                && graph.packages[above.package].dependencies[name] == route.last();
        assert(names.dom().contains(above));
        assert(copies.contains_key(above));
        assert(graph.packages[above.package].dependencies.dom().contains(name));
        assert(copies[above].dependencies.contains_key(name));
        copies[above].dependencies[name]
    }
}

/// Every package that a project leads to keeps at least one copy.
pub proof fn every_package_keeps_a_copy(graph: GraphModel, levels: nat, id: IdModel)
    requires
        is_finite(graph),
        edges_end_inside(graph),
        peers_resolved(graph, levels) is Some,
        reachable_graph(graph).packages.contains_key(id),
    ensures
        exists|copy: IdModel| #[trigger]
            (peers_resolved(graph, levels)->0).packages.contains_key(copy) && copy.name == id.name
                && copy.version == id.version,
{
    let edge = every_edge(graph.packages);
    assert(reached(graph.importers, edge, id));
    let route = choose|route: Seq<IdModel>|
        is_route(graph.importers, edge, route) && route.last() == id;
    named_copies_are_known(graph, levels);
    let x = routes_have_copies(graph, levels, route);
    let copy = names_in_graph(graph, levels)[x];
    assert((peers_resolved(graph, levels)->0).packages.contains_key(copy));
}

} // verus!
