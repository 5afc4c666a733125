//! Where no copy leads back to itself, every name is made of whole names:
//! copies that are named alike are alike, and every package that comes of
//! resolving peers is settled.

use vstd::prelude::*;
use crate::complaints::provided_by;
use crate::copies::{
    copy_of, discovered, discovered_below, instance_of, no_copy, provider, queries_are_finite,
    Chain, Copies, CopyModel,
};
use crate::graph::{GraphModel, PackageModel};
use crate::importer::ImporterPath;
use crate::instance::{Instance, InstanceModel};
use crate::lock_laws::{all_settled, is_settled};
use crate::naming::{
    all_identified, context_from, emitted_package, identified, named_id, names_of, Names,
};
use crate::package_id::{listing, plain_id, IdModel};
use crate::peer_laws::{
    are_alike, copies_closed, copies_in_graph, edges_end_inside, is_finite, named_copies_are_known,
    names_in_graph,
};
use crate::peer_lock_laws::is_plain_graph;
use crate::peer_pass::{copies_for, discovered_roots, named_roots, peers_resolved};
use crate::range::range_admits;
use crate::sorted::{in_order, in_order_lists};

verus! {

/// Does one copy name another, as a peer or as a dependency?
pub open spec fn mentions(copies: Copies, from: InstanceModel, to: InstanceModel) -> bool {
    &&& copies.contains_key(from)
    &&& {
        ||| exists|name: Seq<char>| #[trigger]
            copies[from].own.contains_key(name) && copies[from].own[name] == to
        ||| exists|name: Seq<char>| #[trigger]
            copies[from].dependencies.contains_key(name) && copies[from].dependencies[name] == to
    }
}

/// A way from copy to copy, each mentioning the next.
pub open spec fn is_trail(copies: Copies, route: Seq<InstanceModel>) -> bool {
    &&& route.len() > 0
    &&& forall|i: int|
        0 <= i < route.len() - 1 ==> mentions(copies, #[trigger] route[i], route[i + 1])
}

/// Does some copy lead back to itself?
pub open spec fn goes_round(copies: Copies) -> bool {
    exists|route: Seq<InstanceModel>| #[trigger]
        is_trail(copies, route) && route.len() > 1 && route[0] == route.last()
}

/// Is a copy named by the names of everything that it mentions?
spec fn is_named_truly(copies: Copies, names: Names, x: InstanceModel) -> bool {
    &&& copies.contains_key(x)
    &&& forall|name: Seq<char>| #[trigger]
        copies[x].own.contains_key(name) ==> names.contains_key(copies[x].own[name])
    &&& forall|name: Seq<char>| #[trigger]
        copies[x].dependencies.contains_key(name) ==> names.contains_key(
            copies[x].dependencies[name],
        )
    &&& names[x] == named_id(
        x.package,
        names_of(copies[x].own, names),
        names_of(copies[x].dependencies, names),
    )
}

spec fn all_named_truly(copies: Copies, names: Names) -> bool {
    forall|x: InstanceModel| #[trigger]
        names.contains_key(x) ==> is_named_truly(copies, names, x)
}

spec fn names_kept(before: Names, after: Names) -> bool {
    forall|x: InstanceModel| #[trigger]
        before.contains_key(x) ==> after.contains_key(x) && after[x] == before[x]
}

proof fn true_names_stay(copies: Copies, before: Names, after: Names, x: InstanceModel)
    requires
        names_kept(before, after),
        before.contains_key(x),
        is_named_truly(copies, before, x),
    ensures
        is_named_truly(copies, after, x),
{
    assert(names_of(copies[x].own, before) =~= names_of(copies[x].own, after));
    assert(names_of(copies[x].dependencies, before) =~= names_of(copies[x].dependencies, after));
}

/// Is everything that a copy leads to named, or free to be named?
spec fn is_free(copies: Copies, x: InstanceModel, names: Names, open: Set<InstanceModel>) -> bool {
    forall|route: Seq<InstanceModel>| #[trigger]
        is_trail(copies, route) && route[0] == x ==> open.contains(route.last())
            || names.contains_key(route.last())
}

proof fn what_is_mentioned_is_free(
    copies: Copies,
    x: InstanceModel,
    to: InstanceModel,
    names: Names,
    open: Set<InstanceModel>,
)
    requires
        !goes_round(copies),
        mentions(copies, x, to),
        is_free(copies, x, names, open),
    ensures
        is_free(copies, to, names, open.remove(x)),
{
    assert forall|route: Seq<InstanceModel>| #[trigger]
        is_trail(copies, route) && route[0] == to implies open.remove(x).contains(route.last())
        || names.contains_key(route.last()) by {
        let longer = seq![x] + route;
        assert forall|i: int| 0 <= i < longer.len() - 1 implies mentions(
            copies,
            #[trigger] longer[i],
            longer[i + 1],
        ) by {
            if i > 0 {
                assert(longer[i] == route[i - 1]);
                assert(longer[i + 1] == route[i - 1 + 1]);
            }
        }
        assert(is_trail(copies, longer));
        assert(longer.last() == route.last());
        assert(longer[0] == x);
    }
}

proof fn naming_is_true(
    copies: Copies,
    x: InstanceModel,
    names: Names,
    open: Set<InstanceModel>,
)
    requires
        !goes_round(copies),
        copies_closed(copies),
        copies.contains_key(x),
        forall|y: InstanceModel| #[trigger]
            copies.contains_key(y) ==> copies[y].own.dom().finite()
                && copies[y].dependencies.dom().finite(),
        open.finite(),
        is_free(copies, x, names, open),
        all_named_truly(copies, names),
    ensures
        ({
            let (id, after) = identified::<Instance>(copies, x, names, open);
            &&& names_kept(names, after)
            &&& all_named_truly(copies, after)
            &&& after.contains_key(x)
            &&& id == Some(after[x])
        }),
    decreases open.len(), 0nat,
{
    assert(is_trail(copies, seq![x]));
    assert(seq![x].last() == x);
    if !names.contains_key(x) {
        let copy = copies[x];
        let rest = open.remove(x);
        let own_keys = in_order::<String>(copy.own.dom());
        let dep_keys = in_order::<String>(copy.dependencies.dom());
        in_order_lists::<String>(copy.own.dom());
        in_order_lists::<String>(copy.dependencies.dom());
        assert forall|i: int| 0 <= i < own_keys.len() implies copy.own.contains_key(
            #[trigger] own_keys[i],
        ) && copies.contains_key(copy.own[own_keys[i]]) && is_free(
            copies,
            copy.own[own_keys[i]],
            names,
            rest,
        ) by {
            assert(own_keys.to_set().contains(own_keys[i]));
            assert(copy.own.contains_key(own_keys[i]));
            what_is_mentioned_is_free(copies, x, copy.own[own_keys[i]], names, open);
        }
        naming_all_is_true(copies, own_keys, copy.own, true, names, rest);
        let (own, middle) = all_identified::<Instance>(
            copies,
            own_keys,
            copy.own,
            true,
            names,
            rest,
        );
        assert forall|i: int| 0 <= i < dep_keys.len() implies copy.dependencies.contains_key(
            #[trigger] dep_keys[i],
        ) && copies.contains_key(copy.dependencies[dep_keys[i]]) && is_free(
            copies,
            copy.dependencies[dep_keys[i]],
            middle,
            rest,
        ) by {
            assert(dep_keys.to_set().contains(dep_keys[i]));
            assert(copy.dependencies.contains_key(dep_keys[i]));
            what_is_mentioned_is_free(copies, x, copy.dependencies[dep_keys[i]], names, open);
        }
        naming_all_is_true(copies, dep_keys, copy.dependencies, false, middle, rest);
        let (dependencies, last) = all_identified::<Instance>(
            copies,
            dep_keys,
            copy.dependencies,
            false,
            middle,
            rest,
        );
        let after = identified::<Instance>(copies, x, names, open).1;
        let id = named_id(x.package, own, dependencies);
        assert(after == last.insert(x, id));
        assert(names_kept(middle, last));
        if last.contains_key(x) {
            // Named on the way, it would have the same name.
            assert(is_named_truly(copies, last, x));
        }
        assert(own =~= names_of(copy.own, last)) by {
            assert forall|name: Seq<char>| copy.own.contains_key(name) implies last.contains_key(
                copy.own[name],
            ) && own.contains_key(name) && own[name] == #[trigger] last[copy.own[name]] by {
                assert(own_keys.to_set().contains(name));
                let k = own_keys.index_of(name);
                assert(own[own_keys[k]] == middle[copy.own[own_keys[k]]]);
            }
        }
        assert(dependencies =~= names_of(copy.dependencies, last)) by {
            assert forall|name: Seq<char>| copy.dependencies.contains_key(name) implies
                last.contains_key(copy.dependencies[name]) && dependencies.contains_key(name)
                && dependencies[name] == #[trigger] last[copy.dependencies[name]] by {
                assert(dep_keys.to_set().contains(name));
                let k = dep_keys.index_of(name);
                assert(dependencies[dep_keys[k]] == last[copy.dependencies[dep_keys[k]]]);
            }
        }
        assert(names_kept(last, after));
        assert forall|name: Seq<char>| #[trigger] copy.own.contains_key(name) implies
            last.contains_key(copy.own[name]) by {
            assert(names_of(copy.own, last).dom() =~= own.dom());
            assert(own_keys.to_set().contains(name));
            let k = own_keys.index_of(name);
            assert(middle.contains_key(copy.own[own_keys[k]]));
        }
        assert forall|name: Seq<char>| #[trigger] copy.dependencies.contains_key(name) implies
            last.contains_key(copy.dependencies[name]) by {
            assert(dep_keys.to_set().contains(name));
            let k = dep_keys.index_of(name);
            assert(last.contains_key(copy.dependencies[dep_keys[k]]));
        }
        assert forall|y: InstanceModel| #[trigger] after.contains_key(y) implies is_named_truly(
            copies,
            after,
            y,
        ) by {
            if y == x {
                assert(names_of(copy.own, after) =~= names_of(copy.own, last));
                assert(names_of(copy.dependencies, after) =~= names_of(copy.dependencies, last));
            } else {
                assert(last.contains_key(y));
                true_names_stay(copies, last, after, y);
            }
        }
    }
}

proof fn naming_all_is_true(
    copies: Copies,
    keys: Seq<Seq<char>>,
    targets: Map<Seq<char>, InstanceModel>,
    cut: bool,
    names: Names,
    open: Set<InstanceModel>,
)
    requires
        !goes_round(copies),
        copies_closed(copies),
        forall|y: InstanceModel| #[trigger]
            copies.contains_key(y) ==> copies[y].own.dom().finite()
                && copies[y].dependencies.dom().finite(),
        open.finite(),
        keys.no_duplicates(),
        forall|i: int|
            0 <= i < keys.len() ==> targets.contains_key(#[trigger] keys[i])
                && copies.contains_key(targets[keys[i]]) && is_free(
                copies,
                targets[keys[i]],
                names,
                open,
            ),
        all_named_truly(copies, names),
    ensures
        ({
            let (ids, after) = all_identified::<Instance>(copies, keys, targets, cut, names, open);
            &&& names_kept(names, after)
            &&& all_named_truly(copies, after)
            &&& ids.dom() == keys.to_set()
            &&& forall|i: int|
                0 <= i < keys.len() ==> after.contains_key(targets[#[trigger] keys[i]])
                    && ids[keys[i]] == after[targets[keys[i]]]
        }),
    decreases open.len(), keys.len(),
{
    if keys.len() > 0 {
        let rest = keys.drop_last();
        assert forall|i: int| 0 <= i < rest.len() implies targets.contains_key(#[trigger] rest[i])
            && copies.contains_key(targets[rest[i]]) && is_free(
            copies,
            targets[rest[i]],
            names,
            open,
        ) by {
            assert(rest[i] == keys[i]);
        }
        naming_all_is_true(copies, rest, targets, cut, names, open);
        let (before, middle) = all_identified::<Instance>(copies, rest, targets, cut, names, open);
        let last = keys[keys.len() - 1];
        assert(targets.contains_key(last));
        let x = targets[last];
        assert(is_free(copies, x, middle, open)) by {
            assert(is_free(copies, x, names, open));
        }
        naming_is_true(copies, x, middle, open);
        let (ids, after) = all_identified::<Instance>(copies, keys, targets, cut, names, open);
        assert(ids == before.insert(last, after[x]));
        assert forall|i: int| 0 <= i < keys.len() implies after.contains_key(
            targets[#[trigger] keys[i]],
        ) && ids[keys[i]] == after[targets[keys[i]]] by {
            if i < rest.len() {
                assert(rest[i] == keys[i]);
                assert(middle.contains_key(targets[rest[i]]));
                assert(keys[i] != last);
            }
        }
        assert(keys =~= rest.push(last));
        assert(ids.dom() =~= keys.to_set()) by {
            assert forall|name: Seq<char>| ids.dom().contains(name) implies keys.to_set().contains(
                name,
            ) by {
                if name == last {
                    assert(keys[keys.len() - 1] == name);
                } else {
                    assert(rest.to_set().contains(name));
                    let k = rest.index_of(name);
                    assert(keys[k] == name);
                }
            }
            assert forall|name: Seq<char>| keys.to_set().contains(name) implies ids.dom().contains(
                name,
            ) by {
                let k = keys.index_of(name);
                if k < rest.len() {
                    assert(rest[k] == name);
                    assert(rest.to_set().contains(name));
                }
            }
        }
    } else {
        assert(keys.to_set() =~= Set::<Seq<char>>::empty());
        assert(Map::<Seq<char>, IdModel>::empty().dom() =~= Set::<Seq<char>>::empty());
    }
}

proof fn trails_stay_inside(copies: Copies, x: InstanceModel, names: Names)
    requires
        copies_closed(copies),
        copies.contains_key(x),
    ensures
        is_free(copies, x, names, copies.dom()),
{
    assert forall|route: Seq<InstanceModel>| #[trigger]
        is_trail(copies, route) && route[0] == x implies copies.dom().contains(route.last()) by {
        if route.len() > 1 {
            let k = route.len() - 2;
            assert(mentions(copies, route[k], route[k + 1]));
        }
    }
}

proof fn naming_roots_is_true(graph: GraphModel, copies: Copies, paths: Seq<Seq<char>>)
    requires
        !goes_round(copies),
        copies_closed(copies),
        copies.dom().finite(),
        forall|y: InstanceModel| #[trigger]
            copies.contains_key(y) ==> copies[y].own.dom().finite()
                && copies[y].dependencies.dom().finite(),
        forall|i: int|
            0 <= i < paths.len() ==> copies_for(graph, #[trigger] paths[i]).dom().finite(),
        forall|i: int, name: Seq<char>|
            0 <= i < paths.len() && #[trigger] copies_for(graph, paths[i]).contains_key(name)
                ==> copies.contains_key(copies_for(graph, paths[i])[name]),
    ensures
        all_named_truly(copies, named_roots(graph, copies, paths)),
    decreases paths.len(),
{
    if paths.len() > 0 {
        let rest = paths.drop_last();
        assert forall|i: int| 0 <= i < rest.len() implies copies_for(
            graph,
            #[trigger] rest[i],
        ).dom().finite() by {
            assert(rest[i] == paths[i]);
        }
        assert forall|i: int, name: Seq<char>|
            0 <= i < rest.len() && #[trigger] copies_for(graph, rest[i]).contains_key(name) implies
            copies.contains_key(copies_for(graph, rest[i])[name]) by {
            assert(rest[i] == paths[i]);
            assert(copies_for(graph, paths[i]).contains_key(name));
        }
        naming_roots_is_true(graph, copies, rest);
        let before = named_roots(graph, copies, rest);
        let path = paths[paths.len() - 1];
        let targets = copies_for(graph, path);
        assert(targets.dom().finite());
        let keys = in_order::<String>(targets.dom());
        in_order_lists::<String>(targets.dom());
        assert forall|i: int| 0 <= i < keys.len() implies targets.contains_key(#[trigger] keys[i])
            && copies.contains_key(targets[keys[i]]) && is_free(
            copies,
            targets[keys[i]],
            before,
            copies.dom(),
        ) by {
            assert(keys.to_set().contains(keys[i]));
            assert(copies_for(graph, paths[paths.len() - 1]).contains_key(keys[i]));
            trails_stay_inside(copies, targets[keys[i]], before);
        }
        naming_all_is_true(copies, keys, targets, false, before, copies.dom());
    }
}

/// Is a peer that a package's own dependencies answer answered by the copy
/// that they came to, and is it answered wherever the range admits it?
spec fn agrees(
    packages: Map<IdModel, PackageModel>,
    x: InstanceModel,
    copy: CopyModel<InstanceModel>,
) -> bool {
    forall|name: Seq<char>| #[trigger]
        copy.dependencies.contains_key(name) ==> {
            let package = packages[x.package];
            &&& copy.own.contains_key(name) <==> package.declared_peers.contains_key(name)
                && range_admits(
                package.declared_peers[name].range,
                package.dependencies[name].version,
            )
            &&& copy.own.contains_key(name) ==> copy.own[name] == copy.dependencies[name]
        }
}

spec fn all_agree(packages: Map<IdModel, PackageModel>, copies: Copies) -> bool {
    forall|x: InstanceModel| #[trigger]
        copies.contains_key(x) ==> agrees(packages, x, copies[x])
}

proof fn discovery_agrees(
    packages: Map<IdModel, PackageModel>,
    id: IdModel,
    chain: Chain,
    copies: Copies,
    levels: nat,
)
    requires
        packages.dom().finite(),
        all_agree(packages, copies),
        discovered(packages, id, chain, copies, levels) is Some,
    ensures
        all_agree(packages, discovered(packages, id, chain, copies, levels)->0),
    decreases levels, 0nat,
{
    let here = instance_of(packages, id, chain);
    queries_are_finite(packages, chain.len());
    assert(here.package == id);
    assert(agrees(packages, here, no_copy()));
    if !copies.contains_key(here) && packages.contains_key(id) {
        let deps = packages[id].dependencies;
        let longer = chain.push(deps);
        let start = copies.insert(here, no_copy());
        let names = in_order::<String>(deps.dom());
        discovery_below_agrees(packages, names, deps, longer, start, (levels - 1) as nat);
        let copy = copy_of(packages, packages[id], longer);
        assert forall|name: Seq<char>| #[trigger] copy.dependencies.contains_key(name) implies {
            &&& copy.own.contains_key(name) <==> packages[id].declared_peers.contains_key(name)
                && range_admits(packages[id].declared_peers[name].range, deps[name].version)
            &&& copy.own.contains_key(name) ==> copy.own[name] == copy.dependencies[name]
        } by {
            assert(longer.last() == deps);
            assert(provider(name, longer) == Some(
                ((longer.len() - 1) as nat, deps[name]),
            ));
            assert(longer.take(longer.len() as int) =~= longer);
        }
        assert(agrees(packages, here, copy));
    }
}

proof fn discovery_below_agrees(
    packages: Map<IdModel, PackageModel>,
    names: Seq<Seq<char>>,
    deps: Map<Seq<char>, IdModel>,
    chain: Chain,
    copies: Copies,
    levels: nat,
)
    requires
        packages.dom().finite(),
        all_agree(packages, copies),
        discovered_below(packages, names, deps, chain, copies, levels) is Some,
    ensures
        all_agree(packages, discovered_below(packages, names, deps, chain, copies, levels)->0),
    decreases levels, names.len(),
{
    if names.len() > 0 {
        let rest = names.drop_last();
        discovery_below_agrees(packages, rest, deps, chain, copies, levels);
        let before = discovered_below(packages, rest, deps, chain, copies, levels)->0;
        discovery_agrees(packages, deps[names.last()], chain, before, levels);
    }
}

proof fn discovery_of_roots_agrees(graph: GraphModel, paths: Seq<Seq<char>>, levels: nat)
    requires
        graph.packages.dom().finite(),
        discovered_roots(graph, paths, levels) is Some,
    ensures
        all_agree(graph.packages, discovered_roots(graph, paths, levels)->0),
    decreases paths.len(),
{
    if paths.len() > 0 {
        let rest = paths.drop_last();
        discovery_of_roots_agrees(graph, rest, levels);
        let frame = provided_by(graph.importers[paths.last()]);
        discovery_below_agrees(
            graph.packages,
            in_order::<String>(frame.dom()),
            frame,
            seq![frame],
            discovered_roots(graph, rest, levels)->0,
            levels,
        );
    }
}

/// A listing is of one set of peers.
proof fn listings_are_unique(a: Map<Seq<char>, IdModel>, b: Map<Seq<char>, IdModel>)
    requires
        a.dom().finite(),
        b.dom().finite(),
        listing(a) == listing(b),
    ensures
        a == b,
{
    let names = in_order::<String>(a.dom());
    let others = in_order::<String>(b.dom());
    in_order_lists::<String>(a.dom());
    in_order_lists::<String>(b.dom());
    assert(names.len() == listing(a).len() && others.len() == listing(b).len());
    assert forall|i: int| 0 <= i < names.len() implies names[i] == others[i] && a[names[i]]
        == b[names[i]] by {
        assert(listing(a)[i] == (names[i], a[names[i]]));
        assert(listing(b)[i] == (others[i], b[others[i]]));
    }
    assert(names =~= others);
    assert forall|name: Seq<char>| a.contains_key(name) implies a[name] == b[name] by {
        assert(names.to_set().contains(name));
        let k = names.index_of(name);
        assert(a[names[k]] == b[names[k]]);
    }
    assert(a =~= b);
}

/// Every named copy is named truly, and its peers agree with its
/// dependencies.
proof fn names_are_true(graph: GraphModel, levels: nat)
    requires
        is_finite(graph),
        edges_end_inside(graph),
        peers_resolved(graph, levels) is Some,
        !goes_round(copies_in_graph(graph, levels)),
    ensures
        all_named_truly(copies_in_graph(graph, levels), names_in_graph(graph, levels)),
        all_agree(graph.packages, copies_in_graph(graph, levels)),
{
    let copies = copies_in_graph(graph, levels);
    let paths = in_order::<ImporterPath>(graph.importers.dom());
    in_order_lists::<ImporterPath>(graph.importers.dom());
    named_copies_are_known(graph, levels);
    assert forall|i: int| 0 <= i < paths.len() implies copies_for(
        graph,
        #[trigger] paths[i],
    ).dom().finite() by {
        assert(paths.to_set().contains(paths[i]));
        assert(graph.importers.contains_key(paths[i]));
        let targets = copies_for(graph, paths[i]);
        assert(targets.dom().subset_of(graph.importers[paths[i]].dom()));
        vstd::set_lib::lemma_set_subset_finite(graph.importers[paths[i]].dom(), targets.dom());
    }
    assert forall|i: int, name: Seq<char>|
        0 <= i < paths.len() && #[trigger] copies_for(graph, paths[i]).contains_key(name) implies
        copies.contains_key(copies_for(graph, paths[i])[name]) by {
        assert(paths.to_set().contains(paths[i]));
        assert(graph.importers.contains_key(paths[i]));
    }
    naming_roots_is_true(graph, copies, paths);
    discovery_of_roots_agrees(graph, paths, levels);
}

proof fn contexts_are_finite(copies: Copies, names: Names, x: InstanceModel)
    requires
        copies[x].own.dom().finite(),
        copies[x].dependencies.dom().finite(),
    ensures
        names_of(copies[x].own, names).dom().finite(),
        names_of(copies[x].dependencies, names).dom().finite(),
        context_from(
            names_of(copies[x].own, names),
            names_of(copies[x].dependencies, names),
        ).dom().finite(),
{
    let own = names_of(copies[x].own, names);
    let dependencies = names_of(copies[x].dependencies, names);
    assert(own.dom().subset_of(copies[x].own.dom()));
    vstd::set_lib::lemma_set_subset_finite(copies[x].own.dom(), own.dom());
    assert(dependencies.dom().subset_of(copies[x].dependencies.dom()));
    vstd::set_lib::lemma_set_subset_finite(copies[x].dependencies.dom(), dependencies.dom());
    let context = context_from(own, dependencies);
    assert(context.dom().subset_of(own.dom().union(dependencies.dom())));
    vstd::set_lib::lemma_set_subset_finite(own.dom().union(dependencies.dom()), context.dom());
}

/// Two copies of one name mention the same.
proof fn namesakes_are_alike(graph: GraphModel, levels: nat, x: InstanceModel, y: InstanceModel)
    requires
        is_finite(graph),
        edges_end_inside(graph),
        is_plain_graph(graph),
        peers_resolved(graph, levels) is Some,
        !goes_round(copies_in_graph(graph, levels)),
        names_in_graph(graph, levels).contains_key(x),
        names_in_graph(graph, levels).contains_key(y),
        names_in_graph(graph, levels)[x] == names_in_graph(graph, levels)[y],
    ensures
        ({
            let copies = copies_in_graph(graph, levels);
            let names = names_in_graph(graph, levels);
            &&& x.package == y.package
            &&& names_of(copies[x].own, names) == names_of(copies[y].own, names)
            &&& names_of(copies[x].dependencies, names) == names_of(copies[y].dependencies, names)
        }),
{
    let copies = copies_in_graph(graph, levels);
    let names = names_in_graph(graph, levels);
    named_copies_are_known(graph, levels);
    names_are_true(graph, levels);
    assert(names.dom().contains(x) && names.dom().contains(y));
    assert(copies.contains_key(x) && copies.contains_key(y));
    assert(x.package == plain_id(x.package.name, x.package.version));
    assert(y.package == plain_id(y.package.name, y.package.version));
    assert(x.package == y.package);
    let package = graph.packages[x.package];
    let own_x = names_of(copies[x].own, names);
    let own_y = names_of(copies[y].own, names);
    let deps_x = names_of(copies[x].dependencies, names);
    let deps_y = names_of(copies[y].dependencies, names);
    assert(is_named_truly(copies, names, x) && is_named_truly(copies, names, y));
    contexts_are_finite(copies, names, x);
    contexts_are_finite(copies, names, y);
    let context = context_from(own_x, deps_x);
    listings_are_unique(context, context_from(own_y, deps_y));
    assert(agrees(graph.packages, x, copies[x]) && agrees(graph.packages, y, copies[y]));
    assert forall|name: Seq<char>| #[trigger] package.dependencies.contains_key(name) implies
        deps_x.contains_key(name) && deps_y.contains_key(name) && deps_x[name] == deps_y[name]
        && own_x.contains_key(name) == own_y.contains_key(name) && (own_x.contains_key(name)
        ==> own_x[name] == deps_x[name] && own_y[name] == deps_y[name]) by {
        assert(copies[x].dependencies.dom().contains(name));
        assert(copies[y].dependencies.dom().contains(name));
        assert(copies[x].dependencies.contains_key(name));
        assert(copies[y].dependencies.contains_key(name));
        let a = copies[x].dependencies[name];
        let b = copies[y].dependencies[name];
        assert(names.contains_key(a) && names.contains_key(b));
        assert(a.package == b.package);
        assert(deps_x[name] == names[a] && deps_y[name] == names[b]);
        if names[a].context.len() > 0 {
            assert(context.contains_key(name) && context[name] == names[a]);
        }
        if names[b].context.len() > 0 {
            assert(context.contains_key(name) && context[name] == names[b]);
        }
        if names[a].context.len() == 0 && names[b].context.len() == 0 {
            assert(names[a].context =~= names[b].context);
        }
    }
    assert(deps_x =~= deps_y) by {
        assert forall|name: Seq<char>| deps_x.contains_key(name) implies
            package.dependencies.contains_key(name) by {
            assert(copies[x].dependencies.dom().contains(name));
        }
        assert forall|name: Seq<char>| deps_y.contains_key(name) implies
            package.dependencies.contains_key(name) by {
            assert(copies[y].dependencies.dom().contains(name));
        }
    }
    assert forall|name: Seq<char>| own_x.contains_key(name) == #[trigger] own_y.contains_key(name)
        && (own_x.contains_key(name) ==> own_x[name] == own_y[name]) by {
        if package.dependencies.contains_key(name) {
        } else {
            assert(!copies[x].dependencies.dom().contains(name));
            assert(!copies[y].dependencies.dom().contains(name));
            assert(!deps_x.contains_key(name) && !deps_y.contains_key(name));
            assert(context.contains_key(name) == own_x.contains_key(name));
            assert(context_from(own_y, deps_y).contains_key(name) == own_y.contains_key(name));
            if own_x.contains_key(name) {
                assert(context[name] == own_x[name]);
                assert(context_from(own_y, deps_y)[name] == own_y[name]);
            }
        }
    }
    assert(own_x.dom() =~= own_y.dom());
    assert(own_x =~= own_y);
}

/// Where no copy leads back to itself, copies of one name become the same
/// package, and every package that comes of resolving peers is settled: its
/// name is made of what its peers and its dependencies are named.
pub proof fn names_without_loops_are_whole(graph: GraphModel, levels: nat)
    requires
        is_finite(graph),
        edges_end_inside(graph),
        is_plain_graph(graph),
        peers_resolved(graph, levels) is Some,
        !goes_round(copies_in_graph(graph, levels)),
    ensures
        are_alike(graph, levels),
        all_settled((peers_resolved(graph, levels)->0).packages),
{
    let copies = copies_in_graph(graph, levels);
    let names = names_in_graph(graph, levels);
    let resolved = peers_resolved(graph, levels)->0;
    assert forall|x: InstanceModel, y: InstanceModel| #[trigger]
        names.contains_key(x) && #[trigger] names.contains_key(y) && names[x]
            == names[y] implies emitted_package(
        graph.packages[x.package],
        copies[x],
        names,
        names[x],
    ) == emitted_package(graph.packages[y.package], copies[y], names, names[y]) by {
        namesakes_are_alike(graph, levels, x, y);
    }
    named_copies_are_known(graph, levels);
    names_are_true(graph, levels);
    assert forall|id: IdModel| #[trigger] resolved.packages.contains_key(id) implies is_settled(
        resolved.packages[id],
    ) by {
        let x = choose|x: InstanceModel| #[trigger]
            names.contains_key(x) && names[x] == id && resolved.packages[id] == emitted_package(
                graph.packages[x.package],
                copies[x],
                names,
                id,
            );
        assert(is_named_truly(copies, names, x));
        assert(agrees(graph.packages, x, copies[x]));
        let package = resolved.packages[id];
        assert forall|name: Seq<char>| #[trigger]
            package.peers.contains_key(name) && package.dependencies.contains_key(
                name,
            ) implies package.peers[name] == package.dependencies[name] by {
            assert(copies[x].dependencies.contains_key(name));
            assert(copies[x].own.contains_key(name));
        }
    }
}

/// A package's own dependency answers its peer of that name, before anything
/// further up can: where a package has a name both as a peer and as a
/// dependency, both are the same package, loops or not.
pub proof fn own_dependencies_answer_first(
    graph: GraphModel,
    levels: nat,
    id: IdModel,
    name: Seq<char>,
)
    requires
        is_finite(graph),
        edges_end_inside(graph),
        peers_resolved(graph, levels) is Some,
        (peers_resolved(graph, levels)->0).packages.contains_key(id),
        (peers_resolved(graph, levels)->0).packages[id].peers.contains_key(name),
        (peers_resolved(graph, levels)->0).packages[id].dependencies.contains_key(name),
    ensures
        (peers_resolved(graph, levels)->0).packages[id].peers[name] == (peers_resolved(
            graph,
            levels,
        )->0).packages[id].dependencies[name],
{
    let copies = copies_in_graph(graph, levels);
    let names = names_in_graph(graph, levels);
    let resolved = peers_resolved(graph, levels)->0;
    named_copies_are_known(graph, levels);
    discovery_of_roots_agrees(graph, in_order::<ImporterPath>(graph.importers.dom()), levels);
    let x = choose|x: InstanceModel| #[trigger]
        names.contains_key(x) && names[x] == id && resolved.packages[id] == emitted_package(
            graph.packages[x.package],
            copies[x],
            names,
            id,
        );
    assert(names.dom().contains(x));
    assert(copies.contains_key(x));
    assert(agrees(graph.packages, x, copies[x]));
    assert(copies[x].dependencies.contains_key(name));
    assert(copies[x].own.contains_key(name));
}

/// What a listing of peers holds.
proof fn listings_hold(peers: Map<Seq<char>, IdModel>, name: Seq<char>, id: IdModel)
    requires
        peers.dom().finite(),
    ensures
        listing(peers).contains((name, id)) <==> peers.contains_key(name) && peers[name] == id,
{
    let names = in_order::<String>(peers.dom());
    in_order_lists::<String>(peers.dom());
    let all = listing(peers);
    if all.contains((name, id)) {
        let i = all.index_of((name, id));
        assert(all[i] == (names[i], peers[names[i]]));
        assert(names.to_set().contains(names[i]));
    }
    if peers.contains_key(name) && peers[name] == id {
        assert(names.to_set().contains(name));
        let i = names.index_of(name);
        assert(all[i] == (name, id));
    }
}

/// Where no copy leads back to itself, a package's context says whose answers
/// it lives with, and nothing else: each of its peers stands in it, and so does
/// each of its dependencies that has a context of its own.
pub proof fn contexts_tell_what_was_answered(
    graph: GraphModel,
    levels: nat,
    id: IdModel,
    name: Seq<char>,
    answer: IdModel,
)
    requires
        is_finite(graph),
        edges_end_inside(graph),
        is_plain_graph(graph),
        peers_resolved(graph, levels) is Some,
        !goes_round(copies_in_graph(graph, levels)),
        (peers_resolved(graph, levels)->0).packages.contains_key(id),
    ensures
        ({
            let package = (peers_resolved(graph, levels)->0).packages[id];
            id.context.contains((name, answer)) <==> {
                ||| package.peers.contains_key(name) && package.peers[name] == answer
                ||| package.dependencies.contains_key(name) && package.dependencies[name] == answer
                    && answer.context.len() > 0
            }
        }),
{
    let resolved = peers_resolved(graph, levels)->0;
    let copies = copies_in_graph(graph, levels);
    let names = names_in_graph(graph, levels);
    names_without_loops_are_whole(graph, levels);
    named_copies_are_known(graph, levels);
    let package = resolved.packages[id];
    let x = choose|x: InstanceModel| #[trigger]
        names.contains_key(x) && names[x] == id && resolved.packages[id] == emitted_package(
            graph.packages[x.package],
            copies[x],
            names,
            id,
        );
    assert(names.dom().contains(x));
    assert(copies.dom().contains(x));
    assert(copies.contains_key(x));
    contexts_are_finite(copies, names, x);
    assert(is_settled(package));
    listings_hold(context_from(package.peers, package.dependencies), name, answer);
}

} // verus!
