//! What holds of every graph whose peers were resolved.

use vstd::prelude::*;
use crate::complaints::{
    complained, complained_below, complained_roots, complaints_of, own_complaints, provided_by,
    published_id, ComplaintModel, Complaints,
};
use crate::copies::{
    copy_of, discovered, discovered_below, instance_of, no_copy, provider, providers_provide,
    queries_are_finite, Chain, Copies, CopyModel,
};
use crate::graph::{
    as_declared, every_edge, is_root, is_route, reached, GraphModel, PackageModel, ResolutionModel,
    ResolvedGraph,
};
use crate::importer::ImporterPath;
use crate::instance::{Instance, InstanceModel};
use crate::naming::{all_identified, context_from, emitted, emitted_package, identified, Names};
use crate::package_id::{listing, IdModel};
use crate::peer_pass::{copies_for, discovered_roots, named_roots, peers_resolved};
use crate::range::range_admits;
use crate::sorted::{in_order, in_order_lists};

verus! {

/// Is a graph one that can be written down: finitely many projects, packages
/// and edges?
pub open spec fn is_finite(graph: GraphModel) -> bool {
    &&& graph.importers.dom().finite()
    &&& graph.packages.dom().finite()
    &&& forall|path: Seq<char>| #[trigger]
        graph.importers.contains_key(path) ==> graph.importers[path].dom().finite()
    &&& forall|id: IdModel| #[trigger]
        graph.packages.contains_key(id) ==> graph.packages[id].dependencies.dom().finite()
            && graph.packages[id].declared_peers.dom().finite()
}

/// Every graph can be written down.
pub proof fn graphs_are_finite(graph: &ResolvedGraph)
    ensures
        is_finite(graph.deep_view()),
{
    let model = graph.deep_view();
    graph.importers.is_finite();
    graph.packages.is_finite();
    assert forall|path: Seq<char>| #[trigger] model.importers.contains_key(path) implies
        model.importers[path].dom().finite() by {
        let importer = graph.importers.held_under(path);
        assert(model.importers[path] == importer.deep_view());
        importer.dependencies.is_finite();
    }
    assert forall|id: IdModel| #[trigger] model.packages.contains_key(id) implies
        model.packages[id].dependencies.dom().finite()
        && model.packages[id].declared_peers.dom().finite() by {
        let package = graph.packages.held_under(id);
        assert(model.packages[id] == package.deep_view());
        package.dependencies.is_finite();
        package.declared_peers.is_finite();
    }
}

/// Does everything that some copies resolved to belong to them, or to a set
/// that was promised?
spec fn held(copies: Copies, promised: Set<InstanceModel>) -> bool {
    &&& forall|x: InstanceModel, name: Seq<char>|
        copies.contains_key(x) && #[trigger] copies[x].own.contains_key(name)
            ==> copies.contains_key(copies[x].own[name]) || promised.contains(copies[x].own[name])
    &&& forall|x: InstanceModel, name: Seq<char>|
        copies.contains_key(x) && #[trigger] copies[x].dependencies.contains_key(name)
            ==> copies.contains_key(copies[x].dependencies[name]) || promised.contains(
            copies[x].dependencies[name],
        )
}

/// Is every copy that a chain has in sight promised?
spec fn in_sight(
    packages: Map<IdModel, PackageModel>,
    chain: Chain,
    promised: Set<InstanceModel>,
) -> bool {
    forall|f: int, name: Seq<char>|
        0 <= f < chain.len() && #[trigger] chain[f].contains_key(name) ==> promised.contains(
            instance_of(packages, chain[f][name], chain.take(f + 1)),
        )
}

spec fn targets_of(
    packages: Map<IdModel, PackageModel>,
    deps: Map<Seq<char>, IdModel>,
    chain: Chain,
) -> Set<InstanceModel> {
    Set::new(
        |x: InstanceModel|
            exists|name: Seq<char>| #[trigger]
                deps.contains_key(name) && instance_of(packages, deps[name], chain) == x,
    )
}

spec fn finite_packages(packages: Map<IdModel, PackageModel>) -> bool {
    forall|id: IdModel| #[trigger]
        packages.contains_key(id) ==> packages[id].dependencies.dom().finite()
}

proof fn discovery_holds(
    packages: Map<IdModel, PackageModel>,
    id: IdModel,
    chain: Chain,
    copies: Copies,
    levels: nat,
    promised: Set<InstanceModel>,
)
    requires
        finite_packages(packages),
        held(copies, promised),
        in_sight(packages, chain, promised),
        discovered(packages, id, chain, copies, levels) is Some,
    ensures
        held(discovered(packages, id, chain, copies, levels)->0, promised),
        copies.dom().subset_of((discovered(packages, id, chain, copies, levels)->0).dom()),
        (discovered(packages, id, chain, copies, levels)->0).contains_key(
            instance_of(packages, id, chain),
        ),
    decreases levels, 0nat,
{
    let here = instance_of(packages, id, chain);
    let after = discovered(packages, id, chain, copies, levels)->0;
    if copies.contains_key(here) {
    } else if !packages.contains_key(id) {
        assert forall|x: InstanceModel, name: Seq<char>|
            after.contains_key(x) && #[trigger] after[x].own.contains_key(
                name,
            ) implies after.contains_key(after[x].own[name]) || promised.contains(
            after[x].own[name],
        ) by {
            assert(copies.contains_key(x) && copies[x].own.contains_key(name));
        }
        assert forall|x: InstanceModel, name: Seq<char>|
            after.contains_key(x) && #[trigger] after[x].dependencies.contains_key(
                name,
            ) implies after.contains_key(after[x].dependencies[name]) || promised.contains(
            after[x].dependencies[name],
        ) by {
            assert(copies.contains_key(x) && copies[x].dependencies.contains_key(name));
        }
    } else {
        let deps = packages[id].dependencies;
        let longer = chain.push(deps);
        let start = copies.insert(here, no_copy());
        let below = targets_of(packages, deps, longer);
        let wider = promised.union(below);
        let names = in_order::<String>(deps.dom());
        in_order_lists::<String>(deps.dom());
        assert(held(start, wider)) by {
            assert forall|x: InstanceModel, name: Seq<char>|
                start.contains_key(x) && #[trigger] start[x].own.contains_key(
                    name,
                ) implies start.contains_key(start[x].own[name]) || wider.contains(
                start[x].own[name],
            ) by {
                assert(copies.contains_key(x) && copies[x].own.contains_key(name));
            }
            assert forall|x: InstanceModel, name: Seq<char>|
                start.contains_key(x) && #[trigger] start[x].dependencies.contains_key(
                    name,
                ) implies start.contains_key(start[x].dependencies[name]) || wider.contains(
                start[x].dependencies[name],
            ) by {
                assert(copies.contains_key(x) && copies[x].dependencies.contains_key(name));
            }
        }
        assert(in_sight(packages, longer, wider)) by {
            assert forall|f: int, name: Seq<char>|
                0 <= f < longer.len() && #[trigger] longer[f].contains_key(
                    name,
                ) implies wider.contains(
                instance_of(packages, longer[f][name], longer.take(f + 1)),
            ) by {
                if f < chain.len() {
                    assert(longer.take(f + 1) =~= chain.take(f + 1));
                    assert(chain[f].contains_key(name));
                } else {
                    assert(longer.take(f + 1) =~= longer);
                    assert(deps.contains_key(name));
                }
            }
        }
        let found = discovered_below(
            packages,
            names,
            deps,
            longer,
            start,
            (levels - 1) as nat,
        )->0;
        discovery_below_holds(packages, names, deps, longer, start, (levels - 1) as nat, wider);
        let copy = copy_of(packages, packages[id], longer);
        assert(after == found.insert(here, copy));
        assert forall|x: InstanceModel| below.contains(x) implies found.contains_key(x) by {
            let name = choose|name: Seq<char>| #[trigger]
                deps.contains_key(name) && instance_of(packages, deps[name], longer) == x;
            assert(names.to_set().contains(name));
            let k = names.index_of(name);
            assert(found.contains_key(instance_of(packages, deps[names[k]], longer)));
        }
        assert forall|x: InstanceModel, name: Seq<char>|
            after.contains_key(x) && #[trigger] after[x].own.contains_key(
                name,
            ) implies after.contains_key(after[x].own[name]) || promised.contains(
            after[x].own[name],
        ) by {
            if x == here {
                providers_provide(name, longer);
                let (frame, provided) = provider(name, longer)->0;
                assert(longer[frame as int].contains_key(name));
                assert(wider.contains(
                    instance_of(packages, longer[frame as int][name], longer.take(frame as int + 1)),
                ));
            } else {
                assert(found.contains_key(x) && found[x].own.contains_key(name));
            }
        }
        assert forall|x: InstanceModel, name: Seq<char>|
            after.contains_key(x) && #[trigger] after[x].dependencies.contains_key(
                name,
            ) implies after.contains_key(after[x].dependencies[name]) || promised.contains(
            after[x].dependencies[name],
        ) by {
            if x == here {
                assert(deps.contains_key(name));
                assert(below.contains(instance_of(packages, deps[name], longer)));
            } else {
                assert(found.contains_key(x) && found[x].dependencies.contains_key(name));
            }
        }
    }
}

proof fn discovery_below_holds(
    packages: Map<IdModel, PackageModel>,
    names: Seq<Seq<char>>,
    deps: Map<Seq<char>, IdModel>,
    chain: Chain,
    copies: Copies,
    levels: nat,
    promised: Set<InstanceModel>,
)
    requires
        finite_packages(packages),
        held(copies, promised),
        in_sight(packages, chain, promised),
        discovered_below(packages, names, deps, chain, copies, levels) is Some,
    ensures
        held(discovered_below(packages, names, deps, chain, copies, levels)->0, promised),
        copies.dom().subset_of(
            (discovered_below(packages, names, deps, chain, copies, levels)->0).dom(),
        ),
        forall|i: int|
            0 <= i < names.len() ==> (discovered_below(
                packages,
                names,
                deps,
                chain,
                copies,
                levels,
            )->0).contains_key(instance_of(packages, deps[#[trigger] names[i]], chain)),
    decreases levels, names.len(),
{
    if names.len() > 0 {
        let rest = names.drop_last();
        discovery_below_holds(packages, rest, deps, chain, copies, levels, promised);
        let before = discovered_below(packages, rest, deps, chain, copies, levels)->0;
        discovery_holds(packages, deps[names.last()], chain, before, levels, promised);
        let after = discovered_below(packages, names, deps, chain, copies, levels)->0;
        assert forall|i: int| 0 <= i < names.len() implies after.contains_key(
            instance_of(packages, deps[#[trigger] names[i]], chain),
        ) by {
            if i < rest.len() {
                assert(rest[i] == names[i]);
                assert(before.contains_key(instance_of(packages, deps[rest[i]], chain)));
            }
        }
    }
}

/// Is every copy that is mentioned one of the copies?
pub open spec fn copies_closed(copies: Copies) -> bool {
    &&& forall|x: InstanceModel, name: Seq<char>|
        copies.contains_key(x) && #[trigger] copies[x].own.contains_key(name)
            ==> copies.contains_key(copies[x].own[name])
    &&& forall|x: InstanceModel, name: Seq<char>|
        copies.contains_key(x) && #[trigger] copies[x].dependencies.contains_key(name)
            ==> copies.contains_key(copies[x].dependencies[name])
}

/// Whatever answered a peer, and whatever a copy depends on, is itself one of
/// the copies that were found, and so is all that the projects depend on.
pub proof fn found_copies_are_closed(graph: GraphModel, paths: Seq<Seq<char>>, levels: nat)
    requires
        is_finite(graph),
        forall|i: int| 0 <= i < paths.len() ==> graph.importers.contains_key(#[trigger] paths[i]),
        discovered_roots(graph, paths, levels) is Some,
    ensures
        copies_closed(discovered_roots(graph, paths, levels)->0),
        forall|i: int, name: Seq<char>|
            0 <= i < paths.len() && #[trigger] copies_for(graph, paths[i]).contains_key(name) ==> (
            discovered_roots(graph, paths, levels)->0).contains_key(
                copies_for(graph, paths[i])[name],
            ),
    decreases paths.len(),
{
    if paths.len() > 0 {
        let rest = paths.drop_last();
        assert forall|i: int| 0 <= i < rest.len() implies graph.importers.contains_key(
            #[trigger] rest[i],
        ) by {
            assert(rest[i] == paths[i]);
        }
        found_copies_are_closed(graph, rest, levels);
        let before = discovered_roots(graph, rest, levels)->0;
        let path = paths[paths.len() - 1];
        assert(graph.importers.contains_key(path));
        let frame = provided_by(graph.importers[path]);
        assert(frame.dom().subset_of(graph.importers[path].dom()));
        vstd::set_lib::lemma_set_subset_finite(graph.importers[path].dom(), frame.dom());
        let names = in_order::<String>(frame.dom());
        in_order_lists::<String>(frame.dom());
        let chain = seq![frame];
        let promised = targets_of(graph.packages, frame, chain);
        assert(in_sight(graph.packages, chain, promised)) by {
            assert forall|f: int, name: Seq<char>|
                0 <= f < chain.len() && #[trigger] chain[f].contains_key(
                    name,
                ) implies promised.contains(
                instance_of(graph.packages, chain[f][name], chain.take(f + 1)),
            ) by {
                assert(chain.take(f + 1) =~= chain);
                assert(frame.contains_key(name));
            }
        }
        discovery_below_holds(graph.packages, names, frame, chain, before, levels, promised);
        let after = discovered_roots(graph, paths, levels)->0;
        assert forall|x: InstanceModel| promised.contains(x) implies after.contains_key(x) by {
            let name = choose|name: Seq<char>| #[trigger]
                frame.contains_key(name) && instance_of(graph.packages, frame[name], chain) == x;
            assert(names.to_set().contains(name));
            let k = names.index_of(name);
            assert(after.contains_key(instance_of(graph.packages, frame[names[k]], chain)));
        }
        assert forall|i: int, name: Seq<char>|
            0 <= i < paths.len() && #[trigger] copies_for(graph, paths[i]).contains_key(
                name,
            ) implies after.contains_key(copies_for(graph, paths[i])[name]) by {
            if i < rest.len() {
                assert(rest[i] == paths[i]);
                assert(copies_for(graph, rest[i]).contains_key(name));
            } else {
                assert(frame.contains_key(name));
                assert(promised.contains(instance_of(graph.packages, frame[name], chain)));
            }
        }
    }
}

/// Is everything that a named copy mentions named, or being named?
spec fn names_closed(copies: Copies, names: Names, open: Set<InstanceModel>) -> bool {
    &&& names.dom().subset_of(copies.dom())
    &&& forall|x: InstanceModel, name: Seq<char>|
        names.contains_key(x) && #[trigger] copies[x].own.contains_key(name)
            ==> names.contains_key(copies[x].own[name]) || !open.contains(copies[x].own[name])
    &&& forall|x: InstanceModel, name: Seq<char>|
        names.contains_key(x) && #[trigger] copies[x].dependencies.contains_key(name)
            ==> names.contains_key(copies[x].dependencies[name]) || !open.contains(
            copies[x].dependencies[name],
        )
}

spec fn all_finite(copies: Copies) -> bool {
    forall|x: InstanceModel| #[trigger]
        copies.contains_key(x) ==> copies[x].own.dom().finite()
            && copies[x].dependencies.dom().finite()
}

proof fn naming_holds(copies: Copies, instance: InstanceModel, names: Names, open: Set<InstanceModel>)
    requires
        copies_closed(copies),
        all_finite(copies),
        copies.dom().finite(),
        open.subset_of(copies.dom()),
        names_closed(copies, names, open),
    ensures
        names_closed(copies, identified::<Instance>(copies, instance, names, open).1, open),
        names.dom().subset_of(identified::<Instance>(copies, instance, names, open).1.dom()),
        open.contains(instance) ==> identified::<Instance>(copies, instance, names, open).1.contains_key(
            instance,
        ),
        open.contains(instance) ==> identified::<Instance>(copies, instance, names, open).0 is Some,
    decreases open.len(), 0nat,
{
    vstd::set_lib::lemma_set_subset_finite(copies.dom(), open);
    if !names.contains_key(instance) && open.contains(instance) {
        let copy = copies[instance];
        let rest = open.remove(instance);
        assert(names_closed(copies, names, rest));
        let own_keys = in_order::<String>(copy.own.dom());
        let dep_keys = in_order::<String>(copy.dependencies.dom());
        assert(copies.contains_key(instance));
        in_order_lists::<String>(copy.own.dom());
        in_order_lists::<String>(copy.dependencies.dom());
        naming_all_holds(copies, own_keys, copy.own, true, names, rest);
        let middle = all_identified::<Instance>(copies, own_keys, copy.own, true, names, rest).1;
        naming_all_holds(copies, dep_keys, copy.dependencies, false, middle, rest);
        let last = all_identified::<Instance>(copies, dep_keys, copy.dependencies, false, middle, rest).1;
        let after = identified::<Instance>(copies, instance, names, open).1;
        assert(after.dom() =~= last.dom().insert(instance));
        assert forall|x: InstanceModel, name: Seq<char>|
            after.contains_key(x) && #[trigger] copies[x].own.contains_key(
                name,
            ) implies after.contains_key(copies[x].own[name]) || !open.contains(
            copies[x].own[name],
        ) by {
            if x == instance {
                assert(own_keys.to_set().contains(name));
                let k = own_keys.index_of(name);
                assert(rest.contains(copy.own[own_keys[k]]) ==> middle.contains_key(
                    copy.own[own_keys[k]],
                ));
            } else {
                assert(last.contains_key(x));
            }
        }
        assert forall|x: InstanceModel, name: Seq<char>|
            after.contains_key(x) && #[trigger] copies[x].dependencies.contains_key(
                name,
            ) implies after.contains_key(copies[x].dependencies[name]) || !open.contains(
            copies[x].dependencies[name],
        ) by {
            if x == instance {
                assert(dep_keys.to_set().contains(name));
                let k = dep_keys.index_of(name);
                assert(rest.contains(copy.dependencies[dep_keys[k]]) ==> last.contains_key(
                    copy.dependencies[dep_keys[k]],
                ));
            } else {
                assert(last.contains_key(x));
            }
        }
    }
}

proof fn naming_all_holds(
    copies: Copies,
    keys: Seq<Seq<char>>,
    targets: Map<Seq<char>, InstanceModel>,
    cut: bool,
    names: Names,
    open: Set<InstanceModel>,
)
    requires
        copies_closed(copies),
        all_finite(copies),
        copies.dom().finite(),
        open.subset_of(copies.dom()),
        names_closed(copies, names, open),
    ensures
        names_closed(copies, all_identified::<Instance>(copies, keys, targets, cut, names, open).1, open),
        names.dom().subset_of(all_identified::<Instance>(copies, keys, targets, cut, names, open).1.dom()),
        forall|i: int|
            0 <= i < keys.len() && open.contains(targets[#[trigger] keys[i]]) ==> all_identified::<Instance>(
                copies,
                keys,
                targets,
                cut,
                names,
                open,
            ).1.contains_key(targets[keys[i]]),
    decreases open.len(), keys.len(),
{
    vstd::set_lib::lemma_set_subset_finite(copies.dom(), open);
    if keys.len() > 0 {
        let rest = keys.drop_last();
        naming_all_holds(copies, rest, targets, cut, names, open);
        let middle = all_identified::<Instance>(copies, rest, targets, cut, names, open).1;
        naming_holds(copies, targets[keys.last()], middle, open);
        let after = all_identified::<Instance>(copies, keys, targets, cut, names, open).1;
        assert(after == identified::<Instance>(copies, targets[keys.last()], middle, open).1);
        assert forall|i: int|
            0 <= i < keys.len() && open.contains(
                targets[#[trigger] keys[i]],
            ) implies after.contains_key(targets[keys[i]]) by {
            if i < rest.len() {
                assert(rest[i] == keys[i]);
                assert(middle.contains_key(targets[rest[i]]));
            }
        }
    }
}

proof fn naming_roots_holds(graph: GraphModel, copies: Copies, paths: Seq<Seq<char>>)
    requires
        copies_closed(copies),
        all_finite(copies),
        copies.dom().finite(),
        forall|i: int|
            0 <= i < paths.len() ==> copies_for(graph, #[trigger] paths[i]).dom().finite(),
    ensures
        names_closed(copies, named_roots(graph, copies, paths), copies.dom()),
        forall|i: int, name: Seq<char>|
            0 <= i < paths.len() && #[trigger] copies_for(graph, paths[i]).contains_key(name)
                && copies.contains_key(copies_for(graph, paths[i])[name]) ==> named_roots(
                graph,
                copies,
                paths,
            ).contains_key(copies_for(graph, paths[i])[name]),
    decreases paths.len(),
{
    if paths.len() > 0 {
        let rest = paths.drop_last();
        assert forall|i: int| 0 <= i < rest.len() implies copies_for(
            graph,
            #[trigger] rest[i],
        ).dom().finite() by {
            assert(rest[i] == paths[i]);
        }
        naming_roots_holds(graph, copies, rest);
        let before = named_roots(graph, copies, rest);
        let path = paths[paths.len() - 1];
        let targets = copies_for(graph, path);
        assert(targets.dom().finite());
        let keys = in_order::<String>(targets.dom());
        in_order_lists::<String>(targets.dom());
        naming_all_holds(copies, keys, targets, false, before, copies.dom());
        let after = named_roots(graph, copies, paths);
        assert forall|i: int, name: Seq<char>|
            0 <= i < paths.len() && #[trigger] copies_for(graph, paths[i]).contains_key(name)
                && copies.contains_key(copies_for(graph, paths[i])[name]) implies after.contains_key(
        copies_for(graph, paths[i])[name]) by {
            if i < rest.len() {
                assert(rest[i] == paths[i]);
                assert(copies_for(graph, rest[i]).contains_key(name));
            } else {
                assert(keys.to_set().contains(name));
                let k = keys.index_of(name);
                assert(copies.dom().contains(targets[keys[k]]));
            }
        }
    }
}

/// Does a graph hold every package that its edges lead to?
pub open spec fn edges_end_inside(graph: GraphModel) -> bool {
    &&& forall|id: IdModel, name: Seq<char>|
        graph.packages.contains_key(id) && #[trigger] graph.packages[id].dependencies.contains_key(
            name,
        ) ==> graph.packages.contains_key(graph.packages[id].dependencies[name])
    &&& forall|path: Seq<char>, name: Seq<char>|
        graph.importers.contains_key(path) && #[trigger] graph.importers[path].contains_key(name)
            && graph.importers[path][name].resolution is Registry ==> graph.packages.contains_key(
            graph.importers[path][name].resolution->Registry_0,
        )
}

/// Does a copy depend on copies of what its package depends on, and were its
/// peers answered by packages that it asked for?
spec fn mirrors(packages: Map<IdModel, PackageModel>, x: InstanceModel, copy: CopyModel<InstanceModel>) -> bool {
    &&& copy.own.dom().finite()
    &&& copy.dependencies.dom().finite()
    &&& forall|name: Seq<char>| #[trigger]
        copy.dependencies.contains_key(name) ==> {
            &&& packages.contains_key(x.package)
            &&& packages[x.package].dependencies.contains_key(name)
            &&& copy.dependencies[name].package == packages[x.package].dependencies[name]
        }
    &&& forall|name: Seq<char>| #[trigger]
        copy.own.contains_key(name) ==> {
            &&& packages.contains_key(x.package)
            &&& packages.contains_key(copy.own[name].package)
            &&& packages[x.package].declared_peers.contains_key(name)
            &&& range_admits(
                packages[x.package].declared_peers[name].range,
                copy.own[name].package.version,
            )
        }
}

spec fn all_mirror(packages: Map<IdModel, PackageModel>, copies: Copies) -> bool {
    &&& copies.dom().finite()
    &&& forall|x: InstanceModel| #[trigger]
        copies.contains_key(x) ==> mirrors(packages, x, copies[x])
}

/// Does every frame of a chain hold only packages of the graph?
spec fn frames_inside(packages: Map<IdModel, PackageModel>, chain: Chain) -> bool {
    forall|f: int, name: Seq<char>|
        0 <= f < chain.len() && #[trigger] chain[f].contains_key(name) ==> packages.contains_key(
            chain[f][name],
        )
}

/// A copy is a copy of the package that it was asked for.
proof fn copies_are_of(packages: Map<IdModel, PackageModel>, id: IdModel, chain: Chain)
    requires
        packages.dom().finite(),
    ensures
        instance_of(packages, id, chain).package == id,
{
    queries_are_finite(packages, chain.len());
}

/// Does every copy that is not still being entered depend on as much as its
/// package does?
spec fn full(packages: Map<IdModel, PackageModel>, copies: Copies, busy: Set<InstanceModel>) -> bool {
    forall|x: InstanceModel| #[trigger]
        copies.contains_key(x) && !busy.contains(x) && packages.contains_key(x.package)
            ==> copies[x].dependencies.dom() == packages[x.package].dependencies.dom()
}

proof fn discovery_is_full(
    packages: Map<IdModel, PackageModel>,
    id: IdModel,
    chain: Chain,
    copies: Copies,
    levels: nat,
    busy: Set<InstanceModel>,
)
    requires
        packages.dom().finite(),
        full(packages, copies, busy),
        discovered(packages, id, chain, copies, levels) is Some,
    ensures
        full(packages, discovered(packages, id, chain, copies, levels)->0, busy),
    decreases levels, 0nat,
{
    let here = instance_of(packages, id, chain);
    copies_are_of(packages, id, chain);
    if !copies.contains_key(here) && packages.contains_key(id) {
        let deps = packages[id].dependencies;
        let longer = chain.push(deps);
        let start = copies.insert(here, no_copy());
        let names = in_order::<String>(deps.dom());
        let wider = busy.insert(here);
        assert(full(packages, start, wider));
        discovery_below_is_full(
            packages,
            names,
            deps,
            longer,
            start,
            (levels - 1) as nat,
            wider,
        );
        let found = discovered_below(
            packages,
            names,
            deps,
            longer,
            start,
            (levels - 1) as nat,
        )->0;
        let copy = copy_of(packages, packages[id], longer);
        assert(copy.dependencies.dom() =~= deps.dom());
    }
}

proof fn discovery_below_is_full(
    packages: Map<IdModel, PackageModel>,
    names: Seq<Seq<char>>,
    deps: Map<Seq<char>, IdModel>,
    chain: Chain,
    copies: Copies,
    levels: nat,
    busy: Set<InstanceModel>,
)
    requires
        packages.dom().finite(),
        full(packages, copies, busy),
        discovered_below(packages, names, deps, chain, copies, levels) is Some,
    ensures
        full(packages, discovered_below(packages, names, deps, chain, copies, levels)->0, busy),
    decreases levels, names.len(),
{
    if names.len() > 0 {
        let rest = names.drop_last();
        discovery_below_is_full(packages, rest, deps, chain, copies, levels, busy);
        let before = discovered_below(packages, rest, deps, chain, copies, levels)->0;
        discovery_is_full(packages, deps[names.last()], chain, before, levels, busy);
    }
}

proof fn discovery_of_roots_is_full(graph: GraphModel, paths: Seq<Seq<char>>, levels: nat)
    requires
        graph.packages.dom().finite(),
        discovered_roots(graph, paths, levels) is Some,
    ensures
        full(graph.packages, discovered_roots(graph, paths, levels)->0, Set::empty()),
    decreases paths.len(),
{
    if paths.len() > 0 {
        let rest = paths.drop_last();
        discovery_of_roots_is_full(graph, rest, levels);
        let frame = provided_by(graph.importers[paths.last()]);
        discovery_below_is_full(
            graph.packages,
            in_order::<String>(frame.dom()),
            frame,
            seq![frame],
            discovered_roots(graph, rest, levels)->0,
            levels,
            Set::empty(),
        );
    }
}

proof fn discovery_mirrors(
    graph: GraphModel,
    id: IdModel,
    chain: Chain,
    copies: Copies,
    levels: nat,
)
    requires
        is_finite(graph),
        edges_end_inside(graph),
        frames_inside(graph.packages, chain),
        all_mirror(graph.packages, copies),
        discovered(graph.packages, id, chain, copies, levels) is Some,
    ensures
        all_mirror(graph.packages, discovered(graph.packages, id, chain, copies, levels)->0),
    decreases levels, 0nat,
{
    let packages = graph.packages;
    let here = instance_of(packages, id, chain);
    copies_are_of(packages, id, chain);
    if !copies.contains_key(here) && packages.contains_key(id) {
        let deps = packages[id].dependencies;
        let longer = chain.push(deps);
        let start = copies.insert(here, no_copy());
        let names = in_order::<String>(deps.dom());
        in_order_lists::<String>(deps.dom());
        assert(frames_inside(packages, longer)) by {
            assert forall|f: int, name: Seq<char>|
                0 <= f < longer.len() && #[trigger] longer[f].contains_key(
                    name,
                ) implies packages.contains_key(longer[f][name]) by {
                if f < chain.len() {
                    assert(chain[f].contains_key(name));
                } else {
                    assert(packages[id].dependencies.contains_key(name));
                }
            }
        }
        discovery_below_mirrors(graph, names, deps, longer, start, (levels - 1) as nat);
        let copy = copy_of(packages, packages[id], longer);
        assert(mirrors(packages, here, copy)) by {
            assert(copy.own.dom().subset_of(packages[id].declared_peers.dom()));
            vstd::set_lib::lemma_set_subset_finite(
                packages[id].declared_peers.dom(),
                copy.own.dom(),
            );
            assert(copy.dependencies.dom() =~= deps.dom());
            assert forall|name: Seq<char>| #[trigger] copy.dependencies.contains_key(
                name,
            ) implies copy.dependencies[name].package == deps[name] by {
                copies_are_of(packages, deps[name], longer);
            }
            assert forall|name: Seq<char>| #[trigger] copy.own.contains_key(name) implies {
                &&& packages.contains_key(here.package)
                &&& packages.contains_key(copy.own[name].package)
                &&& packages[here.package].declared_peers.contains_key(name)
                &&& range_admits(
                    packages[here.package].declared_peers[name].range,
                    copy.own[name].package.version,
                )
            } by {
                providers_provide(name, longer);
                let (frame, found) = provider(name, longer)->0;
                assert(longer[frame as int].contains_key(name));
                copies_are_of(packages, found, longer.take(frame as int + 1));
            }
        }
    } else if !copies.contains_key(here) {
        assert(mirrors(packages, here, no_copy()));
    }
}

proof fn discovery_below_mirrors(
    graph: GraphModel,
    names: Seq<Seq<char>>,
    deps: Map<Seq<char>, IdModel>,
    chain: Chain,
    copies: Copies,
    levels: nat,
)
    requires
        is_finite(graph),
        edges_end_inside(graph),
        frames_inside(graph.packages, chain),
        all_mirror(graph.packages, copies),
        discovered_below(graph.packages, names, deps, chain, copies, levels) is Some,
    ensures
        all_mirror(
            graph.packages,
            discovered_below(graph.packages, names, deps, chain, copies, levels)->0,
        ),
    decreases levels, names.len(),
{
    if names.len() > 0 {
        let rest = names.drop_last();
        discovery_below_mirrors(graph, rest, deps, chain, copies, levels);
        let before = discovered_below(graph.packages, rest, deps, chain, copies, levels)->0;
        discovery_mirrors(graph, deps[names.last()], chain, before, levels);
    }
}

proof fn discovery_of_roots_mirrors(graph: GraphModel, paths: Seq<Seq<char>>, levels: nat)
    requires
        is_finite(graph),
        edges_end_inside(graph),
        forall|i: int| 0 <= i < paths.len() ==> graph.importers.contains_key(#[trigger] paths[i]),
        discovered_roots(graph, paths, levels) is Some,
    ensures
        all_mirror(graph.packages, discovered_roots(graph, paths, levels)->0),
    decreases paths.len(),
{
    if paths.len() > 0 {
        let rest = paths.drop_last();
        assert forall|i: int| 0 <= i < rest.len() implies graph.importers.contains_key(
            #[trigger] rest[i],
        ) by {
            assert(rest[i] == paths[i]);
        }
        discovery_of_roots_mirrors(graph, rest, levels);
        let before = discovered_roots(graph, rest, levels)->0;
        let path = paths[paths.len() - 1];
        assert(graph.importers.contains_key(path));
        let frame = provided_by(graph.importers[path]);
        let chain = seq![frame];
        assert(frames_inside(graph.packages, chain)) by {
            assert forall|f: int, name: Seq<char>|
                0 <= f < chain.len() && #[trigger] chain[f].contains_key(
                    name,
                ) implies graph.packages.contains_key(chain[f][name]) by {
                assert(graph.importers[path].contains_key(name));
            }
        }
        discovery_below_mirrors(
            graph,
            in_order::<String>(frame.dom()),
            frame,
            chain,
            before,
            levels,
        );
    }
}

/// Is every copy of a package of the graph?
spec fn all_inside(packages: Map<IdModel, PackageModel>, copies: Copies) -> bool {
    forall|x: InstanceModel| #[trigger] copies.contains_key(x) ==> packages.contains_key(x.package)
}

proof fn discovery_stays_inside(
    graph: GraphModel,
    id: IdModel,
    chain: Chain,
    copies: Copies,
    levels: nat,
)
    requires
        is_finite(graph),
        edges_end_inside(graph),
        graph.packages.contains_key(id),
        all_inside(graph.packages, copies),
        discovered(graph.packages, id, chain, copies, levels) is Some,
    ensures
        all_inside(graph.packages, discovered(graph.packages, id, chain, copies, levels)->0),
    decreases levels, 0nat,
{
    let packages = graph.packages;
    let here = instance_of(packages, id, chain);
    copies_are_of(packages, id, chain);
    if !copies.contains_key(here) {
        let deps = packages[id].dependencies;
        let longer = chain.push(deps);
        let start = copies.insert(here, no_copy());
        let names = in_order::<String>(deps.dom());
        in_order_lists::<String>(deps.dom());
        assert forall|i: int| 0 <= i < names.len() implies packages.contains_key(
            deps[#[trigger] names[i]],
        ) by {
            assert(names.to_set().contains(names[i]));
            assert(packages[id].dependencies.contains_key(names[i]));
        }
        discovery_below_stays_inside(graph, names, deps, longer, start, (levels - 1) as nat);
    }
}

proof fn discovery_below_stays_inside(
    graph: GraphModel,
    names: Seq<Seq<char>>,
    deps: Map<Seq<char>, IdModel>,
    chain: Chain,
    copies: Copies,
    levels: nat,
)
    requires
        is_finite(graph),
        edges_end_inside(graph),
        forall|i: int|
            0 <= i < names.len() ==> graph.packages.contains_key(deps[#[trigger] names[i]]),
        all_inside(graph.packages, copies),
        discovered_below(graph.packages, names, deps, chain, copies, levels) is Some,
    ensures
        all_inside(
            graph.packages,
            discovered_below(graph.packages, names, deps, chain, copies, levels)->0,
        ),
    decreases levels, names.len(),
{
    if names.len() > 0 {
        let rest = names.drop_last();
        assert forall|i: int| 0 <= i < rest.len() implies graph.packages.contains_key(
            deps[#[trigger] rest[i]],
        ) by {
            assert(rest[i] == names[i]);
        }
        discovery_below_stays_inside(graph, rest, deps, chain, copies, levels);
        let before = discovered_below(graph.packages, rest, deps, chain, copies, levels)->0;
        assert(graph.packages.contains_key(deps[names[names.len() - 1]]));
        discovery_stays_inside(graph, deps[names.last()], chain, before, levels);
    }
}

proof fn discovery_of_roots_stays_inside(graph: GraphModel, paths: Seq<Seq<char>>, levels: nat)
    requires
        is_finite(graph),
        edges_end_inside(graph),
        forall|i: int| 0 <= i < paths.len() ==> graph.importers.contains_key(#[trigger] paths[i]),
        discovered_roots(graph, paths, levels) is Some,
    ensures
        all_inside(graph.packages, discovered_roots(graph, paths, levels)->0),
    decreases paths.len(),
{
    if paths.len() > 0 {
        let rest = paths.drop_last();
        assert forall|i: int| 0 <= i < rest.len() implies graph.importers.contains_key(
            #[trigger] rest[i],
        ) by {
            assert(rest[i] == paths[i]);
        }
        discovery_of_roots_stays_inside(graph, rest, levels);
        let path = paths[paths.len() - 1];
        assert(graph.importers.contains_key(path));
        let frame = provided_by(graph.importers[path]);
        assert(frame.dom().subset_of(graph.importers[path].dom()));
        vstd::set_lib::lemma_set_subset_finite(graph.importers[path].dom(), frame.dom());
        let names = in_order::<String>(frame.dom());
        in_order_lists::<String>(frame.dom());
        assert forall|i: int| 0 <= i < names.len() implies graph.packages.contains_key(
            frame[#[trigger] names[i]],
        ) by {
            assert(names.to_set().contains(names[i]));
            assert(graph.importers[path].contains_key(names[i]));
        }
        discovery_below_stays_inside(
            graph,
            names,
            frame,
            seq![frame],
            discovered_roots(graph, rest, levels)->0,
            levels,
        );
    }
}

/// Is every copy named after the package it is a copy of?
spec fn named_after(names: Names) -> bool {
    forall|x: InstanceModel| #[trigger]
        names.contains_key(x) ==> names[x].name == x.package.name && names[x].version
            == x.package.version
}

proof fn naming_is_faithful(
    copies: Copies,
    instance: InstanceModel,
    names: Names,
    open: Set<InstanceModel>,
)
    requires
        open.finite(),
        named_after(names),
    ensures
        named_after(identified::<Instance>(copies, instance, names, open).1),
    decreases open.len(), 0nat,
{
    if !names.contains_key(instance) && open.contains(instance) {
        let copy = copies[instance];
        let rest = open.remove(instance);
        let own_keys = in_order::<String>(copy.own.dom());
        let dep_keys = in_order::<String>(copy.dependencies.dom());
        naming_all_is_faithful(copies, own_keys, copy.own, true, names, rest);
        let middle = all_identified::<Instance>(copies, own_keys, copy.own, true, names, rest).1;
        naming_all_is_faithful(copies, dep_keys, copy.dependencies, false, middle, rest);
    }
}

proof fn naming_all_is_faithful(
    copies: Copies,
    keys: Seq<Seq<char>>,
    targets: Map<Seq<char>, InstanceModel>,
    cut: bool,
    names: Names,
    open: Set<InstanceModel>,
)
    requires
        open.finite(),
        named_after(names),
    ensures
        named_after(all_identified::<Instance>(copies, keys, targets, cut, names, open).1),
    decreases open.len(), keys.len(),
{
    if keys.len() > 0 {
        naming_all_is_faithful(copies, keys.drop_last(), targets, cut, names, open);
        let middle = all_identified::<Instance>(copies, keys.drop_last(), targets, cut, names, open).1;
        naming_is_faithful(copies, targets[keys.last()], middle, open);
    }
}

proof fn naming_roots_is_faithful(graph: GraphModel, copies: Copies, paths: Seq<Seq<char>>)
    requires
        copies.dom().finite(),
    ensures
        named_after(named_roots(graph, copies, paths)),
    decreases paths.len(),
{
    if paths.len() > 0 {
        naming_roots_is_faithful(graph, copies, paths.drop_last());
        let targets = copies_for(graph, paths.last());
        naming_all_is_faithful(
            copies,
            in_order::<String>(targets.dom()),
            targets,
            false,
            named_roots(graph, copies, paths.drop_last()),
            copies.dom(),
        );
    }
}

/// Is this the copy that a written node was written from?
spec fn written_from(
    source: Map<IdModel, PackageModel>,
    copies: Copies,
    names: Names,
    node: PackageModel,
    x: InstanceModel,
) -> bool {
    &&& copies.contains_key(x)
    &&& names.contains_key(x)
    &&& source.contains_key(x.package)
    &&& node == emitted_package(source[x.package], copies[x], names, names[x])
}

proof fn emission_is_faithful(
    source: Map<IdModel, PackageModel>,
    copies: Copies,
    names: Names,
    order: Seq<InstanceModel>,
)
    requires
        forall|i: int| 0 <= i < order.len() ==> copies.contains_key(#[trigger] order[i]),
    ensures
        forall|id: IdModel| #[trigger]
            emitted(source, copies, names, order).contains_key(id) ==> exists|x: InstanceModel|
                #[trigger] written_from(
                    source,
                    copies,
                    names,
                    emitted(source, copies, names, order)[id],
                    x,
                ) && names[x] == id,
        forall|i: int|
            0 <= i < order.len() && names.contains_key(#[trigger] order[i]) && source.contains_key(
                order[i].package,
            ) ==> emitted(source, copies, names, order).contains_key(names[order[i]]),
    decreases order.len(),
{
    if order.len() > 0 {
        let rest = order.drop_last();
        assert forall|i: int| 0 <= i < rest.len() implies copies.contains_key(
            #[trigger] rest[i],
        ) by {
            assert(rest[i] == order[i]);
        }
        emission_is_faithful(source, copies, names, rest);
        let before = emitted(source, copies, names, rest);
        let after = emitted(source, copies, names, order);
        let last = order[order.len() - 1];
        assert(copies.contains_key(last));
        assert forall|id: IdModel| #[trigger] after.contains_key(id) implies exists|
            x: InstanceModel,
        | #[trigger]
            written_from(source, copies, names, after[id], x) && names[x] == id by {
            if names.contains_key(last) && source.contains_key(last.package) && names[last] == id {
                assert(written_from(source, copies, names, after[id], last));
            } else {
                assert(before.contains_key(id));
                let x = choose|x: InstanceModel| #[trigger]
                    written_from(source, copies, names, before[id], x) && names[x] == id;
                assert(written_from(source, copies, names, after[id], x));
            }
        }
        assert forall|i: int|
            0 <= i < order.len() && names.contains_key(#[trigger] order[i]) && source.contains_key(
                order[i].package,
            ) implies after.contains_key(names[order[i]]) by {
            if i < rest.len() {
                assert(rest[i] == order[i]);
                assert(before.contains_key(names[rest[i]]));
            }
        }
    }
}

/// The copies that a graph's packages come to.
pub open spec fn copies_in_graph(graph: GraphModel, levels: nat) -> Copies {
    discovered_roots(graph, in_order::<ImporterPath>(graph.importers.dom()), levels)->0
}

/// The names that a graph's copies are given.
pub open spec fn names_in_graph(graph: GraphModel, levels: nat) -> Names {
    named_roots(
        graph,
        copies_in_graph(graph, levels),
        in_order::<ImporterPath>(graph.importers.dom()),
    )
}

/// Are the copies of a graph kept apart: does no name go to two of them?
pub open spec fn are_apart(names: Names) -> bool {
    forall|x: InstanceModel, y: InstanceModel| #[trigger]
        names.contains_key(x) && #[trigger] names.contains_key(y) && names[x] == names[y] ==> x == y
}

/// Do copies of one name become the same package?
pub open spec fn are_alike(graph: GraphModel, levels: nat) -> bool {
    let copies = copies_in_graph(graph, levels);
    let names = names_in_graph(graph, levels);
    forall|x: InstanceModel, y: InstanceModel| #[trigger]
        names.contains_key(x) && #[trigger] names.contains_key(y) && names[x] == names[y]
            ==> emitted_package(graph.packages[x.package], copies[x], names, names[x])
            == emitted_package(graph.packages[y.package], copies[y], names, names[y])
}

/// What the named copies of a graph are: each of a package of the graph and
/// named after it, with all that it mentions named too.
pub proof fn named_copies_are_known(graph: GraphModel, levels: nat)
    requires
        is_finite(graph),
        edges_end_inside(graph),
        peers_resolved(graph, levels) is Some,
    ensures
        ({
            let copies = copies_in_graph(graph, levels);
            let names = names_in_graph(graph, levels);
            let resolved = peers_resolved(graph, levels)->0;
            &&& copies.dom().finite()
            &&& copies_closed(copies)
            &&& names.dom().subset_of(copies.dom())
            &&& forall|x: InstanceModel| #[trigger]
                copies.contains_key(x) ==> {
                    &&& graph.packages.contains_key(x.package)
                    &&& copies[x].own.dom().finite()
                    &&& copies[x].dependencies.dom().finite()
                    &&& copies[x].dependencies.dom()
                        == graph.packages[x.package].dependencies.dom()
                }
            &&& forall|x: InstanceModel, name: Seq<char>|
                copies.contains_key(x) && #[trigger] copies[x].dependencies.contains_key(name)
                    ==> copies[x].dependencies[name].package
                    == graph.packages[x.package].dependencies[name]
            &&& forall|x: InstanceModel| #[trigger]
                names.contains_key(x) ==> {
                    &&& names[x].name == x.package.name
                    &&& names[x].version == x.package.version
                    &&& resolved.packages.contains_key(names[x])
                }
            &&& forall|x: InstanceModel, name: Seq<char>|
                names.contains_key(x) && #[trigger] copies[x].own.contains_key(name)
                    ==> names.contains_key(copies[x].own[name])
            &&& forall|x: InstanceModel, name: Seq<char>|
                names.contains_key(x) && #[trigger] copies[x].dependencies.contains_key(name)
                    ==> names.contains_key(copies[x].dependencies[name])
            &&& forall|path: Seq<char>, name: Seq<char>|
                graph.importers.contains_key(path) && #[trigger] copies_for(
                    graph,
                    path,
                ).contains_key(name) ==> copies.contains_key(copies_for(graph, path)[name])
                    && names.contains_key(copies_for(graph, path)[name])
            &&& forall|id: IdModel| #[trigger]
                resolved.packages.contains_key(id) ==> exists|x: InstanceModel| #[trigger]
                    names.contains_key(x) && names[x] == id && resolved.packages[id]
                        == emitted_package(graph.packages[x.package], copies[x], names, id)
        }),
{
    let paths = in_order::<ImporterPath>(graph.importers.dom());
    in_order_lists::<ImporterPath>(graph.importers.dom());
    assert forall|i: int| 0 <= i < paths.len() implies graph.importers.contains_key(
        #[trigger] paths[i],
    ) by {
        assert(paths.to_set().contains(paths[i]));
    }
    let copies = copies_in_graph(graph, levels);
    let names = names_in_graph(graph, levels);
    let resolved = peers_resolved(graph, levels)->0;
    found_copies_are_closed(graph, paths, levels);
    discovery_of_roots_mirrors(graph, paths, levels);
    discovery_of_roots_is_full(graph, paths, levels);
    discovery_of_roots_stays_inside(graph, paths, levels);
    assert forall|i: int| 0 <= i < paths.len() implies copies_for(
        graph,
        #[trigger] paths[i],
    ).dom().finite() by {
        assert(graph.importers.contains_key(paths[i]));
        let targets = copies_for(graph, paths[i]);
        assert(targets.dom().subset_of(graph.importers[paths[i]].dom()));
        vstd::set_lib::lemma_set_subset_finite(graph.importers[paths[i]].dom(), targets.dom());
    }
    assert forall|x: InstanceModel| #[trigger] copies.contains_key(x) implies {
        &&& graph.packages.contains_key(x.package)
        &&& copies[x].own.dom().finite()
        &&& copies[x].dependencies.dom().finite()
        &&& copies[x].dependencies.dom() == graph.packages[x.package].dependencies.dom()
    } by {
        assert(mirrors(graph.packages, x, copies[x]));
    }
    assert forall|x: InstanceModel, name: Seq<char>|
        copies.contains_key(x) && #[trigger] copies[x].dependencies.contains_key(name) implies
        copies[x].dependencies[name].package == graph.packages[x.package].dependencies[name] by {
        assert(mirrors(graph.packages, x, copies[x]));
    }
    assert(all_finite(copies));
    naming_roots_holds(graph, copies, paths);
    naming_roots_is_faithful(graph, copies, paths);
    let order = in_order::<Instance>(copies.dom());
    in_order_lists::<Instance>(copies.dom());
    assert forall|i: int| 0 <= i < order.len() implies copies.contains_key(#[trigger] order[i]) by {
        assert(order.to_set().contains(order[i]));
    }
    emission_is_faithful(graph.packages, copies, names, order);
    assert forall|x: InstanceModel| #[trigger] names.contains_key(x) implies {
        &&& names[x].name == x.package.name
        &&& names[x].version == x.package.version
        &&& resolved.packages.contains_key(names[x])
    } by {
        assert(names.dom().contains(x));
        assert(copies.dom().contains(x));
        assert(copies.contains_key(x));
        assert(order.to_set().contains(x));
        let i = order.index_of(x);
        assert(names.contains_key(order[i]));
    }
    assert forall|x: InstanceModel, name: Seq<char>|
        names.contains_key(x) && #[trigger] copies[x].own.contains_key(
            name,
        ) implies names.contains_key(copies[x].own[name]) by {
        assert(copies.dom().contains(x));
        assert(copies.contains_key(copies[x].own[name]));
    }
    assert forall|x: InstanceModel, name: Seq<char>|
        names.contains_key(x) && #[trigger] copies[x].dependencies.contains_key(
            name,
        ) implies names.contains_key(copies[x].dependencies[name]) by {
        assert(copies.dom().contains(x));
        assert(copies.contains_key(copies[x].dependencies[name]));
    }
    assert forall|path: Seq<char>, name: Seq<char>|
        graph.importers.contains_key(path) && #[trigger] copies_for(graph, path).contains_key(
            name,
        ) implies copies.contains_key(copies_for(graph, path)[name]) && names.contains_key(
        copies_for(graph, path)[name],
    ) by {
        assert(paths.to_set().contains(path));
        let i = paths.index_of(path);
        assert(copies_for(graph, paths[i]).contains_key(name));
    }
    assert forall|id: IdModel| #[trigger] resolved.packages.contains_key(id) implies exists|
        x: InstanceModel,
    | #[trigger]
        names.contains_key(x) && names[x] == id && resolved.packages[id] == emitted_package(
            graph.packages[x.package],
            copies[x],
            names,
            id,
        ) by {
        let x = choose|x: InstanceModel| #[trigger]
            written_from(graph.packages, copies, names, resolved.packages[id], x) && names[x] == id;
        assert(names.contains_key(x));
    }
}

/// Where copies of one name are alike, each is the one that its name was
/// written from.
pub proof fn named_copies_are_written(graph: GraphModel, levels: nat)
    requires
        is_finite(graph),
        edges_end_inside(graph),
        peers_resolved(graph, levels) is Some,
        are_alike(graph, levels),
    ensures
        ({
            let copies = copies_in_graph(graph, levels);
            let names = names_in_graph(graph, levels);
            let resolved = peers_resolved(graph, levels)->0;
            &&& copies.dom().finite()
            &&& names.dom().subset_of(copies.dom())
            &&& forall|x: InstanceModel| #[trigger]
                names.contains_key(x) ==> {
                    &&& graph.packages.contains_key(x.package)
                    &&& names[x].name == x.package.name
                    &&& names[x].version == x.package.version
                    &&& copies[x].own.dom().finite()
                    &&& copies[x].dependencies.dom().finite()
                    &&& resolved.packages.contains_key(names[x])
                    &&& resolved.packages[names[x]] == emitted_package(
                        graph.packages[x.package],
                        copies[x],
                        names,
                        names[x],
                    )
                }
            &&& forall|x: InstanceModel, name: Seq<char>|
                names.contains_key(x) && #[trigger] copies[x].own.contains_key(name)
                    ==> names.contains_key(copies[x].own[name])
            &&& forall|x: InstanceModel, name: Seq<char>|
                names.contains_key(x) && #[trigger] copies[x].dependencies.contains_key(name)
                    ==> names.contains_key(copies[x].dependencies[name])
            &&& forall|path: Seq<char>, name: Seq<char>|
                graph.importers.contains_key(path) && #[trigger] copies_for(
                    graph,
                    path,
                ).contains_key(name) ==> names.contains_key(copies_for(graph, path)[name])
            &&& forall|id: IdModel| #[trigger]
                resolved.packages.contains_key(id) ==> exists|x: InstanceModel| #[trigger]
                    names.contains_key(x) && names[x] == id
        }),
{
    let copies = copies_in_graph(graph, levels);
    let names = names_in_graph(graph, levels);
    let resolved = peers_resolved(graph, levels)->0;
    named_copies_are_known(graph, levels);
    assert forall|x: InstanceModel| #[trigger] names.contains_key(x) implies {
        &&& graph.packages.contains_key(x.package)
        &&& copies[x].own.dom().finite()
        &&& copies[x].dependencies.dom().finite()
        &&& resolved.packages[names[x]] == emitted_package(
            graph.packages[x.package],
            copies[x],
            names,
            names[x],
        )
    } by {
        assert(names.dom().contains(x));
        assert(copies.dom().contains(x));
        assert(copies.contains_key(x));
        assert(resolved.packages.contains_key(names[x]));
        let y = choose|y: InstanceModel| #[trigger]
            names.contains_key(y) && names[y] == names[x] && resolved.packages[names[x]]
                == emitted_package(graph.packages[y.package], copies[y], names, names[x]);
        assert(names.contains_key(y));
    }
}

/// Does a package carry what a published one declared, under the same name
/// and version, with only its edges and its peers resolved anew?
pub open spec fn carries(package: PackageModel, published: PackageModel, id: IdModel) -> bool {
    &&& package.id.name == id.name
    &&& package.id.version == id.version
    &&& package == (PackageModel {
        id: package.id,
        dependencies: package.dependencies,
        peers: package.peers,
        ..published
    })
}

/// Are two runs of edges alike: under the same names, to the same packages at
/// the same versions?
pub open spec fn same_edges(a: Map<Seq<char>, IdModel>, b: Map<Seq<char>, IdModel>) -> bool {
    &&& a.dom() == b.dom()
    &&& forall|name: Seq<char>| #[trigger]
        a.contains_key(name) ==> a[name].name == b[name].name && a[name].version == b[name].version
}

/// Resolving peers leaves a graph whose edges all end at packages it holds,
/// the edges to peers included. Each package in it is a copy of one that was
/// resolved, keeps every edge of it, each leading to a copy of what it led to,
/// and has each of its recorded peers answered by a version that the range it
/// declared admits.
pub proof fn peer_resolution_keeps_graphs_whole(graph: GraphModel, levels: nat)
    requires
        is_finite(graph),
        edges_end_inside(graph),
        peers_resolved(graph, levels) is Some,
    ensures
        ({
            let resolved = peers_resolved(graph, levels)->0;
            &&& edges_end_inside(resolved)
            &&& forall|id: IdModel| #[trigger]
                resolved.packages.contains_key(id) ==> resolved.packages[id].id == id
            &&& forall|id: IdModel| #[trigger]
                resolved.packages.contains_key(id) ==> exists|from: IdModel| #[trigger]
                    graph.packages.contains_key(from) && carries(
                        resolved.packages[id],
                        graph.packages[from],
                        from,
                    ) && same_edges(
                        resolved.packages[id].dependencies,
                        graph.packages[from].dependencies,
                    )
            &&& forall|id: IdModel, name: Seq<char>|
                resolved.packages.contains_key(id)
                    && #[trigger] resolved.packages[id].peers.contains_key(name) ==> {
                    let package = resolved.packages[id];
                    &&& resolved.packages.contains_key(package.peers[name])
                    &&& package.declared_peers.contains_key(name)
                    &&& range_admits(
                        package.declared_peers[name].range,
                        package.peers[name].version,
                    )
                }
        }),
{
    let paths = in_order::<ImporterPath>(graph.importers.dom());
    in_order_lists::<ImporterPath>(graph.importers.dom());
    assert forall|i: int| 0 <= i < paths.len() implies graph.importers.contains_key(
        #[trigger] paths[i],
    ) by {
        assert(paths.to_set().contains(paths[i]));
    }
    let copies = discovered_roots(graph, paths, levels)->0;
    found_copies_are_closed(graph, paths, levels);
    discovery_of_roots_mirrors(graph, paths, levels);
    discovery_of_roots_is_full(graph, paths, levels);
    let names = named_roots(graph, copies, paths);
    assert forall|i: int| 0 <= i < paths.len() implies copies_for(
        graph,
        #[trigger] paths[i],
    ).dom().finite() by {
        assert(graph.importers.contains_key(paths[i]));
        let targets = copies_for(graph, paths[i]);
        assert(targets.dom().subset_of(graph.importers[paths[i]].dom()));
        vstd::set_lib::lemma_set_subset_finite(graph.importers[paths[i]].dom(), targets.dom());
    }
    assert(all_finite(copies)) by {
        assert forall|x: InstanceModel| #[trigger] copies.contains_key(x) implies
            copies[x].own.dom().finite() && copies[x].dependencies.dom().finite() by {
            assert(mirrors(graph.packages, x, copies[x]));
        }
    }
    naming_roots_holds(graph, copies, paths);
    naming_roots_is_faithful(graph, copies, paths);
    let order = in_order::<Instance>(copies.dom());
    in_order_lists::<Instance>(copies.dom());
    assert forall|i: int| 0 <= i < order.len() implies copies.contains_key(#[trigger] order[i]) by {
        assert(order.to_set().contains(order[i]));
    }
    emission_is_faithful(graph.packages, copies, names, order);
    let resolved = peers_resolved(graph, levels)->0;
    assert forall|x: InstanceModel|
        names.contains_key(x) && graph.packages.contains_key(
            x.package,
        ) implies #[trigger] resolved.packages.contains_key(names[x]) by {
        assert(copies.dom().contains(x));
        assert(order.to_set().contains(x));
        let i = order.index_of(x);
        assert(names.contains_key(order[i]));
    }
    assert forall|id: IdModel, name: Seq<char>|
        resolved.packages.contains_key(id)
            && #[trigger] resolved.packages[id].dependencies.contains_key(
            name,
        ) implies resolved.packages.contains_key(resolved.packages[id].dependencies[name]) by {
        let x = choose|x: InstanceModel| #[trigger]
            written_from(graph.packages, copies, names, resolved.packages[id], x) && names[x] == id;
        let to = copies[x].dependencies[name];
        assert(mirrors(graph.packages, x, copies[x]));
        assert(copies[x].dependencies.contains_key(name));
        assert(graph.packages[x.package].dependencies.contains_key(name));
        assert(resolved.packages.contains_key(names[to]));
    }
    assert forall|id: IdModel, name: Seq<char>|
        resolved.packages.contains_key(id) && #[trigger] resolved.packages[id].peers.contains_key(
            name,
        ) implies {
        let package = resolved.packages[id];
        &&& resolved.packages.contains_key(package.peers[name])
        &&& package.declared_peers.contains_key(name)
        &&& range_admits(package.declared_peers[name].range, package.peers[name].version)
    } by {
        let x = choose|x: InstanceModel| #[trigger]
            written_from(graph.packages, copies, names, resolved.packages[id], x) && names[x] == id;
        let to = copies[x].own[name];
        assert(mirrors(graph.packages, x, copies[x]));
        assert(copies[x].own.contains_key(name));
        assert(names.contains_key(to));
        assert(resolved.packages.contains_key(names[to]));
    }
    assert forall|id: IdModel| #[trigger] resolved.packages.contains_key(id) implies {
        &&& resolved.packages[id].id == id
        &&& exists|from: IdModel| #[trigger]
            graph.packages.contains_key(from) && carries(
                resolved.packages[id],
                graph.packages[from],
                from,
            ) && same_edges(
                resolved.packages[id].dependencies,
                graph.packages[from].dependencies,
            )
    } by {
        let x = choose|x: InstanceModel| #[trigger]
            written_from(graph.packages, copies, names, resolved.packages[id], x) && names[x] == id;
        assert(mirrors(graph.packages, x, copies[x]));
        assert(graph.packages.contains_key(x.package));
        let mine = resolved.packages[id].dependencies;
        let theirs = graph.packages[x.package].dependencies;
        assert forall|name: Seq<char>| theirs.contains_key(name) implies #[trigger] mine.contains_key(
            name,
        ) by {
            assert(copies[x].dependencies.dom().contains(name));
            assert(copies[x].dependencies.contains_key(name));
            assert(names.contains_key(copies[x].dependencies[name]));
        }
        assert forall|name: Seq<char>| #[trigger] mine.contains_key(name) implies
            theirs.contains_key(name) && mine[name].name == theirs[name].name
            && mine[name].version == theirs[name].version by {
            assert(copies[x].dependencies.contains_key(name));
        }
        assert(mine.dom() =~= theirs.dom());
    }
    assert forall|path: Seq<char>, name: Seq<char>|
        resolved.importers.contains_key(path) && #[trigger] resolved.importers[path].contains_key(
            name,
        ) && resolved.importers[path][name].resolution is Registry implies resolved.packages.contains_key(
    resolved.importers[path][name].resolution->Registry_0) by {
        assert(graph.importers[path].contains_key(name));
        assert(graph.importers[path][name].resolution is Registry);
        let targets = copies_for(graph, path);
        assert(targets.contains_key(name));
        assert(paths.to_set().contains(path));
        let i = paths.index_of(path);
        assert(copies_for(graph, paths[i]).contains_key(name));
        assert(copies.contains_key(targets[name]));
        assert(names.contains_key(targets[name]));
        let frame = provided_by(graph.importers[path]);
        copies_are_of(graph.packages, frame[name], seq![frame]);
        assert(resolved.packages.contains_key(names[targets[name]]));
    }
}

/// Resolving peers changes nothing of what the projects declared.
pub proof fn peer_resolution_keeps_declarations(graph: GraphModel, levels: nat, path: Seq<char>)
    requires
        graph.importers.contains_key(path),
        peers_resolved(graph, levels) is Some,
    ensures
        (peers_resolved(graph, levels)->0).importers.dom() == graph.importers.dom(),
        as_declared((peers_resolved(graph, levels)->0).importers[path]) == as_declared(
            graph.importers[path],
        ),
{
    let resolved = peers_resolved(graph, levels)->0;
    assert(resolved.importers.dom() =~= graph.importers.dom());
    assert(as_declared(resolved.importers[path]) =~= as_declared(graph.importers[path]));
}

/// Is this a complaint that some package of a graph gives cause for?
pub open spec fn has_cause(packages: Map<IdModel, PackageModel>, complaint: ComplaintModel) -> bool {
    exists|id: IdModel| #[trigger]
        packages.contains_key(id) && {
            let declared = packages[id].declared_peers[complaint.peer];
            &&& complaint.dependent == published_id(id)
            &&& packages[id].declared_peers.contains_key(complaint.peer)
            &&& complaint.range == declared.range
            &&& match complaint.found {
                None => !declared.optional,
                Some(version) => !range_admits(declared.range, version),
            }
        }
}

spec fn all_have_cause(packages: Map<IdModel, PackageModel>, complaints: Complaints) -> bool {
    forall|key: (IdModel, Seq<char>)| #[trigger]
        complaints.contains_key(key) ==> has_cause(packages, complaints[key])
}

proof fn complaining_has_cause(
    packages: Map<IdModel, PackageModel>,
    id: IdModel,
    chain: Chain,
    open: Set<IdModel>,
    complaints: Complaints,
    depth: nat,
)
    requires
        open.subset_of(packages.dom()),
        all_have_cause(packages, complaints),
    ensures
        all_have_cause(packages, complained(packages, id, chain, open, complaints, depth).1),
        complained(packages, id, chain, open, complaints, depth).0.subset_of(open),
    decreases depth, 0nat,
{
    if depth > 0 && open.contains(id) {
        let deps = packages[id].dependencies;
        let longer = chain.push(deps);
        let mine = own_complaints(id, packages[id], longer);
        let now = mine.union_prefer_right(complaints);
        assert forall|key: (IdModel, Seq<char>)| #[trigger] now.contains_key(key) implies has_cause(
            packages,
            now[key],
        ) by {
            if !complaints.contains_key(key) {
                assert(packages.contains_key(id));
                assert(mine.contains_key(key));
            }
        }
        complaining_below_has_cause(
            packages,
            in_order::<String>(deps.dom()),
            deps,
            longer,
            open.remove(id),
            now,
            (depth - 1) as nat,
        );
    }
}

proof fn complaining_below_has_cause(
    packages: Map<IdModel, PackageModel>,
    names: Seq<Seq<char>>,
    deps: Map<Seq<char>, IdModel>,
    chain: Chain,
    open: Set<IdModel>,
    complaints: Complaints,
    depth: nat,
)
    requires
        open.subset_of(packages.dom()),
        all_have_cause(packages, complaints),
    ensures
        all_have_cause(
            packages,
            complained_below(packages, names, deps, chain, open, complaints, depth).1,
        ),
        complained_below(packages, names, deps, chain, open, complaints, depth).0.subset_of(open),
    decreases depth, names.len(),
{
    if names.len() > 0 {
        let rest = names.drop_last();
        complaining_below_has_cause(packages, rest, deps, chain, open, complaints, depth);
        let (middle, before) = complained_below(
            packages,
            rest,
            deps,
            chain,
            open,
            complaints,
            depth,
        );
        complaining_has_cause(packages, deps[names.last()], chain, middle, before, depth);
    }
}

proof fn complaining_of_roots_has_cause(graph: GraphModel, paths: Seq<Seq<char>>)
    ensures
        all_have_cause(graph.packages, complained_roots(graph, paths).1),
        complained_roots(graph, paths).0.subset_of(graph.packages.dom()),
    decreases paths.len(),
{
    if paths.len() > 0 {
        let rest = paths.drop_last();
        complaining_of_roots_has_cause(graph, rest);
        let (open, complaints) = complained_roots(graph, rest);
        let frame = provided_by(graph.importers[paths.last()]);
        complaining_below_has_cause(
            graph.packages,
            in_order::<String>(frame.dom()),
            frame,
            seq![frame],
            open,
            complaints,
            graph.packages.dom().len(),
        );
    }
}

/// Every complaint has cause: a package in the graph declares the peer at that
/// range, and what was found is outside it, or nothing was and the peer is
/// not an optional one.
pub proof fn complaints_have_cause(graph: GraphModel, key: (IdModel, Seq<char>))
    requires
        complaints_of(graph).contains_key(key),
    ensures
        has_cause(graph.packages, complaints_of(graph)[key]),
{
    complaining_of_roots_has_cause(graph, in_order::<ImporterPath>(graph.importers.dom()));
}

/// Does no package of a graph declare a peer, or carry one?
pub open spec fn knows_no_peers(graph: GraphModel) -> bool {
    &&& forall|id: IdModel| #[trigger]
        graph.packages.contains_key(id) ==> id.context.len() == 0 && graph.packages[id].id == id
            && graph.packages[id].declared_peers == Map::<
            Seq<char>,
            crate::graph::PeerModel,
        >::empty() && graph.packages[id].peers == Map::<Seq<char>, IdModel>::empty()
}

spec fn plainly_named(names: Names) -> bool {
    forall|x: InstanceModel| #[trigger] names.contains_key(x) ==> names[x].context.len() == 0
}

proof fn plain_contexts_vanish(dependencies: Map<Seq<char>, IdModel>)
    requires
        forall|name: Seq<char>| #[trigger]
            dependencies.contains_key(name) ==> dependencies[name].context.len() == 0,
    ensures
        listing(context_from(Map::empty(), dependencies)) == Seq::<(Seq<char>, IdModel)>::empty(),
{
    let context = context_from(Map::empty(), dependencies);
    assert(context.dom() =~= Set::<Seq<char>>::empty());
    in_order_lists::<String>(context.dom());
    assert(listing(context) =~= Seq::<(Seq<char>, IdModel)>::empty());
}

spec fn peerless(copies: Copies) -> bool {
    forall|x: InstanceModel| #[trigger]
        copies.contains_key(x) ==> copies[x].own == Map::<Seq<char>, InstanceModel>::empty()
}

proof fn naming_stays_plain(
    copies: Copies,
    instance: InstanceModel,
    names: Names,
    open: Set<InstanceModel>,
)
    requires
        copies.dom().finite(),
        open.subset_of(copies.dom()),
        peerless(copies),
        plainly_named(names),
    ensures
        plainly_named(identified::<Instance>(copies, instance, names, open).1),
        identified::<Instance>(copies, instance, names, open).0 is Some ==> (identified::<Instance>(
            copies,
            instance,
            names,
            open,
        ).0->0).context.len() == 0,
    decreases open.len(), 0nat,
{
    vstd::set_lib::lemma_set_subset_finite(copies.dom(), open);
    if !names.contains_key(instance) && open.contains(instance) {
        let copy = copies[instance];
        assert(copies.contains_key(instance));
        let rest = open.remove(instance);
        let own_keys = in_order::<String>(copy.own.dom());
        assert(copy.own.dom() =~= Set::<Seq<char>>::empty());
        in_order_lists::<String>(copy.own.dom());
        let dep_keys = in_order::<String>(copy.dependencies.dom());
        let (own, middle) = all_identified::<Instance>(copies, own_keys, copy.own, true, names, rest);
        assert(own == Map::<Seq<char>, IdModel>::empty() && middle == names);
        naming_all_stays_plain(copies, dep_keys, copy.dependencies, middle, rest);
        let (dependencies, last) = all_identified::<Instance>(
            copies,
            dep_keys,
            copy.dependencies,
            false,
            middle,
            rest,
        );
        plain_contexts_vanish(dependencies);
    }
}

proof fn naming_all_stays_plain(
    copies: Copies,
    keys: Seq<Seq<char>>,
    targets: Map<Seq<char>, InstanceModel>,
    names: Names,
    open: Set<InstanceModel>,
)
    requires
        copies.dom().finite(),
        open.subset_of(copies.dom()),
        peerless(copies),
        plainly_named(names),
    ensures
        plainly_named(all_identified::<Instance>(copies, keys, targets, false, names, open).1),
        forall|name: Seq<char>| #[trigger]
            all_identified::<Instance>(copies, keys, targets, false, names, open).0.contains_key(name)
                ==> all_identified::<Instance>(copies, keys, targets, false, names, open).0[name].context.len()
                == 0,
    decreases open.len(), keys.len(),
{
    vstd::set_lib::lemma_set_subset_finite(copies.dom(), open);
    if keys.len() > 0 {
        let rest = keys.drop_last();
        naming_all_stays_plain(copies, rest, targets, names, open);
        let middle = all_identified::<Instance>(copies, rest, targets, false, names, open).1;
        naming_stays_plain(copies, targets[keys.last()], middle, open);
    }
}

proof fn naming_roots_stays_plain(graph: GraphModel, copies: Copies, paths: Seq<Seq<char>>)
    requires
        copies.dom().finite(),
        peerless(copies),
    ensures
        plainly_named(named_roots(graph, copies, paths)),
    decreases paths.len(),
{
    if paths.len() > 0 {
        let rest = paths.drop_last();
        naming_roots_stays_plain(graph, copies, rest);
        let targets = copies_for(graph, paths.last());
        naming_all_stays_plain(
            copies,
            in_order::<String>(targets.dom()),
            targets,
            named_roots(graph, copies, rest),
            copies.dom(),
        );
    }
}

proof fn roots_are_written(graph: GraphModel, levels: nat, id: IdModel)
    requires
        is_finite(graph),
        edges_end_inside(graph),
        knows_no_peers(graph),
        peers_resolved(graph, levels) is Some,
        is_root(graph.importers, id),
        (peers_resolved(graph, levels)->0).importers == graph.importers,
    ensures
        (peers_resolved(graph, levels)->0).packages.contains_key(id),
{
    peer_resolution_keeps_graphs_whole(graph, levels);
    let (path, name) = choose|path: Seq<char>, name: Seq<char>|
        graph.importers.contains_key(path) && #[trigger] graph.importers[path].contains_key(name)
            && graph.importers[path][name].resolution == ResolutionModel::Registry(id);
    assert(graph.importers[path].contains_key(name));
}

/// Where no package declares a peer, resolving peers changes nothing: the
/// projects keep their dependencies, every package that is reached is still
/// there, and every package that is there is as it was.
pub proof fn peers_are_invisible_to_what_has_none(graph: GraphModel, levels: nat, id: IdModel)
    requires
        is_finite(graph),
        edges_end_inside(graph),
        knows_no_peers(graph),
        peers_resolved(graph, levels) is Some,
    ensures
        (peers_resolved(graph, levels)->0).importers == graph.importers,
        (peers_resolved(graph, levels)->0).packages.contains_key(id)
            ==> graph.packages.contains_key(id) && (peers_resolved(graph, levels)->0).packages[id]
            == graph.packages[id],
        reached(graph.importers, every_edge(graph.packages), id) ==> (peers_resolved(
            graph,
            levels,
        )->0).packages.contains_key(id),
{
    let paths = in_order::<ImporterPath>(graph.importers.dom());
    in_order_lists::<ImporterPath>(graph.importers.dom());
    assert forall|i: int| 0 <= i < paths.len() implies graph.importers.contains_key(
        #[trigger] paths[i],
    ) by {
        assert(paths.to_set().contains(paths[i]));
    }
    let copies = discovered_roots(graph, paths, levels)->0;
    let names = named_roots(graph, copies, paths);
    let resolved = peers_resolved(graph, levels)->0;
    found_copies_are_closed(graph, paths, levels);
    discovery_of_roots_mirrors(graph, paths, levels);
    discovery_of_roots_is_full(graph, paths, levels);
    assert(peerless(copies)) by {
        assert forall|x: InstanceModel| #[trigger] copies.contains_key(x) implies copies[x].own
            == Map::<Seq<char>, InstanceModel>::empty() by {
            assert(mirrors(graph.packages, x, copies[x]));
            assert(copies[x].own =~= Map::<Seq<char>, InstanceModel>::empty()) by {
                assert forall|name: Seq<char>| !copies[x].own.contains_key(name) by {
                    if copies[x].own.contains_key(name) {
                        assert(graph.packages.contains_key(x.package));
                    }
                }
            }
        }
    }
    naming_roots_stays_plain(graph, copies, paths);
    naming_roots_is_faithful(graph, copies, paths);
    peer_resolution_keeps_graphs_whole(graph, levels);
    assert forall|x: InstanceModel| #[trigger]
        names.contains_key(x) && graph.packages.contains_key(x.package) implies names[x]
        == x.package by {
        assert(names[x].context =~= x.package.context);
    }
    assert(resolved.importers =~= graph.importers) by {
        assert forall|path: Seq<char>| #[trigger] graph.importers.contains_key(
            path,
        ) implies resolved.importers[path] == graph.importers[path] by {
            let frame = provided_by(graph.importers[path]);
            let targets = copies_for(graph, path);
            assert(resolved.importers[path] =~= graph.importers[path]) by {
                assert forall|name: Seq<char>| #[trigger] graph.importers[path].contains_key(
                    name,
                ) implies resolved.importers[path][name] == graph.importers[path][name] by {
                    if targets.contains_key(name) && names.contains_key(targets[name]) {
                        copies_are_of(graph.packages, frame[name], seq![frame]);
                        assert(graph.packages.contains_key(frame[name]));
                        assert(names[targets[name]] == frame[name]);
                    }
                }
            }
        }
    }
    let order = in_order::<Instance>(copies.dom());
    in_order_lists::<Instance>(copies.dom());
    assert forall|i: int| 0 <= i < order.len() implies copies.contains_key(#[trigger] order[i]) by {
        assert(order.to_set().contains(order[i]));
    }
    emission_is_faithful(graph.packages, copies, names, order);
    assert forall|p: IdModel| #[trigger] resolved.packages.contains_key(p) implies
        graph.packages.contains_key(p) && resolved.packages[p] == graph.packages[p] by {
        let x = choose|x: InstanceModel| #[trigger]
            written_from(graph.packages, copies, names, resolved.packages[p], x) && names[x] == p;
        assert(names[x] == x.package);
        assert(mirrors(graph.packages, x, copies[x]));
        let from = choose|from: IdModel| #[trigger]
            graph.packages.contains_key(from) && carries(
                resolved.packages[p],
                graph.packages[from],
                from,
            ) && same_edges(resolved.packages[p].dependencies, graph.packages[from].dependencies);
        assert(from.context =~= p.context);
        assert(from == p);
        let mine = resolved.packages[p].dependencies;
        let theirs = graph.packages[p].dependencies;
        assert(mine =~= theirs) by {
            assert forall|name: Seq<char>| #[trigger] mine.contains_key(name) implies mine[name]
                == theirs[name] by {
                assert(copies[x].dependencies.contains_key(name));
                let to = copies[x].dependencies[name];
                assert(graph.packages[p].dependencies.contains_key(name));
                assert(names[to] == to.package);
            }
        }
        assert(resolved.packages[p].peers =~= graph.packages[p].peers);
    }
    if reached(graph.importers, every_edge(graph.packages), id) {
        let edge = every_edge(graph.packages);
        let route = choose|route: Seq<IdModel>|
            is_route(graph.importers, edge, route) && route.last() == id;
        routes_are_written(graph, levels, route, route.len() - 1);
    }
}

proof fn routes_are_written(graph: GraphModel, levels: nat, route: Seq<IdModel>, i: int)
    requires
        is_finite(graph),
        edges_end_inside(graph),
        knows_no_peers(graph),
        peers_resolved(graph, levels) is Some,
        (peers_resolved(graph, levels)->0).importers == graph.importers,
        forall|p: IdModel| #[trigger]
            (peers_resolved(graph, levels)->0).packages.contains_key(p)
                ==> graph.packages.contains_key(p) && (peers_resolved(
                graph,
                levels,
            )->0).packages[p] == graph.packages[p],
        is_route(graph.importers, every_edge(graph.packages), route),
        0 <= i < route.len(),
    ensures
        (peers_resolved(graph, levels)->0).packages.contains_key(route[i]),
    decreases i,
{
    let resolved = peers_resolved(graph, levels)->0;
    if i == 0 {
        roots_are_written(graph, levels, route[0]);
    } else {
        routes_are_written(graph, levels, route, i - 1);
        peer_resolution_keeps_graphs_whole(graph, levels);
        assert(every_edge(graph.packages)(route[i - 1], route[i - 1 + 1]));
        let name = choose|name: Seq<char>| #[trigger]
            graph.packages[route[i - 1]].dependencies.contains_key(name)
                && graph.packages[route[i - 1]].dependencies[name] == route[i];
        assert(resolved.packages[route[i - 1]].dependencies.contains_key(name));
    }
}

} // verus!
