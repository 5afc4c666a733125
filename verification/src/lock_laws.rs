//! What is written to a lockfile reads back as what was written.

use vstd::prelude::*;
use crate::graph::{
    DependencyModel, GraphModel, ImporterModel, Kind, PackageModel, ResolutionModel,
};
use crate::importer::{depth_of, is_importer, reading_is_idempotent};
use crate::lockfile::{
    copies_in, dependency_fault, edge_fault, edge_value_of, edges_read_back, entries_of,
    entry_fault, entry_of, every_key, first_fault, hash_reads_back, identity_fault, ids_below,
    loaded, loaded_importers, loaded_package, loaded_packages, loaded_section, lock_of,
    peer_fault, rebuilt_ids, root_keys, section_of, stays_inside, EntryModel, LockModel,
    LockfileFault, LINK_PREFIX,
};
use crate::naming::{
    all_identified, context_from, identified, named_id, naming_all_covers, NamesOf, Node,
};
use crate::package_id::{
    is_keyed_name, is_keyed_version, is_sound_key, keys_split_back, listing, plain_id, rendered,
    IdModel, PackageId,
};
use crate::sorted::{in_order, in_order_lists};
use crate::text::opens_with;

verus! {

/// How deep an identity nests.
pub open spec fn height(id: IdModel) -> nat
    decreases id,
{
    1 + context_height(id.context)
}

/// How deep a context nests.
pub open spec fn context_height(context: Seq<(Seq<char>, IdModel)>) -> nat
    decreases context,
{
    if context.len() == 0 {
        0
    } else {
        let before = context_height(context.drop_last());
        let last = height(context[context.len() - 1].1);
        if before >= last {
            before
        } else {
            last
        }
    }
}

proof fn entries_are_lower(context: Seq<(Seq<char>, IdModel)>, i: int)
    requires
        0 <= i < context.len(),
    ensures
        height(context[i].1) <= context_height(context),
    decreases context.len(),
{
    if i < context.len() - 1 {
        entries_are_lower(context.drop_last(), i);
    }
}

/// Is a package's context exactly what its peers and its dependencies make
/// it? A name that is both a peer and a dependency has to mean the same
/// package either way.
pub open spec fn is_settled(package: PackageModel) -> bool {
    &&& package.id.context == listing(context_from(package.peers, package.dependencies))
    &&& forall|name: Seq<char>| #[trigger]
        package.peers.contains_key(name) && package.dependencies.contains_key(name)
            ==> package.peers[name] == package.dependencies[name]
}

/// Is this a package that a lockfile can hold: recorded under its own
/// identity, with a name, a version and a hash of the usual shape, and with
/// every edge ending at a package of the graph?
pub open spec fn is_lockable(packages: Map<IdModel, PackageModel>, id: IdModel) -> bool {
    let package = packages[id];
    &&& package.id == id
    &&& is_keyed_name(id.name)
    &&& is_keyed_version(id.version)
    &&& package.integrity.digest.len() == package.integrity.algo.spec_digest_len()
    &&& package.dependencies.dom().finite()
    &&& package.peers.dom().finite()
    &&& forall|name: Seq<char>| #[trigger]
        package.dependencies.contains_key(name) ==> packages.contains_key(
            package.dependencies[name],
        )
    &&& forall|name: Seq<char>| #[trigger]
        package.peers.contains_key(name) ==> packages.contains_key(package.peers[name])
}

/// Is this a dependency that a lockfile can hold: a package of the graph, not
/// spelled like a link, or a link that stays inside the workspace?
pub open spec fn is_lockable_edge(
    packages: Map<IdModel, PackageModel>,
    path: Seq<char>,
    name: Seq<char>,
    dependency: DependencyModel,
) -> bool {
    match dependency.resolution {
        ResolutionModel::Registry(id) => packages.contains_key(id) && !opens_with(
            edge_value_of(name, id),
            LINK_PREFIX@,
        ),
        ResolutionModel::Local(target) => stays_inside(depth_of(path), target),
    }
}

/// Is this a graph that a lockfile can hold? No two of its packages may share
/// a key.
pub open spec fn is_storable(graph: GraphModel) -> bool {
    &&& graph.packages.dom().finite()
    &&& graph.importers.dom().finite()
    &&& forall|id: IdModel| #[trigger]
        graph.packages.contains_key(id) ==> is_lockable(graph.packages, id)
    &&& forall|a: IdModel, b: IdModel| #[trigger]
        graph.packages.contains_key(a) && #[trigger] graph.packages.contains_key(b) && rendered(a)
            == rendered(b) ==> a == b
    &&& forall|path: Seq<char>| #[trigger]
        graph.importers.contains_key(path) ==> is_importer(path)
            && graph.importers[path].dom().finite()
    &&& forall|path: Seq<char>, name: Seq<char>|
        graph.importers.contains_key(path) && #[trigger] graph.importers[path].contains_key(name)
            ==> is_lockable_edge(graph.packages, path, name, graph.importers[path][name])
}

/// Is this a graph that a lockfile can hold, in which every package is
/// settled?
pub open spec fn is_recordable(graph: GraphModel) -> bool {
    is_storable(graph) && all_settled(graph.packages)
}

/// Is every package settled?
pub open spec fn all_settled(packages: Map<IdModel, PackageModel>) -> bool {
    forall|id: IdModel| #[trigger] packages.contains_key(id) ==> is_settled(packages[id])
}

/// Do the keys and the hashes of a graph read back?
pub open spec fn reads_back(graph: GraphModel) -> bool {
    forall|id: IdModel| #[trigger]
        graph.packages.contains_key(id) ==> is_sound_key(id) && hash_reads_back(
            graph.packages[id].integrity,
        )
}

proof fn entries_are_known(
    packages: Map<IdModel, PackageModel>,
    ids: Seq<IdModel>,
)
    requires
        forall|i: int| 0 <= i < ids.len() ==> packages.contains_key(#[trigger] ids[i]),
        forall|id: IdModel| #[trigger] packages.contains_key(id) ==> packages[id].id == id,
        forall|a: IdModel, b: IdModel| #[trigger]
            packages.contains_key(a) && #[trigger] packages.contains_key(b) && rendered(a)
                == rendered(b) ==> a == b,
    ensures
        forall|i: int|
            0 <= i < ids.len() ==> entries_of(packages, ids).contains_key(
                rendered(#[trigger] ids[i]),
            ),
        forall|key: Seq<char>| #[trigger]
            entries_of(packages, ids).contains_key(key) ==> exists|id: IdModel| #[trigger]
                packages.contains_key(id) && rendered(id) == key && entries_of(packages, ids)[key]
                    == entry_of(packages[id]),
    decreases ids.len(),
{
    if ids.len() > 0 {
        let rest = ids.drop_last();
        assert forall|i: int| 0 <= i < rest.len() implies packages.contains_key(
            #[trigger] rest[i],
        ) by {
            assert(rest[i] == ids[i]);
        }
        entries_are_known(packages, rest);
        let before = entries_of(packages, rest);
        let after = entries_of(packages, ids);
        let last = ids[ids.len() - 1];
        assert(packages.contains_key(last));
        assert forall|i: int| 0 <= i < ids.len() implies after.contains_key(
            rendered(#[trigger] ids[i]),
        ) by {
            if i < rest.len() {
                assert(rest[i] == ids[i]);
                assert(before.contains_key(rendered(rest[i])));
            }
        }
        assert forall|key: Seq<char>| #[trigger] after.contains_key(key) implies exists|
            id: IdModel,
        | #[trigger]
            packages.contains_key(id) && rendered(id) == key && after[key] == entry_of(
                packages[id],
            ) by {
            if key == rendered(last) {
                assert(packages.contains_key(last));
            } else {
                assert(before.contains_key(key));
                let id = choose|id: IdModel| #[trigger]
                    packages.contains_key(id) && rendered(id) == key && before[key] == entry_of(
                        packages[id],
                    );
                assert(packages.contains_key(id));
            }
        }
    }
}

/// Does a map of entries hold one for each package, under its key, and
/// nothing else?
pub open spec fn records(packages: Map<IdModel, PackageModel>, entries: Map<Seq<char>, EntryModel>) -> bool {
    &&& entries.dom().finite()
    &&& forall|id: IdModel| #[trigger]
        packages.contains_key(id) ==> entries.contains_key(rendered(id)) && entries[rendered(id)]
            == entry_of(packages[id])
    &&& forall|key: Seq<char>| #[trigger]
        entries.contains_key(key) ==> exists|id: IdModel| #[trigger]
            packages.contains_key(id) && rendered(id) == key
}

proof fn entries_finite(packages: Map<IdModel, PackageModel>, ids: Seq<IdModel>)
    ensures
        entries_of(packages, ids).dom().finite(),
    decreases ids.len(),
{
    if ids.len() > 0 {
        entries_finite(packages, ids.drop_last());
    }
}

/// Packages that are held under their own identities, with no two of them
/// under one key, are each recorded.
pub proof fn packages_are_recorded(packages: Map<IdModel, PackageModel>)
    requires
        packages.dom().finite(),
        forall|id: IdModel| #[trigger] packages.contains_key(id) ==> packages[id].id == id,
        forall|a: IdModel, b: IdModel| #[trigger]
            packages.contains_key(a) && #[trigger] packages.contains_key(b) && rendered(a)
                == rendered(b) ==> a == b,
    ensures
        records(packages, entries_of(packages, in_order::<PackageId>(packages.dom()))),
{
    let ids = in_order::<PackageId>(packages.dom());
    in_order_lists::<PackageId>(packages.dom());
    assert forall|i: int| 0 <= i < ids.len() implies packages.contains_key(#[trigger] ids[i]) by {
        assert(ids.to_set().contains(ids[i]));
    }
    entries_are_known(packages, ids);
    entries_finite(packages, ids);
    let entries = entries_of(packages, ids);
    assert forall|id: IdModel| #[trigger] packages.contains_key(id) implies entries.contains_key(
        rendered(id),
    ) && entries[rendered(id)] == entry_of(packages[id]) by {
        assert(ids.to_set().contains(id));
        let k = ids.index_of(id);
        assert(entries.contains_key(rendered(ids[k])));
        let other = choose|other: IdModel| #[trigger]
            packages.contains_key(other) && rendered(other) == rendered(id)
                && entries[rendered(id)] == entry_of(packages[other]);
        assert(packages.contains_key(other));
        assert(other == id);
    }
}

proof fn graphs_are_recorded(graph: GraphModel)
    requires
        is_storable(graph),
    ensures
        records(graph.packages, lock_of(graph).packages),
{
    let packages = graph.packages;
    assert forall|id: IdModel| #[trigger] packages.contains_key(id) implies packages[id].id
        == id by {
        assert(is_lockable(packages, id));
    }
    packages_are_recorded(packages);
}

/// Does every name given so far give back the identity that its key was
/// written from?
spec fn right(packages: Map<IdModel, PackageModel>, names: NamesOf<Seq<char>>) -> bool {
    forall|key: Seq<char>| #[trigger]
        names.contains_key(key) ==> packages.contains_key(names[key]) && rendered(names[key])
            == key
}

/// What holds of the packages and entries while identities are rebuilt.
pub open spec fn setting(packages: Map<IdModel, PackageModel>, entries: Map<Seq<char>, EntryModel>) -> bool {
    &&& records(packages, entries)
    &&& forall|id: IdModel| #[trigger]
        packages.contains_key(id) ==> is_lockable(packages, id) && is_sound_key(id)
    &&& forall|a: IdModel, b: IdModel| #[trigger]
        packages.contains_key(a) && #[trigger] packages.contains_key(b) && rendered(a) == rendered(
            b,
        ) ==> a == b
}

/// Can a package be named now: has everything that is being named already a
/// deeper identity, unless the package has no context at all?
spec fn free(
    packages: Map<IdModel, PackageModel>,
    id: IdModel,
    names: NamesOf<Seq<char>>,
    open: Set<Seq<char>>,
) -> bool {
    id.context.len() > 0 ==> forall|s: IdModel| #[trigger]
        packages.contains_key(s) && !open.contains(rendered(s)) && !names.contains_key(rendered(s))
            ==> height(s) > height(id)
}

/// The entries of a package's context are its peers and those dependencies
/// that carry a context.
proof fn context_members(package: PackageModel, name: Seq<char>)
    requires
        is_settled(package),
        package.dependencies.dom().finite(),
        package.peers.dom().finite(),
    ensures
        package.peers.contains_key(name) ==> height(package.peers[name]) < height(package.id),
        package.dependencies.contains_key(name) && package.dependencies[name].context.len() > 0
            ==> height(package.dependencies[name]) < height(package.id),
        package.id.context.len() == 0 ==> !package.peers.contains_key(name) && (
        package.dependencies.contains_key(name) ==> package.dependencies[name].context.len() == 0),
{
    let context = context_from(package.peers, package.dependencies);
    let carrying = package.dependencies.restrict(
        Set::new(
            |n: Seq<char>|
                package.dependencies.contains_key(n) && package.dependencies[n].context.len() > 0,
        ),
    );
    assert(context.dom() =~= package.peers.dom().union(carrying.dom()));
    assert(carrying.dom().subset_of(package.dependencies.dom()));
    vstd::set_lib::lemma_set_subset_finite(package.dependencies.dom(), carrying.dom());
    in_order_lists::<String>(context.dom());
    let names = in_order::<String>(context.dom());
    if context.contains_key(name) {
        assert(names.to_set().contains(name));
        let i = names.index_of(name);
        assert(package.id.context[i] == (name, context[name]));
        entries_are_lower(package.id.context, i);
    }
}

/// What a recorded package resolved to is its own edges, by key.
pub proof fn copies_mirror(
    packages: Map<IdModel, PackageModel>,
    entries: Map<Seq<char>, EntryModel>,
    id: IdModel,
)
    requires
        setting(packages, entries),
        packages.contains_key(id),
    ensures
        copies_in(entries).contains_key(rendered(id)),
        copies_in(entries)[rendered(id)].own == packages[id].peers.map_values(
            |p: IdModel| rendered(p),
        ),
        copies_in(entries)[rendered(id)].dependencies == packages[id].dependencies.map_values(
            |p: IdModel| rendered(p),
        ),
        String::package_of(rendered(id)) == plain_id(id.name, id.version),
{
    let package = packages[id];
    let copy = copies_in(entries)[rendered(id)];
    assert(is_lockable(packages, id));
    keys_split_back(id);
    let goal = package.dependencies.map_values(|p: IdModel| rendered(p));
    assert(copy.dependencies =~= goal) by {
        assert forall|name: Seq<char>| #[trigger] package.dependencies.contains_key(
            name,
        ) implies copy.dependencies[name] == goal[name] by {
            let to = package.dependencies[name];
            assert(packages.contains_key(to));
            assert(is_lockable(packages, to));
            edges_read_back(name, to);
        }
    }
}

#[verifier::spinoff_prover]
proof fn identity_is_rebuilt(
    packages: Map<IdModel, PackageModel>,
    entries: Map<Seq<char>, EntryModel>,
    id: IdModel,
    names: NamesOf<Seq<char>>,
    open: Set<Seq<char>>,
)
    requires
        setting(packages, entries),
        all_settled(packages),
        packages.contains_key(id),
        right(packages, names),
        open.subset_of(entries.dom()),
        free(packages, id, names, open),
    ensures
        ({
            let (given, after) = identified::<String>(
                copies_in(entries),
                rendered(id),
                names,
                open,
            );
            &&& right(packages, after)
            &&& names.submap_of(after)
            &&& given is Some ==> given->0 == id
            &&& names.contains_key(rendered(id)) || open.contains(rendered(id)) ==> given is Some
        }),
    decreases open.len(), 0nat,
{
    vstd::set_lib::lemma_set_subset_finite(entries.dom(), open);
    let key = rendered(id);
    let copies = copies_in(entries);
    if names.contains_key(key) {
        assert(packages.contains_key(names[key]));
    } else if open.contains(key) {
        copies_mirror(packages, entries, id);
        assert(is_lockable(packages, id));
        let package = packages[id];
        let copy = copies[key];
        let rest = open.remove(key);
        let own_keys = in_order::<String>(copy.own.dom());
        let dep_keys = in_order::<String>(copy.dependencies.dom());
        assert(copy.own.dom() =~= package.peers.dom());
        assert(copy.dependencies.dom() =~= package.dependencies.dom());
        in_order_lists::<String>(copy.own.dom());
        in_order_lists::<String>(copy.dependencies.dom());
        assert forall|i: int| 0 <= i < own_keys.len() implies {
            &&& #[trigger] package.peers.contains_key(own_keys[i])
            &&& packages.contains_key(package.peers[own_keys[i]])
            &&& free(packages, package.peers[own_keys[i]], names, rest)
            &&& rest.contains(rendered(package.peers[own_keys[i]])) || names.contains_key(
                rendered(package.peers[own_keys[i]]),
            )
        } by {
            let name = own_keys[i];
            assert(own_keys.to_set().contains(name));
            assert(package.peers.contains_key(name));
            let p = package.peers[name];
            context_members(package, name);
            assert(id.context.len() > 0);
            assert(packages.contains_key(p));
            assert(entries.contains_key(rendered(p)));
            if !rest.contains(rendered(p)) && !names.contains_key(rendered(p)) {
                if rendered(p) == key {
                    assert(p == id);
                }
                assert(!open.contains(rendered(p)));
                assert(height(p) > height(id));
            }
        }
        assert forall|i: int| 0 <= i < dep_keys.len() implies {
            &&& #[trigger] package.dependencies.contains_key(dep_keys[i])
            &&& packages.contains_key(package.dependencies[dep_keys[i]])
            &&& free(packages, package.dependencies[dep_keys[i]], names, rest)
            &&& package.dependencies[dep_keys[i]].context.len() > 0 ==> rest.contains(
                rendered(package.dependencies[dep_keys[i]]),
            ) || names.contains_key(rendered(package.dependencies[dep_keys[i]]))
        } by {
            let name = dep_keys[i];
            assert(dep_keys.to_set().contains(name));
            assert(package.dependencies.contains_key(name));
            let d = package.dependencies[name];
            context_members(package, name);
            assert(packages.contains_key(d));
            assert(entries.contains_key(rendered(d)));
            if d.context.len() > 0 {
                assert(id.context.len() > 0);
                if !rest.contains(rendered(d)) && !names.contains_key(rendered(d)) {
                    if rendered(d) == key {
                        assert(d == id);
                    }
                    assert(!open.contains(rendered(d)));
                    assert(height(d) > height(id));
                }
            }
        }
        identities_are_rebuilt(packages, entries, own_keys, package.peers, true, names, rest);
        let (own, middle) = all_identified::<String>(
            copies,
            own_keys,
            copy.own,
            true,
            names,
            rest,
        );
        assert forall|i: int| 0 <= i < dep_keys.len() implies {
            &&& #[trigger] package.dependencies.contains_key(dep_keys[i])
            &&& packages.contains_key(package.dependencies[dep_keys[i]])
            &&& free(packages, package.dependencies[dep_keys[i]], middle, rest)
            &&& package.dependencies[dep_keys[i]].context.len() > 0 ==> rest.contains(
                rendered(package.dependencies[dep_keys[i]]),
            ) || middle.contains_key(rendered(package.dependencies[dep_keys[i]]))
        } by {
            let d = package.dependencies[dep_keys[i]];
            assert(package.dependencies.contains_key(dep_keys[i]));
            assert(free(packages, d, names, rest));
            if names.dom().contains(rendered(d)) {
                assert(middle.dom().contains(rendered(d)));
            }
        }
        identities_are_rebuilt(
            packages,
            entries,
            dep_keys,
            package.dependencies,
            false,
            middle,
            rest,
        );
        let (dependencies, last) = all_identified::<String>(
            copies,
            dep_keys,
            copy.dependencies,
            false,
            middle,
            rest,
        );
        assert(own =~= package.peers) by {
            assert forall|name: Seq<char>| package.peers.contains_key(name) implies #[trigger] own.contains_key(
                name,
            ) by {
                assert(own_keys.to_set().contains(name));
                let i = own_keys.index_of(name);
                assert(package.peers.contains_key(own_keys[i]));
                assert(own.contains_key(own_keys[i]));
            }
        }
        assert forall|name: Seq<char>|
            package.dependencies.contains_key(name) && package.dependencies[name].context.len()
                > 0 implies #[trigger] dependencies.contains_key(name) by {
            assert(dep_keys.to_set().contains(name));
            let i = dep_keys.index_of(name);
            assert(package.dependencies.contains_key(dep_keys[i]));
            assert(dependencies.contains_key(dep_keys[i]));
        }
        same_context(package.peers, dependencies, package.dependencies);
        let made = named_id(String::package_of(key), own, dependencies);
        assert(made == id);
        let after = identified::<String>(copies, key, names, open).1;
        assert(after == last.insert(key, made));
        assert(names.submap_of(middle));
        assert(middle.submap_of(last));
        kept_on_the_way(names, middle, last, key, made);
    }
}

/// What was there at first is there at the end.
proof fn kept_on_the_way(
    first: NamesOf<Seq<char>>,
    middle: NamesOf<Seq<char>>,
    last: NamesOf<Seq<char>>,
    key: Seq<char>,
    made: IdModel,
)
    requires
        first.submap_of(middle),
        middle.submap_of(last),
        !first.contains_key(key),
    ensures
        first.submap_of(last.insert(key, made)),
{
    let all = last.insert(key, made);
    assert forall|k: Seq<char>| #[trigger] first.contains_key(k) implies all.contains_key(k)
        && all[k] == first[k] by {
        assert(first.dom().contains(k));
        assert(middle.dom().contains(k));
        assert(last.dom().contains(k));
    }
}

/// Edges without a context of their own say nothing about a context.
proof fn same_context(
    own: Map<Seq<char>, IdModel>,
    some: Map<Seq<char>, IdModel>,
    all: Map<Seq<char>, IdModel>,
)
    requires
        forall|name: Seq<char>| #[trigger] some.contains_key(name) ==> all.contains_key(name)
            && some[name] == all[name],
        forall|name: Seq<char>|
            all.contains_key(name) && all[name].context.len() > 0
                ==> #[trigger] some.contains_key(name),
    ensures
        context_from(own, some) == context_from(own, all),
{
    assert(context_from(own, some) =~= context_from(own, all));
}

#[verifier::spinoff_prover]
proof fn identities_are_rebuilt(
    packages: Map<IdModel, PackageModel>,
    entries: Map<Seq<char>, EntryModel>,
    keys: Seq<Seq<char>>,
    edges: Map<Seq<char>, IdModel>,
    cut: bool,
    names: NamesOf<Seq<char>>,
    open: Set<Seq<char>>,
)
    requires
        setting(packages, entries),
        all_settled(packages),
        right(packages, names),
        open.subset_of(entries.dom()),
        forall|i: int|
            0 <= i < keys.len() ==> {
                &&& #[trigger] edges.contains_key(keys[i])
                &&& packages.contains_key(edges[keys[i]])
                &&& free(packages, edges[keys[i]], names, open)
                &&& cut || edges[keys[i]].context.len() > 0 ==> open.contains(
                    rendered(edges[keys[i]]),
                ) || names.contains_key(rendered(edges[keys[i]]))
            },
    ensures
        ({
            let (given, after) = all_identified::<String>(
                copies_in(entries),
                keys,
                edges.map_values(|p: IdModel| rendered(p)),
                cut,
                names,
                open,
            );
            &&& right(packages, after)
            &&& names.submap_of(after)
            &&& given.submap_of(edges)
            &&& forall|i: int|
                0 <= i < keys.len() && (cut || edges[keys[i]].context.len() > 0)
                    ==> #[trigger] given.contains_key(keys[i])
        }),
    decreases open.len(), keys.len(),
{
    vstd::set_lib::lemma_set_subset_finite(entries.dom(), open);
    let copies = copies_in(entries);
    let targets = edges.map_values(|p: IdModel| rendered(p));
    if keys.len() > 0 {
        let rest = keys.drop_last();
        assert forall|i: int| 0 <= i < rest.len() implies {
            &&& #[trigger] edges.contains_key(rest[i])
            &&& packages.contains_key(edges[rest[i]])
            &&& free(packages, edges[rest[i]], names, open)
            &&& cut || edges[rest[i]].context.len() > 0 ==> open.contains(
                rendered(edges[rest[i]]),
            ) || names.contains_key(rendered(edges[rest[i]]))
        } by {
            assert(edges.contains_key(keys[i]));
        }
        identities_are_rebuilt(packages, entries, rest, edges, cut, names, open);
        let (before, middle) = all_identified::<String>(copies, rest, targets, cut, names, open);
        let last = keys[keys.len() - 1];
        assert(edges.contains_key(last));
        let id = edges[last];
        assert(free(packages, id, middle, open)) by {
            assert(free(packages, id, names, open));
        }
        identity_is_rebuilt(packages, entries, id, middle, open);
        let (given, after) = all_identified::<String>(copies, keys, targets, cut, names, open);
        let (found, also) = identified::<String>(copies, rendered(id), middle, open);
        assert(also == after);
        assert(names.submap_of(after)) by {
            assert forall|k: Seq<char>| #[trigger] names.contains_key(k) implies after.contains_key(k)
                && after[k] == names[k] by {
                assert(middle.contains_key(k) && middle[k] == names[k]);
            }
        }
        assert(cut ==> found is Some);
        assert(given.submap_of(edges)) by {
            assert forall|k: Seq<char>| #[trigger] given.contains_key(k) implies edges.contains_key(k)
                && edges[k] == given[k] by {
                if before.contains_key(k) {
                    assert(edges.contains_key(k));
                }
            }
        }
        assert forall|i: int|
            0 <= i < keys.len() && (cut || edges[keys[i]].context.len()
                > 0) implies #[trigger] given.contains_key(keys[i]) by {
            if i < rest.len() {
                assert(rest[i] == keys[i]);
                assert(before.contains_key(rest[i]));
            } else {
                assert(names.contains_key(rendered(id)) ==> middle.contains_key(rendered(id)));
            }
        }
    }
}

/// The package that a recorded key was written from.
spec fn origin(packages: Map<IdModel, PackageModel>, key: Seq<char>) -> IdModel {
    choose|id: IdModel| #[trigger] packages.contains_key(id) && rendered(id) == key
}

proof fn recorded_keys_are_rebuilt(
    packages: Map<IdModel, PackageModel>,
    entries: Map<Seq<char>, EntryModel>,
    targets: Map<Seq<char>, Seq<char>>,
    names: NamesOf<Seq<char>>,
)
    requires
        setting(packages, entries),
        all_settled(packages),
        right(packages, names),
        targets.dom().finite(),
        forall|name: Seq<char>| #[trigger]
            targets.contains_key(name) ==> entries.contains_key(targets[name]),
    ensures
        right(
            packages,
            all_identified::<String>(
                copies_in(entries),
                in_order::<String>(targets.dom()),
                targets,
                false,
                names,
                entries.dom(),
            ).1,
        ),
{
    let keys = in_order::<String>(targets.dom());
    in_order_lists::<String>(targets.dom());
    let edges = targets.map_values(|key: Seq<char>| origin(packages, key));
    assert(edges.map_values(|p: IdModel| rendered(p)) =~= targets) by {
        assert forall|name: Seq<char>| #[trigger] targets.contains_key(name) implies rendered(
            edges[name],
        ) == targets[name] by {
            assert(entries.contains_key(targets[name]));
        }
    }
    assert forall|i: int| 0 <= i < keys.len() implies {
        &&& #[trigger] edges.contains_key(keys[i])
        &&& packages.contains_key(edges[keys[i]])
        &&& free(packages, edges[keys[i]], names, entries.dom())
        &&& false || edges[keys[i]].context.len() > 0 ==> entries.dom().contains(
            rendered(edges[keys[i]]),
        ) || names.contains_key(rendered(edges[keys[i]]))
    } by {
        assert(keys.to_set().contains(keys[i]));
        assert(entries.contains_key(targets[keys[i]]));
        assert(packages.contains_key(edges[keys[i]]));
    }
    identities_are_rebuilt(packages, entries, keys, edges, false, names, entries.dom());
}

proof fn root_identities_are_rebuilt(graph: GraphModel, lock: LockModel, raws: Seq<Seq<char>>)
    requires
        setting(graph.packages, lock.packages),
        all_settled(graph.packages),
        forall|i: int|
            0 <= i < raws.len() ==> root_keys(
                lock.packages,
                lock.importers[#[trigger] raws[i]],
            ).dom().finite(),
    ensures
        right(graph.packages, ids_below(lock, raws)),
    decreases raws.len(),
{
    if raws.len() > 0 {
        let rest = raws.drop_last();
        assert forall|i: int| 0 <= i < rest.len() implies root_keys(
            lock.packages,
            lock.importers[#[trigger] rest[i]],
        ).dom().finite() by {
            assert(rest[i] == raws[i]);
        }
        root_identities_are_rebuilt(graph, lock, rest);
        let last = raws[raws.len() - 1];
        let targets = root_keys(lock.packages, lock.importers[last]);
        assert(targets.dom().finite());
        recorded_keys_are_rebuilt(
            graph.packages,
            lock.packages,
            targets,
            ids_below(lock, rest),
        );
    }
}

/// The identities rebuilt from what a graph records are the graph's own.
proof fn identities_read_back(graph: GraphModel)
    requires
        is_recordable(graph),
        reads_back(graph),
    ensures
        ({
            let ids = rebuilt_ids(lock_of(graph));
            &&& setting(graph.packages, lock_of(graph).packages)
            &&& forall|id: IdModel| #[trigger]
                graph.packages.contains_key(id) ==> ids.contains_key(rendered(id))
                    && ids[rendered(id)] == id
            &&& forall|key: Seq<char>| #[trigger]
                ids.contains_key(key) ==> lock_of(graph).packages.contains_key(key)
        }),
{
    let lock = lock_of(graph);
    let entries = lock.packages;
    let packages = graph.packages;
    graphs_are_recorded(graph);
    assert(setting(packages, entries));
    let raws = in_order::<String>(lock.importers.dom());
    assert(lock.importers.dom() =~= graph.importers.dom());
    in_order_lists::<String>(lock.importers.dom());
    assert forall|i: int| 0 <= i < raws.len() implies root_keys(
        entries,
        lock.importers[#[trigger] raws[i]],
    ).dom().finite() by {
        assert(raws.to_set().contains(raws[i]));
        let importer = graph.importers[raws[i]];
        assert(graph.importers.contains_key(raws[i]));
        let targets = root_keys(entries, lock.importers[raws[i]]);
        assert(targets.dom().subset_of(importer.dom()));
        vstd::set_lib::lemma_set_subset_finite(importer.dom(), targets.dom());
    }
    root_identities_are_rebuilt(graph, lock, raws);
    let before = ids_below(lock, raws);
    let all = every_key(entries);
    assert(all.dom() =~= entries.dom());
    recorded_keys_are_rebuilt(packages, entries, all, before);
    let ids = rebuilt_ids(lock);
    let keys = in_order::<String>(entries.dom());
    in_order_lists::<String>(entries.dom());
    naming_all_covers::<String>(copies_in(entries), keys, all, false, before, entries.dom());
    assert forall|id: IdModel| #[trigger] packages.contains_key(id) implies ids.contains_key(
        rendered(id),
    ) && ids[rendered(id)] == id by {
        let key = rendered(id);
        assert(entries.contains_key(key));
        assert(keys.to_set().contains(key));
        let k = keys.index_of(key);
        assert(entries.dom().contains(all[keys[k]]));
        assert(ids.contains_key(all[keys[k]]));
        assert(packages.contains_key(ids[key]));
    }
    assert forall|key: Seq<char>| #[trigger] ids.contains_key(key) implies entries.contains_key(
        key,
    ) by {
        assert(packages.contains_key(ids[key]));
    }
}

proof fn no_first_fault(
    keys: Seq<Seq<char>>,
    fault: spec_fn(Seq<char>) -> Option<LockfileFault>,
)
    requires
        forall|i: int| 0 <= i < keys.len() ==> fault(#[trigger] keys[i]) is None,
    ensures
        first_fault(keys, fault) is None,
    decreases keys.len(),
{
    if keys.len() > 0 {
        let rest = keys.drop_last();
        assert forall|i: int| 0 <= i < rest.len() implies fault(#[trigger] rest[i]) is None by {
            assert(rest[i] == keys[i]);
        }
        no_first_fault(rest, fault);
        assert(fault(keys[keys.len() - 1]) is None);
    }
}

proof fn recorded_entries_have_no_fault(graph: GraphModel, id: IdModel)
    requires
        is_storable(graph),
        reads_back(graph),
        setting(graph.packages, lock_of(graph).packages),
        graph.packages.contains_key(id),
    ensures
        entry_fault(lock_of(graph).packages)(rendered(id)) is None,
        edge_fault(lock_of(graph).packages)(rendered(id)) is None,
{
    let entries = lock_of(graph).packages;
    let packages = graph.packages;
    let package = packages[id];
    let key = rendered(id);
    assert(is_lockable(packages, id));
    keys_split_back(id);
    let entry = entries[key];
    assert(entry == entry_of(package));
    assert(hash_reads_back(package.integrity));
    assert(entry.dependencies.dom() =~= package.dependencies.dom());
    assert(entry.peers.dom() =~= package.peers.dom());
    let dep_names = in_order::<String>(entry.dependencies.dom());
    let peer_names = in_order::<String>(entry.peers.dom());
    in_order_lists::<String>(entry.dependencies.dom());
    in_order_lists::<String>(entry.peers.dom());
    assert forall|i: int| 0 <= i < dep_names.len() implies dependency_fault(entries, key)(
        #[trigger] dep_names[i],
    ) is None by {
        let name = dep_names[i];
        assert(dep_names.to_set().contains(name));
        assert(package.dependencies.contains_key(name));
        let to = package.dependencies[name];
        assert(packages.contains_key(to));
        assert(is_lockable(packages, to));
        edges_read_back(name, to);
    }
    no_first_fault(dep_names, dependency_fault(entries, key));
    assert forall|i: int| 0 <= i < peer_names.len() implies peer_fault(entries, key)(
        #[trigger] peer_names[i],
    ) is None by {
        let name = peer_names[i];
        assert(peer_names.to_set().contains(name));
        assert(package.peers.contains_key(name));
        assert(packages.contains_key(package.peers[name]));
    }
    no_first_fault(peer_names, peer_fault(entries, key));
}

proof fn packages_read_back(graph: GraphModel, keys: Seq<Seq<char>>)
    requires
        is_storable(graph),
        reads_back(graph),
        setting(graph.packages, lock_of(graph).packages),
        forall|id: IdModel| #[trigger]
            graph.packages.contains_key(id) ==> rebuilt_ids(lock_of(graph)).contains_key(
                rendered(id),
            ) && rebuilt_ids(lock_of(graph))[rendered(id)] == id,
        forall|i: int|
            0 <= i < keys.len() ==> lock_of(graph).packages.contains_key(#[trigger] keys[i]),
    ensures
        ({
            let packages = loaded_packages(
                lock_of(graph).packages,
                rebuilt_ids(lock_of(graph)),
                keys,
            );
            &&& packages.submap_of(graph.packages)
            &&& forall|i: int|
                0 <= i < keys.len() ==> packages.contains_key(
                    rebuilt_ids(lock_of(graph))[#[trigger] keys[i]],
                )
        }),
    decreases keys.len(),
{
    let entries = lock_of(graph).packages;
    let ids = rebuilt_ids(lock_of(graph));
    if keys.len() > 0 {
        let rest = keys.drop_last();
        assert forall|i: int| 0 <= i < rest.len() implies entries.contains_key(
            #[trigger] rest[i],
        ) by {
            assert(rest[i] == keys[i]);
        }
        packages_read_back(graph, rest);
        let before = loaded_packages(entries, ids, rest);
        let after = loaded_packages(entries, ids, keys);
        let key = keys[keys.len() - 1];
        assert(entries.contains_key(key));
        let id = origin(graph.packages, key);
        assert(graph.packages.contains_key(id));
        assert(is_lockable(graph.packages, id));
        let package = graph.packages[id];
        let made = loaded_package(entries[key], ids, id);
        copies_mirror(graph.packages, entries, id);
        assert(made.dependencies =~= package.dependencies) by {
            assert forall|name: Seq<char>| #[trigger] package.dependencies.contains_key(
                name,
            ) implies made.dependencies[name] == package.dependencies[name] by {
                assert(graph.packages.contains_key(package.dependencies[name]));
            }
        }
        assert(made.peers =~= package.peers) by {
            assert forall|name: Seq<char>| #[trigger] package.peers.contains_key(
                name,
            ) implies made.peers[name] == package.peers[name] by {
                assert(graph.packages.contains_key(package.peers[name]));
            }
        }
        assert(hash_reads_back(package.integrity));
        assert(made == package);
        assert(after == before.insert(id, package));
        assert forall|i: int| 0 <= i < keys.len() implies after.contains_key(
            ids[#[trigger] keys[i]],
        ) by {
            if i < rest.len() {
                assert(rest[i] == keys[i]);
                assert(before.contains_key(ids[rest[i]]));
            }
        }
    }
}

proof fn sections_read_back(
    graph: GraphModel,
    path: Seq<char>,
    kind: Kind,
    names: Seq<Seq<char>>,
    before: ImporterModel,
)
    requires
        is_storable(graph),
        reads_back(graph),
        forall|id: IdModel| #[trigger]
            graph.packages.contains_key(id) ==> rebuilt_ids(lock_of(graph)).contains_key(
                rendered(id),
            ) && rebuilt_ids(lock_of(graph))[rendered(id)] == id,
        graph.importers.contains_key(path),
        forall|i: int|
            0 <= i < names.len() ==> section_of(graph.importers[path], kind).contains_key(
                #[trigger] names[i],
            ),
    ensures
        loaded_section(
            path,
            path,
            kind,
            section_of(graph.importers[path], kind),
            names,
            rebuilt_ids(lock_of(graph)),
            before,
        ) == Ok::<ImporterModel, LockfileFault>(
            before.union_prefer_right(graph.importers[path].restrict(names.to_set())),
        ),
    decreases names.len(),
{
    let ids = rebuilt_ids(lock_of(graph));
    let importer = graph.importers[path];
    let section = section_of(importer, kind);
    if names.len() == 0 {
        assert(before.union_prefer_right(importer.restrict(names.to_set())) =~= before);
    } else {
        let rest = names.drop_last();
        assert forall|i: int| 0 <= i < rest.len() implies section.contains_key(
            #[trigger] rest[i],
        ) by {
            assert(rest[i] == names[i]);
        }
        sections_read_back(graph, path, kind, rest, before);
        let name = names[names.len() - 1];
        assert(section.contains_key(name));
        assert(importer.contains_key(name));
        let dependency = importer[name];
        assert(is_lockable_edge(graph.packages, path, name, dependency));
        let version = section[name].version;
        match dependency.resolution {
            ResolutionModel::Registry(id) => {
                assert(graph.packages.contains_key(id));
                assert(is_lockable(graph.packages, id));
                edges_read_back(name, id);
            },
            ResolutionModel::Local(target) => {
                assert(version.take(LINK_PREFIX@.len() as int) =~= LINK_PREFIX@);
                assert(version.skip(LINK_PREFIX@.len() as int) =~= target);
            },
        }
        crate::sorted::take_one_more(names, names.len() - 1);
        assert(names.take(names.len() - 1) =~= rest);
        assert(names.take(names.len() as int) =~= names);
        assert(before.union_prefer_right(importer.restrict(rest.to_set())).insert(name, dependency)
            =~= before.union_prefer_right(importer.restrict(names.to_set())));
    }
}

proof fn importers_read_back(graph: GraphModel, raws: Seq<Seq<char>>)
    requires
        is_storable(graph),
        reads_back(graph),
        forall|id: IdModel| #[trigger]
            graph.packages.contains_key(id) ==> rebuilt_ids(lock_of(graph)).contains_key(
                rendered(id),
            ) && rebuilt_ids(lock_of(graph))[rendered(id)] == id,
        forall|i: int| 0 <= i < raws.len() ==> graph.importers.contains_key(#[trigger] raws[i]),
    ensures
        loaded_importers(lock_of(graph).importers, rebuilt_ids(lock_of(graph)), raws) == Ok::<
            Map<Seq<char>, ImporterModel>,
            LockfileFault,
        >(graph.importers.restrict(raws.to_set())),
    decreases raws.len(),
{
    let lock = lock_of(graph);
    let ids = rebuilt_ids(lock);
    if raws.len() == 0 {
        assert(graph.importers.restrict(raws.to_set()) =~= Map::<Seq<char>, ImporterModel>::empty());
    } else {
        let rest = raws.drop_last();
        assert forall|i: int| 0 <= i < rest.len() implies graph.importers.contains_key(
            #[trigger] rest[i],
        ) by {
            assert(rest[i] == raws[i]);
        }
        importers_read_back(graph, rest);
        let path = raws[raws.len() - 1];
        assert(graph.importers.contains_key(path));
        let importer = graph.importers[path];
        reading_is_idempotent(path);
        let dev = section_of(importer, Kind::Dev);
        let prod = section_of(importer, Kind::Prod);
        assert(dev.dom().subset_of(importer.dom()));
        assert(prod.dom().subset_of(importer.dom()));
        vstd::set_lib::lemma_set_subset_finite(importer.dom(), dev.dom());
        vstd::set_lib::lemma_set_subset_finite(importer.dom(), prod.dom());
        let dev_names = in_order::<String>(dev.dom());
        let prod_names = in_order::<String>(prod.dom());
        in_order_lists::<String>(dev.dom());
        in_order_lists::<String>(prod.dom());
        assert forall|i: int| 0 <= i < dev_names.len() implies dev.contains_key(
            #[trigger] dev_names[i],
        ) by {
            assert(dev_names.to_set().contains(dev_names[i]));
        }
        assert forall|i: int| 0 <= i < prod_names.len() implies prod.contains_key(
            #[trigger] prod_names[i],
        ) by {
            assert(prod_names.to_set().contains(prod_names[i]));
        }
        sections_read_back(graph, path, Kind::Dev, dev_names, Map::empty());
        let half = Map::<Seq<char>, DependencyModel>::empty().union_prefer_right(
            importer.restrict(dev_names.to_set()),
        );
        sections_read_back(graph, path, Kind::Prod, prod_names, half);
        assert(half.union_prefer_right(importer.restrict(prod_names.to_set())) =~= importer) by {
            assert forall|name: Seq<char>| importer.contains_key(name) implies dev.contains_key(
                name,
            ) || #[trigger] prod.contains_key(name) by {
            }
        }
        crate::sorted::take_one_more(raws, raws.len() - 1);
        assert(raws.take(raws.len() - 1) =~= rest);
        assert(raws.take(raws.len() as int) =~= raws);
        assert(graph.importers.restrict(rest.to_set()).insert(path, importer)
            =~= graph.importers.restrict(raws.to_set()));
    }
}

/// Are the identities that a graph's records amount to the graph's own?
pub open spec fn identities_come_back(graph: GraphModel) -> bool {
    let ids = rebuilt_ids(lock_of(graph));
    forall|id: IdModel| #[trigger]
        graph.packages.contains_key(id) ==> ids.contains_key(rendered(id)) && ids[rendered(id)]
            == id
}

/// A graph that a lockfile can hold is recorded as it is.
pub proof fn graphs_have_a_setting(graph: GraphModel)
    requires
        is_storable(graph),
        reads_back(graph),
    ensures
        setting(graph.packages, lock_of(graph).packages),
{
    graphs_are_recorded(graph);
}

/// A lockfile reads back as the graph it was written from, wherever the
/// identities in it do.
pub proof fn locks_read_back_with_their_identities(graph: GraphModel)
    requires
        is_storable(graph),
        reads_back(graph),
        identities_come_back(graph),
    ensures
        loaded(lock_of(graph)) == Ok::<GraphModel, LockfileFault>(graph),
{
    let lock = lock_of(graph);
    let entries = lock.packages;
    let ids = rebuilt_ids(lock);
    let keys = in_order::<String>(entries.dom());
    graphs_have_a_setting(graph);
    in_order_lists::<String>(entries.dom());
    assert forall|i: int| 0 <= i < keys.len() implies {
        &&& entry_fault(entries)(#[trigger] keys[i]) is None
        &&& edge_fault(entries)(keys[i]) is None
        &&& identity_fault(ids)(keys[i]) is None
        &&& entries.contains_key(keys[i])
    } by {
        assert(keys.to_set().contains(keys[i]));
        let id = origin(graph.packages, keys[i]);
        assert(graph.packages.contains_key(id));
        recorded_entries_have_no_fault(graph, id);
    }
    no_first_fault(keys, entry_fault(entries));
    no_first_fault(keys, edge_fault(entries));
    no_first_fault(keys, identity_fault(ids));
    let raws = in_order::<String>(lock.importers.dom());
    assert(lock.importers.dom() =~= graph.importers.dom());
    in_order_lists::<String>(lock.importers.dom());
    assert forall|i: int| 0 <= i < raws.len() implies graph.importers.contains_key(
        #[trigger] raws[i],
    ) by {
        assert(raws.to_set().contains(raws[i]));
    }
    importers_read_back(graph, raws);
    assert(graph.importers.restrict(raws.to_set()) =~= graph.importers);
    packages_read_back(graph, keys);
    let made = loaded_packages(entries, ids, keys);
    assert(made =~= graph.packages) by {
        assert forall|id: IdModel| #[trigger] made.dom().contains(id) implies
            graph.packages.dom().contains(id) && made[id] == graph.packages[id] by {
        }
        assert forall|id: IdModel| #[trigger] graph.packages.contains_key(
            id,
        ) implies made.contains_key(id) by {
            assert(entries.contains_key(rendered(id)));
            assert(keys.to_set().contains(rendered(id)));
            let k = keys.index_of(rendered(id));
            assert(made.contains_key(ids[keys[k]]));
        }
    }
}

/// A lockfile reads back as the graph it was written from.
pub proof fn locks_read_back(graph: GraphModel)
    requires
        is_recordable(graph),
        reads_back(graph),
    ensures
        loaded(lock_of(graph)) == Ok::<GraphModel, LockfileFault>(graph),
{
    identities_read_back(graph);
    locks_read_back_with_their_identities(graph);
}

} // verus!
