//! A lockfile written from a graph whose peers were just resolved reads back
//! as that graph, cycles and all: identities are rebuilt from the records the
//! way they were given.

use vstd::prelude::*;
use crate::complaints::provided_by;
use crate::graph::{GraphModel, Kind, ResolutionModel};
use crate::importer::ImporterPath;
use crate::instance::InstanceModel;
use crate::lock_laws::{
    copies_mirror, graphs_have_a_setting, identities_come_back, is_lockable, is_storable,
    locks_read_back_with_their_identities, reads_back,
};
use crate::lockfile::{
    copies_in, edge_key_of, edges_read_back, every_key, ids_below, loaded, lock_of, locked_of,
    recorded_versions, root_keys, LockfileFault, LINK_PREFIX,
};
use crate::name_laws::{
    all_identified_alike, is_mirrored, moved, named_alike, open_alike,
};
use crate::naming::{all_identified, identified, CopiesOf, Names, NamesOf, Node};
use crate::order::Key;
use crate::package_id::{plain_id, rendered, IdModel};
use crate::peer_laws::{
    are_apart, copies_in_graph, edges_end_inside, is_finite, named_copies_are_written,
    names_in_graph,
};
use crate::peer_pass::{copies_for, named_roots, peers_resolved, renamed};
use crate::sorted::{ascending, ascending_is_unique, in_order, in_order_lists};

verus! {

/// Is every package of a graph published plainly, before any peer was
/// resolved?
pub open spec fn is_plain_graph(graph: GraphModel) -> bool {
    forall|id: IdModel| #[trigger]
        graph.packages.contains_key(id) ==> id == plain_id(id.name, id.version)
}

/// Is no link of a project spelled like a package of the graph?
pub open spec fn links_are_no_packages(graph: GraphModel) -> bool {
    forall|path: Seq<char>, name: Seq<char>, id: IdModel|
        graph.importers.contains_key(path) && #[trigger] graph.importers[path].contains_key(name)
            && graph.importers[path][name].resolution is Local
            && #[trigger] graph.packages.contains_key(id) ==> rendered(id) != edge_key_of(
            name,
            LINK_PREFIX@ + graph.importers[path][name].resolution->Local_0,
        )
}

/// Did this graph come from resolving the peers of another one, with every
/// copy kept apart?
pub open spec fn is_resolved_from(graph: GraphModel, source: GraphModel, levels: nat) -> bool {
    &&& is_finite(source)
    &&& edges_end_inside(source)
    &&& is_plain_graph(source)
    &&& peers_resolved(source, levels) == Some(graph)
    &&& are_apart(names_in_graph(source, levels))
}

/// The key that a copy is recorded under.
spec fn key_by(names: Names) -> spec_fn(InstanceModel) -> Seq<char> {
    |x: InstanceModel| rendered(names[x])
}

proof fn orders_agree(paths: Set<Seq<char>>)
    requires
        paths.finite(),
    ensures
        in_order::<String>(paths) == in_order::<ImporterPath>(paths),
{
    in_order_lists::<String>(paths);
    in_order_lists::<ImporterPath>(paths);
    let a = in_order::<String>(paths);
    let b = in_order::<ImporterPath>(paths);
    assert(ascending::<String>(b)) by {
        assert forall|i: int, j: int| 0 <= i < j < b.len() implies String::before(b[i], b[j]) by {
            assert(ImporterPath::before(b[i], b[j]));
        }
    }
    ascending_is_unique::<String>(a, b);
}

proof fn copies_are_mirrored(graph: GraphModel, source: GraphModel, levels: nat)
    requires
        is_resolved_from(graph, source, levels),
        is_storable(graph),
        reads_back(graph),
    ensures
        ({
            let names = names_in_graph(source, levels);
            let copies = copies_in_graph(source, levels);
            let keyed = copies_in(lock_of(graph).packages);
            &&& is_mirrored(copies, names.dom(), keyed, key_by(names))
            &&& open_alike(names.dom(), copies.dom(), keyed.dom(), key_by(names))
        }),
{
    let names = names_in_graph(source, levels);
    let copies = copies_in_graph(source, levels);
    let entries = lock_of(graph).packages;
    let keyed = copies_in(entries);
    let key_of = key_by(names);
    let known = names.dom();
    named_copies_are_written(source, levels);
    graphs_have_a_setting(graph);
    assert(keyed.dom() =~= entries.dom());
    assert forall|x: InstanceModel| #[trigger] known.contains(x) implies {
        &&& keyed.contains_key(key_of(x))
        &&& keyed[key_of(x)].own == moved(copies[x].own, key_of)
        &&& keyed[key_of(x)].dependencies == moved(copies[x].dependencies, key_of)
        &&& String::package_of(key_of(x)) == x.package
        &&& copies[x].own.dom().finite()
        &&& copies[x].dependencies.dom().finite()
    } by {
        assert(names.contains_key(x));
        let id = names[x];
        assert(graph.packages.contains_key(id));
        copies_mirror(graph.packages, entries, id);
        let package = graph.packages[id];
        assert(source.packages.contains_key(x.package));
        assert(package.peers.map_values(|p: IdModel| rendered(p)) =~= moved(
            copies[x].own,
            key_of,
        )) by {
            assert forall|name: Seq<char>| #[trigger] copies[x].own.contains_key(
                name,
            ) implies package.peers.contains_key(name) && rendered(package.peers[name]) == key_of(
                copies[x].own[name],
            ) by {
                assert(names.contains_key(copies[x].own[name]));
            }
        }
        assert(package.dependencies.map_values(|p: IdModel| rendered(p)) =~= moved(
            copies[x].dependencies,
            key_of,
        )) by {
            assert forall|name: Seq<char>| #[trigger] copies[x].dependencies.contains_key(
                name,
            ) implies package.dependencies.contains_key(name) && rendered(
                package.dependencies[name],
            ) == key_of(copies[x].dependencies[name]) by {
                assert(names.contains_key(copies[x].dependencies[name]));
            }
        }
    }
    assert forall|x: InstanceModel, y: InstanceModel| #[trigger]
        known.contains(x) && #[trigger] known.contains(y) && key_of(x) == key_of(y) implies x
        == y by {
        assert(names.contains_key(x) && names.contains_key(y));
        assert(graph.packages.contains_key(names[x]));
        assert(graph.packages.contains_key(names[y]));
    }
    assert forall|x: InstanceModel, name: Seq<char>|
        known.contains(x) && #[trigger] copies[x].own.contains_key(name) implies known.contains(
        copies[x].own[name],
    ) by {
        assert(names.contains_key(x));
        assert(names.contains_key(copies[x].own[name]));
    }
    assert forall|x: InstanceModel, name: Seq<char>|
        known.contains(x) && #[trigger] copies[x].dependencies.contains_key(
            name,
        ) implies known.contains(copies[x].dependencies[name]) by {
        assert(names.contains_key(x));
        assert(names.contains_key(copies[x].dependencies[name]));
    }
}

/// What a project's dependencies are recorded as naming is the copies that
/// they came to.
proof fn roots_are_mirrored(graph: GraphModel, source: GraphModel, levels: nat, path: Seq<char>)
    requires
        is_resolved_from(graph, source, levels),
        is_storable(graph),
        reads_back(graph),
        links_are_no_packages(graph),
        source.importers.contains_key(path),
    ensures
        root_keys(lock_of(graph).packages, lock_of(graph).importers[path]) == moved(
            copies_for(source, path),
            key_by(names_in_graph(source, levels)),
        ),
        copies_for(source, path).dom().finite(),
{
    let names = names_in_graph(source, levels);
    let lock = lock_of(graph);
    let entries = lock.packages;
    let key_of = key_by(names);
    let targets = copies_for(source, path);
    named_copies_are_written(source, levels);
    graphs_have_a_setting(graph);
    assert(graph.importers.contains_key(path));
    let importer = graph.importers[path];
    let before = source.importers[path];
    assert(importer == renamed(before, targets, names));
    assert(targets.dom().subset_of(before.dom()));
    vstd::set_lib::lemma_set_subset_finite(before.dom(), targets.dom());
    let versions = recorded_versions(lock.importers[path]);
    assert(versions.dom() =~= importer.dom()) by {
        assert forall|name: Seq<char>| importer.contains_key(name) implies versions.contains_key(
            name,
        ) by {
            assert(importer[name].kind == Kind::Prod || importer[name].kind == Kind::Dev);
        }
    }
    assert forall|name: Seq<char>| importer.contains_key(name) implies versions[name] == locked_of(
        name,
        importer[name],
    ).version by {}
    let keys = root_keys(entries, lock.importers[path]);
    assert forall|name: Seq<char>| #[trigger] targets.contains_key(name) implies keys.contains_key(
        name,
    ) && keys[name] == key_of(targets[name]) by {
        assert(names.contains_key(targets[name]));
        let id = names[targets[name]];
        assert(graph.packages.contains_key(id));
        assert(is_lockable(graph.packages, id));
        assert(importer[name].resolution == ResolutionModel::Registry(id));
        edges_read_back(name, id);
    }
    assert forall|name: Seq<char>| #[trigger] keys.contains_key(name) implies targets.contains_key(
        name,
    ) by {
        assert(importer.contains_key(name));
        assert(before.contains_key(name));
        if before[name].resolution is Local {
            assert(!targets.contains_key(name));
            assert(importer[name].resolution is Local);
            let key = edge_key_of(name, versions[name]);
            assert(entries.contains_key(key));
            let id = choose|id: IdModel| #[trigger]
                graph.packages.contains_key(id) && rendered(id) == key;
            assert(graph.packages.contains_key(id));
        } else {
            assert(provided_by(before).contains_key(name));
        }
    }
    assert(keys =~= moved(targets, key_of));
}

proof fn roots_are_named_alike(
    graph: GraphModel,
    source: GraphModel,
    levels: nat,
    paths: Seq<Seq<char>>,
)
    requires
        is_resolved_from(graph, source, levels),
        is_storable(graph),
        reads_back(graph),
        links_are_no_packages(graph),
        forall|i: int| 0 <= i < paths.len() ==> source.importers.contains_key(#[trigger] paths[i]),
    ensures
        ({
            let names = names_in_graph(source, levels);
            let copies = copies_in_graph(source, levels);
            named_alike(
                names.dom(),
                named_roots(source, copies, paths),
                ids_below(lock_of(graph), paths),
                key_by(names),
            )
        }),
    decreases paths.len(),
{
    let names = names_in_graph(source, levels);
    let copies = copies_in_graph(source, levels);
    let lock = lock_of(graph);
    let keyed = copies_in(lock.packages);
    let key_of = key_by(names);
    if paths.len() > 0 {
        let rest = paths.drop_last();
        assert forall|i: int| 0 <= i < rest.len() implies source.importers.contains_key(
            #[trigger] rest[i],
        ) by {
            assert(rest[i] == paths[i]);
        }
        roots_are_named_alike(graph, source, levels, rest);
        let path = paths[paths.len() - 1];
        assert(source.importers.contains_key(path));
        copies_are_mirrored(graph, source, levels);
        roots_are_mirrored(graph, source, levels, path);
        named_copies_are_written(source, levels);
        let targets = copies_for(source, path);
        let keys = in_order::<String>(targets.dom());
        in_order_lists::<String>(targets.dom());
        assert forall|i: int| 0 <= i < keys.len() implies targets.contains_key(#[trigger] keys[i])
            && names.dom().contains(targets[keys[i]]) by {
            assert(keys.to_set().contains(keys[i]));
            assert(copies_for(source, path).contains_key(keys[i]));
            assert(names.contains_key(targets[keys[i]]));
        }
        assert(moved(targets, key_of).dom() =~= targets.dom());
        assert(keyed.dom() =~= lock.packages.dom());
        all_identified_alike(
            copies,
            names.dom(),
            keyed,
            key_of,
            named_roots(source, copies, rest),
            ids_below(lock, rest),
            keys,
            targets,
            false,
            copies.dom(),
            keyed.dom(),
        );
    }
}

proof fn named_already(
    copies: CopiesOf<Seq<char>>,
    keys: Seq<Seq<char>>,
    targets: Map<Seq<char>, Seq<char>>,
    names: NamesOf<Seq<char>>,
    open: Set<Seq<char>>,
)
    requires
        open.finite(),
        forall|i: int| 0 <= i < keys.len() ==> names.contains_key(targets[#[trigger] keys[i]]),
    ensures
        all_identified::<String>(copies, keys, targets, false, names, open).1 == names,
    decreases keys.len(),
{
    if keys.len() > 0 {
        let rest = keys.drop_last();
        assert forall|i: int| 0 <= i < rest.len() implies names.contains_key(
            targets[#[trigger] rest[i]],
        ) by {
            assert(rest[i] == keys[i]);
        }
        named_already(copies, rest, targets, names, open);
        let last = targets[keys[keys.len() - 1]];
        assert(names.contains_key(last));
        assert(identified::<String>(copies, last, names, open) == (Some(names[last]), names));
        assert(all_identified::<String>(copies, rest, targets, false, names, open).1 == names);
    }
}

proof fn identities_are_given_again(graph: GraphModel, source: GraphModel, levels: nat)
    requires
        is_resolved_from(graph, source, levels),
        is_storable(graph),
        reads_back(graph),
        links_are_no_packages(graph),
    ensures
        identities_come_back(graph),
{
    let names = names_in_graph(source, levels);
    let copies = copies_in_graph(source, levels);
    let lock = lock_of(graph);
    let entries = lock.packages;
    let key_of = key_by(names);
    let paths = in_order::<ImporterPath>(source.importers.dom());
    in_order_lists::<ImporterPath>(source.importers.dom());
    assert(lock.importers.dom() =~= source.importers.dom());
    orders_agree(source.importers.dom());
    assert forall|i: int| 0 <= i < paths.len() implies source.importers.contains_key(
        #[trigger] paths[i],
    ) by {
        assert(paths.to_set().contains(paths[i]));
    }
    roots_are_named_alike(graph, source, levels, paths);
    named_copies_are_written(source, levels);
    graphs_have_a_setting(graph);
    let before = ids_below(lock, paths);
    assert forall|id: IdModel| #[trigger] graph.packages.contains_key(id) implies
        before.contains_key(rendered(id)) && before[rendered(id)] == id by {
        let x = choose|x: InstanceModel| #[trigger] names.contains_key(x) && names[x] == id;
        assert(names.contains_key(x));
        assert(names.dom().contains(x));
        assert(key_of(x) == rendered(id));
    }
    let keys = in_order::<String>(entries.dom());
    in_order_lists::<String>(entries.dom());
    assert forall|i: int| 0 <= i < keys.len() implies before.contains_key(
        every_key(entries)[#[trigger] keys[i]],
    ) by {
        assert(keys.to_set().contains(keys[i]));
        assert(entries.contains_key(keys[i]));
        let id = choose|id: IdModel| #[trigger]
            graph.packages.contains_key(id) && rendered(id) == keys[i];
        assert(graph.packages.contains_key(id));
    }
    named_already(copies_in(entries), keys, every_key(entries), before, entries.dom());
}

/// A lockfile written from a graph whose peers were just resolved reads back
/// as that graph, whatever cycles its contexts were cut at.
pub proof fn peer_resolved_locks_read_back(graph: GraphModel, source: GraphModel, levels: nat)
    requires
        is_resolved_from(graph, source, levels),
        is_storable(graph),
        links_are_no_packages(graph),
        reads_back(graph),
    ensures
        loaded(lock_of(graph)) == Ok::<GraphModel, LockfileFault>(graph),
{
    identities_are_given_again(graph, source, levels);
    locks_read_back_with_their_identities(graph);
}

} // verus!
