//! A lockfile that is read and written again is the same lockfile.

use vstd::prelude::*;
use vstd::utf8::*;
use crate::graph::{DependencyModel, GraphModel, ImporterModel, Kind, PackageModel, ResolutionModel};
use crate::importer::{is_importer, reading_is_idempotent};
use crate::integrity::{sha512_of, ssri_of, ssri_reading};
use crate::lock_laws::{packages_are_recorded, records};
use crate::lockfile::{
    copies_in, dependency_fault, edge_fault, edge_key_of, edge_value_of, entries_of, entry_fault, entry_of, every_key, hash_reads_back, identity_fault, ids_below,
    loaded, loaded_importer, loaded_importers, loaded_package, loaded_packages, loaded_resolution,
    loaded_section, lock_of, locked_importer_of, locked_of, no_fault_anywhere, peer_fault,
    rebuilt_ids, root_keys, section_of, EntryModel, LockModel, LockedImporterModel, LockedModel,
    LockfileFault, OnDisk, LINK_PREFIX,
};
use crate::naming::{all_identified, identified, naming_all_covers, CopiesOf, NamesOf, Node};
use crate::package_id::{
    context_digest, context_opens, hex_text_is_hex, is_collapsed, is_hex_digit, is_sound_key,
    key_parts, name_and_version, rendered, rendered_context, without_hash, IdModel, PackageId,
    MAX_KEY_BYTES,
};
use crate::peer_laws::edges_end_inside;
use crate::record_laws::{keys_are_apart, keys_open_with_their_base};
use crate::sorted::{in_order, in_order_lists};
use crate::text::{
    cut_first_at, cut_last_at, first_exists, is_first, is_last, last_exists, opens_with,
};

verus! {

/// Is an edge spelled the way it is written: by its key, with the name left
/// off where it is the one that the edge is declared under?
pub open spec fn is_edge_spelling(name: Seq<char>, value: Seq<char>) -> bool {
    let key = edge_key_of(name, value);
    value == match key_parts(key) {
        Some((of, _)) => if of == name {
            key.skip(name.len() as int + 1)
        } else {
            key
        },
        None => key,
    }
}

/// Is an entry spelled the way it is written?
pub open spec fn is_entry_spelling(entry: EntryModel) -> bool {
    &&& ssri_reading(entry.integrity) is Ok ==> ssri_of(ssri_reading(entry.integrity)->Ok_0)
        == entry.integrity
    &&& entry.dependencies.dom().finite()
    &&& entry.peers.dom().finite()
    &&& forall|name: Seq<char>| #[trigger]
        entry.dependencies.contains_key(name) ==> is_edge_spelling(name, entry.dependencies[name])
}

/// Is a section spelled the way it is written?
pub open spec fn is_section_spelling(section: Map<Seq<char>, LockedModel>) -> bool {
    &&& section.dom().finite()
    &&& forall|name: Seq<char>| #[trigger]
        section.contains_key(name) ==> opens_with(section[name].version, LINK_PREFIX@)
            || is_edge_spelling(name, section[name].version)
}

/// Is a project spelled the way it is written, with no name in both sections?
pub open spec fn is_importer_spelling(importer: LockedImporterModel) -> bool {
    &&& is_section_spelling(importer.dependencies)
    &&& is_section_spelling(importer.dev_dependencies)
    &&& importer.dependencies.dom().disjoint(importer.dev_dependencies.dom())
}

/// Is a lockfile spelled the way one is written?
pub open spec fn is_spelling(lock: LockModel) -> bool {
    &&& lock.importers.dom().finite()
    &&& lock.packages.dom().finite()
    &&& forall|key: Seq<char>| #[trigger]
        lock.packages.contains_key(key) ==> is_entry_spelling(lock.packages[key])
    &&& forall|path: Seq<char>| #[trigger]
        lock.importers.contains_key(path) ==> is_importer(path) && is_importer_spelling(
            lock.importers[path],
        )
}

/// Is every identity that was rebuilt of the package that its key names, and
/// of a recorded key?
pub open spec fn are_of_keys(names: NamesOf<Seq<char>>, known: Set<Seq<char>>) -> bool {
    forall|key: Seq<char>| #[trigger]
        names.contains_key(key) ==> known.contains(key) && names[key].name == String::package_of(
            key,
        ).name && names[key].version == String::package_of(key).version
}

proof fn naming_is_of_keys(
    copies: CopiesOf<Seq<char>>,
    key: Seq<char>,
    names: NamesOf<Seq<char>>,
    open: Set<Seq<char>>,
    known: Set<Seq<char>>,
)
    requires
        open.finite(),
        open.subset_of(known),
        are_of_keys(names, known),
    ensures
        are_of_keys(identified::<String>(copies, key, names, open).1, known),
    decreases open.len(), 0nat,
{
    if !names.contains_key(key) && open.contains(key) {
        let copy = copies[key];
        let rest = open.remove(key);
        let own_keys = in_order::<String>(copy.own.dom());
        let dep_keys = in_order::<String>(copy.dependencies.dom());
        naming_all_is_of_keys(copies, own_keys, copy.own, true, names, rest, known);
        let middle = all_identified::<String>(copies, own_keys, copy.own, true, names, rest).1;
        naming_all_is_of_keys(copies, dep_keys, copy.dependencies, false, middle, rest, known);
    }
}

proof fn naming_all_is_of_keys(
    copies: CopiesOf<Seq<char>>,
    keys: Seq<Seq<char>>,
    targets: Map<Seq<char>, Seq<char>>,
    cut: bool,
    names: NamesOf<Seq<char>>,
    open: Set<Seq<char>>,
    known: Set<Seq<char>>,
)
    requires
        open.finite(),
        open.subset_of(known),
        are_of_keys(names, known),
    ensures
        are_of_keys(all_identified::<String>(copies, keys, targets, cut, names, open).1, known),
    decreases open.len(), keys.len(),
{
    if keys.len() > 0 {
        let rest = keys.drop_last();
        naming_all_is_of_keys(copies, rest, targets, cut, names, open, known);
        let middle = all_identified::<String>(copies, rest, targets, cut, names, open).1;
        naming_is_of_keys(copies, targets[keys.last()], middle, open, known);
    }
}

proof fn roots_are_of_keys(lock: LockModel, raws: Seq<Seq<char>>)
    requires
        lock.packages.dom().finite(),
    ensures
        are_of_keys(ids_below(lock, raws), lock.packages.dom()),
    decreases raws.len(),
{
    if raws.len() > 0 {
        roots_are_of_keys(lock, raws.drop_last());
        let targets = root_keys(lock.packages, lock.importers[raws.last()]);
        naming_all_is_of_keys(
            copies_in(lock.packages),
            in_order::<String>(targets.dom()),
            targets,
            false,
            ids_below(lock, raws.drop_last()),
            lock.packages.dom(),
            lock.packages.dom(),
        );
    }
}

/// Each recorded key has an identity, of the package that the key names.
proof fn identities_are_of_keys(lock: LockModel)
    requires
        lock.packages.dom().finite(),
    ensures
        are_of_keys(rebuilt_ids(lock), lock.packages.dom()),
        lock.packages.dom().subset_of(rebuilt_ids(lock).dom()),
{
    let raws = in_order::<String>(lock.importers.dom());
    let keys = in_order::<String>(lock.packages.dom());
    in_order_lists::<String>(lock.packages.dom());
    roots_are_of_keys(lock, raws);
    let before = ids_below(lock, raws);
    naming_all_is_of_keys(
        copies_in(lock.packages),
        keys,
        every_key(lock.packages),
        false,
        before,
        lock.packages.dom(),
        lock.packages.dom(),
    );
    naming_all_covers::<String>(
        copies_in(lock.packages),
        keys,
        every_key(lock.packages),
        false,
        before,
        lock.packages.dom(),
    );
    assert forall|key: Seq<char>| lock.packages.dom().contains(key) implies rebuilt_ids(
        lock,
    ).dom().contains(key) by {
        assert(keys.to_set().contains(key));
        let k = keys.index_of(key);
        assert(every_key(lock.packages)[keys[k]] == key);
    }
}

/// What holds of each key of a lockfile that was read: it has an identity of
/// its own, which is spelled that way, of the name and the version that the
/// key says, and its entry says the same version and a hash that can be used.
pub open spec fn is_sound(lock: LockModel) -> bool {
    let ids = rebuilt_ids(lock);
    forall|key: Seq<char>| #[trigger]
        lock.packages.contains_key(key) ==> {
            &&& ids.contains_key(key)
            &&& rendered(ids[key]) == key
            &&& key_parts(key) == Some((ids[key].name, ids[key].version))
            &&& ids[key].version == lock.packages[key].version
            &&& ssri_reading(lock.packages[key].integrity) is Ok
        }
}

/// A lockfile that can be read is sound.
pub proof fn what_is_read_is_sound(lock: LockModel)
    requires
        lock.packages.dom().finite(),
        loaded(lock) is Ok,
    ensures
        is_sound(lock),
        are_of_keys(rebuilt_ids(lock), lock.packages.dom()),
{
    let entries = lock.packages;
    let ids = rebuilt_ids(lock);
    let keys = in_order::<String>(entries.dom());
    in_order_lists::<String>(entries.dom());
    identities_are_of_keys(lock);
    assert forall|key: Seq<char>| #[trigger] entries.contains_key(key) implies {
        &&& ids.contains_key(key)
        &&& rendered(ids[key]) == key
        &&& key_parts(key) == Some((ids[key].name, ids[key].version))
        &&& ids[key].version == entries[key].version
        &&& ssri_reading(entries[key].integrity) is Ok
    } by {
        assert(keys.to_set().contains(key));
        let k = keys.index_of(key);
        no_fault_anywhere(keys, entry_fault(entries), k);
        no_fault_anywhere(keys, identity_fault(ids), k);
        assert(entry_fault(entries)(key) is None);
        assert(identity_fault(ids)(key) is None);
        assert(ids.dom().contains(key));
        assert(ids.contains_key(key));
    }
}

/// An edge that was read is written as it was spelled.
proof fn edges_are_spelled_again(lock: LockModel, name: Seq<char>, value: Seq<char>)
    requires
        is_sound(lock),
        is_edge_spelling(name, value),
        lock.packages.contains_key(edge_key_of(name, value)),
    ensures
        edge_value_of(name, rebuilt_ids(lock)[edge_key_of(name, value)]) == value,
{
}

proof fn entries_are_spelled_again(lock: LockModel, key: Seq<char>)
    requires
        loaded(lock) is Ok,
        lock.packages.dom().finite(),
        is_sound(lock),
        lock.packages.contains_key(key),
        is_entry_spelling(lock.packages[key]),
    ensures
        entry_of(
            loaded_package(lock.packages[key], rebuilt_ids(lock), rebuilt_ids(lock)[key]),
        ) == lock.packages[key],
{
    let entries = lock.packages;
    let entry = entries[key];
    let ids = rebuilt_ids(lock);
    let keys = in_order::<String>(entries.dom());
    in_order_lists::<String>(entries.dom());
    assert(keys.to_set().contains(key));
    let k = keys.index_of(key);
    no_fault_anywhere(keys, edge_fault(entries), k);
    assert(edge_fault(entries)(key) is None);
    let deps = in_order::<String>(entry.dependencies.dom());
    let peers = in_order::<String>(entry.peers.dom());
    in_order_lists::<String>(entry.dependencies.dom());
    in_order_lists::<String>(entry.peers.dom());
    let again = entry_of(loaded_package(entry, ids, ids[key]));
    assert(again.dependencies =~= entry.dependencies) by {
        assert forall|name: Seq<char>| #[trigger] entry.dependencies.contains_key(name) implies
            again.dependencies.contains_key(name) && again.dependencies[name]
            == entry.dependencies[name] by {
            assert(deps.to_set().contains(name));
            let d = deps.index_of(name);
            no_fault_anywhere(deps, dependency_fault(entries, key), d);
            assert(dependency_fault(entries, key)(name) is None);
            edges_are_spelled_again(lock, name, entry.dependencies[name]);
        }
    }
    assert(again.peers =~= entry.peers) by {
        assert forall|name: Seq<char>| #[trigger] entry.peers.contains_key(name) implies
            again.peers.contains_key(name) && again.peers[name] == entry.peers[name] by {
            assert(peers.to_set().contains(name));
            let p = peers.index_of(name);
            no_fault_anywhere(peers, peer_fault(entries, key), p);
            assert(peer_fault(entries, key)(name) is None);
        }
    }
}

/// Which packages are read.
proof fn packages_are_read(
    entries: Map<Seq<char>, EntryModel>,
    ids: NamesOf<Seq<char>>,
    keys: Seq<Seq<char>>,
)
    requires
        keys.no_duplicates(),
        forall|i: int| 0 <= i < keys.len() ==> rendered(ids[#[trigger] keys[i]]) == keys[i],
    ensures
        loaded_packages(entries, ids, keys).dom().finite(),
        forall|i: int|
            0 <= i < keys.len() ==> loaded_packages(entries, ids, keys).contains_key(
                ids[#[trigger] keys[i]],
            ) && loaded_packages(entries, ids, keys)[ids[keys[i]]] == loaded_package(
                entries[keys[i]],
                ids,
                ids[keys[i]],
            ),
        forall|id: IdModel| #[trigger]
            loaded_packages(entries, ids, keys).contains_key(id) ==> exists|i: int|
                0 <= i < keys.len() && id == ids[#[trigger] keys[i]],
    decreases keys.len(),
{
    if keys.len() > 0 {
        let rest = keys.drop_last();
        assert forall|i: int| 0 <= i < rest.len() implies rendered(ids[#[trigger] rest[i]])
            == rest[i] by {
            assert(rest[i] == keys[i]);
        }
        packages_are_read(entries, ids, rest);
        let before = loaded_packages(entries, ids, rest);
        let after = loaded_packages(entries, ids, keys);
        let last = keys[keys.len() - 1];
        assert forall|i: int| 0 <= i < keys.len() implies after.contains_key(
            ids[#[trigger] keys[i]],
        ) && after[ids[keys[i]]] == loaded_package(entries[keys[i]], ids, ids[keys[i]]) by {
            if i < rest.len() {
                assert(rest[i] == keys[i]);
                assert(before.contains_key(ids[rest[i]]));
                assert(rendered(ids[last]) == last);
                assert(keys[i] != last);
            }
        }
        assert forall|id: IdModel| #[trigger] after.contains_key(id) implies exists|i: int|
            0 <= i < keys.len() && id == ids[#[trigger] keys[i]] by {
            if id == ids[last] {
                assert(id == ids[keys[keys.len() - 1]]);
            } else {
                assert(before.contains_key(id));
                let i = choose|i: int| 0 <= i < rest.len() && id == ids[#[trigger] rest[i]];
                assert(id == ids[keys[i]]);
            }
        }
    }
}

proof fn packages_are_written_again(lock: LockModel)
    requires
        loaded(lock) is Ok,
        is_spelling(lock),
        is_sound(lock),
    ensures
        lock_of(loaded(lock)->Ok_0).packages == lock.packages,
{
    let entries = lock.packages;
    let ids = rebuilt_ids(lock);
    let packages = (loaded(lock)->Ok_0).packages;
    read_packages_are_whole(lock);
    packages_are_recorded(packages);
    let again = lock_of(loaded(lock)->Ok_0).packages;
    assert(records(packages, again));
    assert forall|key: Seq<char>| #[trigger] entries.contains_key(key) implies again.contains_key(
        key,
    ) && again[key] == entries[key] by {
        assert(packages.contains_key(ids[key]));
        assert(again.contains_key(rendered(ids[key])));
        entries_are_spelled_again(lock, key);
    }
    assert forall|key: Seq<char>| #[trigger] again.contains_key(key) implies entries.contains_key(
        key,
    ) by {
        let id = choose|id: IdModel| #[trigger] packages.contains_key(id) && rendered(id) == key;
        assert(packages.contains_key(id));
    }
    assert(again =~= entries);
}

/// Do the keys of a lockfile and the packages of the graph it was read as match
/// one to one, and does every edge of the graph, to a dependency or to a peer,
/// end at one of them?
pub open spec fn is_read_whole(lock: LockModel, graph: GraphModel) -> bool {
    let ids = rebuilt_ids(lock);
    &&& forall|key: Seq<char>| #[trigger]
        lock.packages.contains_key(key) ==> graph.packages.contains_key(ids[key]) && rendered(
            ids[key],
        ) == key
    &&& forall|id: IdModel| #[trigger]
        graph.packages.contains_key(id) ==> {
            &&& lock.packages.contains_key(rendered(id))
            &&& ids[rendered(id)] == id
            &&& graph.packages[id].id == id
        }
    &&& edges_end_inside(graph)
    &&& forall|id: IdModel, name: Seq<char>|
        graph.packages.contains_key(id) && #[trigger] graph.packages[id].peers.contains_key(name)
            ==> graph.packages.contains_key(graph.packages[id].peers[name])
}

/// Are the entries of a lockfile ones that can be written down?
pub open spec fn is_finite_lock(lock: LockModel) -> bool {
    &&& lock.packages.dom().finite()
    &&& lock.importers.dom().finite()
    &&& forall|key: Seq<char>| #[trigger]
        lock.packages.contains_key(key) ==> lock.packages[key].dependencies.dom().finite()
            && lock.packages[key].peers.dom().finite()
    &&& forall|path: Seq<char>| #[trigger]
        lock.importers.contains_key(path) ==> lock.importers[path].dependencies.dom().finite()
            && lock.importers[path].dev_dependencies.dom().finite()
}

/// Every lockfile can be written down.
pub proof fn locks_are_finite(on_disk: &OnDisk)
    ensures
        is_finite_lock(on_disk.deep_view()),
{
    let lock = on_disk.deep_view();
    on_disk.packages.is_finite();
    on_disk.importers.is_finite();
    assert forall|key: Seq<char>| #[trigger] lock.packages.contains_key(key) implies
        lock.packages[key].dependencies.dom().finite()
        && lock.packages[key].peers.dom().finite() by {
        let entry = on_disk.packages.held_under(key);
        assert(lock.packages[key] == entry.deep_view());
        entry.dependencies.is_finite();
        entry.peers.is_finite();
    }
    assert forall|path: Seq<char>| #[trigger] lock.importers.contains_key(path) implies
        lock.importers[path].dependencies.dom().finite()
        && lock.importers[path].dev_dependencies.dom().finite() by {
        let importer = on_disk.importers.held_under(path);
        assert(lock.importers[path] == importer.deep_view());
        importer.dependencies.is_finite();
        importer.dev_dependencies.is_finite();
    }
}

proof fn read_packages_are_whole(lock: LockModel)
    requires
        loaded(lock) is Ok,
        lock.packages.dom().finite(),
        is_sound(lock),
    ensures
        ({
            let packages = (loaded(lock)->Ok_0).packages;
            let ids = rebuilt_ids(lock);
            &&& packages.dom().finite()
            &&& forall|key: Seq<char>| #[trigger]
                lock.packages.contains_key(key) ==> packages.contains_key(ids[key])
                    && packages[ids[key]] == loaded_package(lock.packages[key], ids, ids[key])
            &&& forall|id: IdModel| #[trigger]
                packages.contains_key(id) ==> lock.packages.contains_key(rendered(id))
                    && ids[rendered(id)] == id && packages[id].id == id
        }),
{
    let entries = lock.packages;
    let ids = rebuilt_ids(lock);
    let keys = in_order::<String>(entries.dom());
    in_order_lists::<String>(entries.dom());
    let packages = (loaded(lock)->Ok_0).packages;
    assert forall|i: int| 0 <= i < keys.len() implies rendered(ids[#[trigger] keys[i]])
        == keys[i] by {
        assert(keys.to_set().contains(keys[i]));
        assert(entries.contains_key(keys[i]));
    }
    packages_are_read(entries, ids, keys);
    assert forall|key: Seq<char>| #[trigger] entries.contains_key(key) implies
        packages.contains_key(ids[key]) && packages[ids[key]] == loaded_package(
        entries[key],
        ids,
        ids[key],
    ) by {
        assert(keys.to_set().contains(key));
        let k = keys.index_of(key);
        assert(packages.contains_key(ids[keys[k]]));
    }
    assert forall|id: IdModel| #[trigger] packages.contains_key(id) implies entries.contains_key(
        rendered(id),
    ) && ids[rendered(id)] == id && packages[id].id == id by {
        let i = choose|i: int| 0 <= i < keys.len() && id == ids[#[trigger] keys[i]];
        assert(rendered(ids[keys[i]]) == keys[i]);
        assert(keys.to_set().contains(keys[i]));
        assert(entries.contains_key(keys[i]));
    }
}

proof fn read_sections_end_inside(lock: LockModel, raws: Seq<Seq<char>>)
    requires
        are_of_keys(rebuilt_ids(lock), lock.packages.dom()),
        is_finite_lock(lock),
        forall|i: int| 0 <= i < raws.len() ==> lock.importers.contains_key(#[trigger] raws[i]),
        loaded_importers(lock.importers, rebuilt_ids(lock), raws) is Ok,
    ensures
        ({
            let read = loaded_importers(lock.importers, rebuilt_ids(lock), raws)->Ok_0;
            forall|path: Seq<char>, name: Seq<char>|
                read.contains_key(path) && #[trigger] read[path].contains_key(name)
                    && read[path][name].resolution is Registry ==> exists|key: Seq<char>| #[trigger]
                    lock.packages.contains_key(key) && rebuilt_ids(lock)[key]
                        == read[path][name].resolution->Registry_0
        }),
    decreases raws.len(),
{
    if raws.len() > 0 {
        let rest = raws.drop_last();
        assert forall|i: int| 0 <= i < rest.len() implies lock.importers.contains_key(
            #[trigger] rest[i],
        ) by {
            assert(rest[i] == raws[i]);
        }
        read_sections_end_inside(lock, rest);
        let ids = rebuilt_ids(lock);
        let raw = raws[raws.len() - 1];
        assert(lock.importers.contains_key(raw));
        let importer = lock.importers[raw];
        let (path, all) = loaded_importer(raw, importer, ids)->Ok_0;
        let dev = importer.dev_dependencies;
        let prod = importer.dependencies;
        let dev_names = in_order::<String>(dev.dom());
        let prod_names = in_order::<String>(prod.dom());
        let half = loaded_section(raw, path, Kind::Dev, dev, dev_names, ids, Map::empty())->Ok_0;
        sections_are_read(raw, path, Kind::Dev, dev, dev_names, ids, Map::empty());
        sections_are_read(raw, path, Kind::Prod, prod, prod_names, ids, half);
        assert forall|name: Seq<char>| #[trigger]
            all.contains_key(name) && all[name].resolution is Registry implies exists|
            key: Seq<char>,
        | #[trigger]
            lock.packages.contains_key(key) && ids[key] == all[name].resolution->Registry_0 by {
            let version = if prod_names.contains(name) {
                prod[name].version
            } else {
                dev[name].version
            };
            if !prod_names.contains(name) {
                assert(half.contains_key(name));
                assert(dev_names.contains(name));
                assert(all[name] == half[name]);
            }
            assert(loaded_resolution(raw, path, name, version, ids) == Ok::<
                ResolutionModel,
                LockfileFault,
            >(all[name].resolution));
            let key = edge_key_of(name, version);
            assert(ids.contains_key(key));
            assert(lock.packages.dom().contains(key));
            assert(lock.packages.contains_key(key));
        }
        let read = loaded_importers(lock.importers, ids, raws)->Ok_0;
        let before = loaded_importers(lock.importers, ids, rest)->Ok_0;
        assert forall|p: Seq<char>, name: Seq<char>|
            read.contains_key(p) && #[trigger] read[p].contains_key(name)
                && read[p][name].resolution is Registry implies exists|key: Seq<char>| #[trigger]
            lock.packages.contains_key(key) && ids[key] == read[p][name].resolution->Registry_0 by {
            if p == path {
                assert(all.contains_key(name));
            } else {
                assert(before[p].contains_key(name));
            }
        }
    }
}

/// A graph that was read is whole: its packages and the keys of the lockfile
/// match one to one, and nothing in it dangles.
pub proof fn what_is_read_is_whole(lock: LockModel, graph: GraphModel)
    requires
        is_finite_lock(lock),
        loaded(lock) == Ok::<GraphModel, LockfileFault>(graph),
    ensures
        is_sound(lock),
        is_read_whole(lock, graph),
{
    what_is_read_is_sound(lock);
    read_packages_are_whole(lock);
    let entries = lock.packages;
    let ids = rebuilt_ids(lock);
    let keys = in_order::<String>(entries.dom());
    in_order_lists::<String>(entries.dom());
    assert forall|id: IdModel| #[trigger] graph.packages.contains_key(id) implies edge_fault(
        entries,
    )(rendered(id)) is None by {
        assert(keys.to_set().contains(rendered(id)));
        let k = keys.index_of(rendered(id));
        no_fault_anywhere(keys, edge_fault(entries), k);
    }
    assert forall|id: IdModel, name: Seq<char>|
        graph.packages.contains_key(id) && #[trigger] graph.packages[id].dependencies.contains_key(
            name,
        ) implies graph.packages.contains_key(graph.packages[id].dependencies[name]) by {
        let key = rendered(id);
        let entry = entries[key];
        assert(entries.contains_key(key));
        assert(graph.packages[id] == loaded_package(entry, ids, id));
        let deps = in_order::<String>(entry.dependencies.dom());
        in_order_lists::<String>(entry.dependencies.dom());
        assert(deps.to_set().contains(name));
        let d = deps.index_of(name);
        assert(edge_fault(entries)(key) is None);
        no_fault_anywhere(deps, dependency_fault(entries, key), d);
        assert(dependency_fault(entries, key)(name) is None);
        assert(entries.contains_key(edge_key_of(name, entry.dependencies[name])));
    }
    assert forall|id: IdModel, name: Seq<char>|
        graph.packages.contains_key(id) && #[trigger] graph.packages[id].peers.contains_key(
            name,
        ) implies graph.packages.contains_key(graph.packages[id].peers[name]) by {
        let key = rendered(id);
        let entry = entries[key];
        assert(entries.contains_key(key));
        assert(graph.packages[id] == loaded_package(entry, ids, id));
        let peers = in_order::<String>(entry.peers.dom());
        in_order_lists::<String>(entry.peers.dom());
        assert(peers.to_set().contains(name));
        let p = peers.index_of(name);
        assert(edge_fault(entries)(key) is None);
        no_fault_anywhere(peers, peer_fault(entries, key), p);
        assert(peer_fault(entries, key)(name) is None);
        assert(entries.contains_key(entry.peers[name]));
    }
    let raws = in_order::<String>(lock.importers.dom());
    in_order_lists::<String>(lock.importers.dom());
    assert forall|i: int| 0 <= i < raws.len() implies lock.importers.contains_key(
        #[trigger] raws[i],
    ) by {
        assert(raws.to_set().contains(raws[i]));
    }
    read_sections_end_inside(lock, raws);
    assert forall|path: Seq<char>, name: Seq<char>|
        graph.importers.contains_key(path) && #[trigger] graph.importers[path].contains_key(name)
            && graph.importers[path][name].resolution is Registry implies graph.packages.contains_key(
    graph.importers[path][name].resolution->Registry_0) by {
        let key = choose|key: Seq<char>| #[trigger]
            lock.packages.contains_key(key) && ids[key]
                == graph.importers[path][name].resolution->Registry_0;
        assert(lock.packages.contains_key(key));
    }
}

/// What a section is read as.
proof fn sections_are_read(
    raw: Seq<char>,
    path: Seq<char>,
    kind: Kind,
    section: Map<Seq<char>, LockedModel>,
    names: Seq<Seq<char>>,
    ids: NamesOf<Seq<char>>,
    before: ImporterModel,
)
    requires
        loaded_section(raw, path, kind, section, names, ids, before) is Ok,
    ensures
        ({
            let read = loaded_section(raw, path, kind, section, names, ids, before)->Ok_0;
            &&& forall|name: Seq<char>| #[trigger]
                read.contains_key(name) <==> before.contains_key(name) || names.contains(name)
            &&& forall|name: Seq<char>|
                !names.contains(name) && before.contains_key(name) ==> #[trigger] read[name]
                    == before[name]
            &&& forall|name: Seq<char>|
                names.contains(name) ==> (#[trigger] read[name]).kind == kind
                    && read[name].specifier == section[name].specifier && loaded_resolution(
                    raw,
                    path,
                    name,
                    section[name].version,
                    ids,
                ) == Ok::<ResolutionModel, LockfileFault>(read[name].resolution)
        }),
    decreases names.len(),
{
    if names.len() > 0 {
        let rest = names.drop_last();
        sections_are_read(raw, path, kind, section, rest, ids, before);
        let so_far = loaded_section(raw, path, kind, section, rest, ids, before)->Ok_0;
        let read = loaded_section(raw, path, kind, section, names, ids, before)->Ok_0;
        let last = names[names.len() - 1];
        assert forall|name: Seq<char>| names.contains(name) <==> rest.contains(name) || name
            == last by {
            if names.contains(name) {
                let k = names.index_of(name);
                if k < rest.len() {
                    assert(rest[k] == name);
                }
            }
            if rest.contains(name) {
                let k = rest.index_of(name);
                assert(names[k] == name);
            }
            assert(names[names.len() - 1] == last);
        }
    }
}

/// A dependency that was read is written as it was spelled.
proof fn dependencies_are_spelled_again(
    lock: LockModel,
    raw: Seq<char>,
    name: Seq<char>,
    locked: LockedModel,
    dependency: DependencyModel,
)
    requires
        is_sound(lock),
        are_of_keys(rebuilt_ids(lock), lock.packages.dom()),
        opens_with(locked.version, LINK_PREFIX@) || is_edge_spelling(name, locked.version),
        dependency.specifier == locked.specifier,
        loaded_resolution(raw, raw, name, locked.version, rebuilt_ids(lock)) == Ok::<
            ResolutionModel,
            LockfileFault,
        >(dependency.resolution),
    ensures
        locked_of(name, dependency) == locked,
{
    if opens_with(locked.version, LINK_PREFIX@) {
        let n = LINK_PREFIX@.len() as int;
        assert(LINK_PREFIX@ + locked.version.skip(n) =~= locked.version);
    } else {
        assert(rebuilt_ids(lock).contains_key(edge_key_of(name, locked.version)));
        assert(lock.packages.dom().contains(edge_key_of(name, locked.version)));
        edges_are_spelled_again(lock, name, locked.version);
    }
}

proof fn projects_are_written_again(lock: LockModel, raw: Seq<char>)
    requires
        is_sound(lock),
        are_of_keys(rebuilt_ids(lock), lock.packages.dom()),
        is_importer(raw),
        is_importer_spelling(lock.importers[raw]),
        loaded_importer(raw, lock.importers[raw], rebuilt_ids(lock)) is Ok,
    ensures
        (loaded_importer(raw, lock.importers[raw], rebuilt_ids(lock))->Ok_0).0 == raw,
        locked_importer_of(
            (loaded_importer(raw, lock.importers[raw], rebuilt_ids(lock))->Ok_0).1,
        ) == lock.importers[raw],
{
    reading_is_idempotent(raw);
    let ids = rebuilt_ids(lock);
    let importer = lock.importers[raw];
    let dev = importer.dev_dependencies;
    let prod = importer.dependencies;
    let dev_names = in_order::<String>(dev.dom());
    let prod_names = in_order::<String>(prod.dom());
    in_order_lists::<String>(dev.dom());
    in_order_lists::<String>(prod.dom());
    let half = loaded_section(raw, raw, Kind::Dev, dev, dev_names, ids, Map::empty())->Ok_0;
    sections_are_read(raw, raw, Kind::Dev, dev, dev_names, ids, Map::empty());
    sections_are_read(raw, raw, Kind::Prod, prod, prod_names, ids, half);
    let all = (loaded_importer(raw, importer, ids)->Ok_0).1;
    assert forall|name: Seq<char>| dev_names.contains(name) == dev.contains_key(name) by {
        assert(dev_names.to_set().contains(name) == dev.dom().contains(name));
    }
    assert forall|name: Seq<char>| prod_names.contains(name) == prod.contains_key(name) by {
        assert(prod_names.to_set().contains(name) == prod.dom().contains(name));
    }
    assert forall|name: Seq<char>| #[trigger] prod.contains_key(name) implies all.contains_key(name)
        && all[name].kind == Kind::Prod && locked_of(name, all[name]) == prod[name] by {
        assert(prod_names.contains(name));
        dependencies_are_spelled_again(lock, raw, name, prod[name], all[name]);
    }
    assert forall|name: Seq<char>| #[trigger] dev.contains_key(name) implies all.contains_key(name)
        && all[name].kind == Kind::Dev && locked_of(name, all[name]) == dev[name] by {
        assert(dev_names.contains(name));
        assert(dev.dom().contains(name));
        assert(!prod.dom().contains(name));
        assert(!prod_names.contains(name));
        assert(half.contains_key(name));
        assert(all[name] == half[name]);
        dependencies_are_spelled_again(lock, raw, name, dev[name], all[name]);
    }
    assert forall|name: Seq<char>| #[trigger] all.contains_key(name) implies dev.contains_key(name)
        || prod.contains_key(name) by {
        if !prod_names.contains(name) {
            assert(half.contains_key(name));
            assert(dev_names.contains(name));
        }
    }
    assert(section_of(all, Kind::Prod) =~= prod);
    assert(section_of(all, Kind::Dev) =~= dev);
}

proof fn all_projects_are_written_again(lock: LockModel, raws: Seq<Seq<char>>)
    requires
        is_sound(lock),
        are_of_keys(rebuilt_ids(lock), lock.packages.dom()),
        forall|i: int|
            0 <= i < raws.len() ==> is_importer(#[trigger] raws[i]) && is_importer_spelling(
                lock.importers[raws[i]],
            ),
        loaded_importers(lock.importers, rebuilt_ids(lock), raws) is Ok,
    ensures
        ({
            let read = loaded_importers(lock.importers, rebuilt_ids(lock), raws)->Ok_0;
            &&& forall|path: Seq<char>| #[trigger] read.contains_key(path) <==> raws.contains(path)
            &&& forall|path: Seq<char>|
                raws.contains(path) ==> locked_importer_of(#[trigger] read[path])
                    == lock.importers[path]
        }),
    decreases raws.len(),
{
    if raws.len() > 0 {
        let rest = raws.drop_last();
        assert forall|i: int| 0 <= i < rest.len() implies is_importer(#[trigger] rest[i])
            && is_importer_spelling(lock.importers[rest[i]]) by {
            assert(rest[i] == raws[i]);
        }
        all_projects_are_written_again(lock, rest);
        let last = raws[raws.len() - 1];
        assert(is_importer(last));
        projects_are_written_again(lock, last);
        assert forall|path: Seq<char>| raws.contains(path) <==> rest.contains(path) || path
            == last by {
            if raws.contains(path) {
                let k = raws.index_of(path);
                if k < rest.len() {
                    assert(rest[k] == path);
                }
            }
            if rest.contains(path) {
                let k = rest.index_of(path);
                assert(raws[k] == path);
            }
            assert(raws[raws.len() - 1] == last);
        }
    }
}

/// A lockfile that is spelled the way one is written comes out the same when
/// it is read and written again.
pub proof fn reading_and_writing_changes_nothing(lock: LockModel, graph: GraphModel)
    requires
        is_spelling(lock),
        loaded(lock) == Ok::<GraphModel, LockfileFault>(graph),
    ensures
        lock_of(graph) == lock,
{
    what_is_read_is_sound(lock);
    packages_are_written_again(lock);
    let raws = in_order::<String>(lock.importers.dom());
    in_order_lists::<String>(lock.importers.dom());
    assert forall|i: int| 0 <= i < raws.len() implies is_importer(#[trigger] raws[i])
        && is_importer_spelling(lock.importers[raws[i]]) by {
        assert(raws.to_set().contains(raws[i]));
        assert(lock.importers.contains_key(raws[i]));
    }
    all_projects_are_written_again(lock, raws);
    assert forall|path: Seq<char>| raws.contains(path) == lock.importers.contains_key(path) by {
        assert(raws.to_set().contains(path) == lock.importers.dom().contains(path));
    }
    assert(lock_of(graph).importers =~= lock.importers);
}

/// Can an identity be spelled in a lockfile: does its key come apart into its
/// name and its version, and its version not come apart any further?
pub open spec fn is_spellable(id: IdModel) -> bool {
    &&& key_parts(rendered(id)) == Some((id.name, id.version))
    &&& !id.version.contains('@')
    &&& !id.version.contains('(')
    &&& is_sound_key(id)
}

/// Is this a graph that can be written down, with every edge ending inside it,
/// no two packages under one key, no bracket in a name, and whole hashes?
pub open spec fn can_be_spelled(graph: GraphModel) -> bool {
    &&& graph.packages.dom().finite()
    &&& graph.importers.dom().finite()
    &&& edges_end_inside(graph)
    &&& keys_are_apart(graph.packages)
    &&& forall|id: IdModel| #[trigger]
        graph.packages.contains_key(id) ==> {
            let package = graph.packages[id];
            &&& package.id == id
            &&& !id.name.contains('(')
            &&& is_sound_key(id)
            &&& package.integrity.digest.len() == package.integrity.algo.spec_digest_len()
            &&& hash_reads_back(package.integrity)
            &&& package.dependencies.dom().finite()
            &&& package.peers.dom().finite()
        }
    &&& forall|path: Seq<char>| #[trigger]
        graph.importers.contains_key(path) ==> is_importer(path)
            && graph.importers[path].dom().finite()
}

proof fn marks()
    ensures
        "@"@ == seq!['@'],
        "_"@ == seq!['_'],
{
    reveal_strlit("@");
    reveal_strlit("_");
    assert("@"@ =~= seq!['@']);
    assert("_"@ =~= seq!['_']);
}

/// A text that comes apart is its two halves around the last `@`.
proof fn halves_make_the_whole(text: Seq<char>, name: Seq<char>, version: Seq<char>)
    requires
        name_and_version(text) == Some((name, version)),
    ensures
        text == name + seq!['@'] + version,
        !version.contains('@'),
        version.len() > 0,
        name.len() > 0,
{
    last_exists(text, '@');
    let i = choose|i: int| is_last(text, '@', i);
    cut_last_at(text, '@', i);
    assert(text =~= name + seq!['@'] + version);
    assert forall|j: int| 0 <= j < version.len() implies version[j] != '@' by {
        assert(text[i + 1 + j] == version[j]);
    }
}

/// A text whose tail has no `@` comes apart in front of the tail.
proof fn bases_come_apart(name: Seq<char>, version: Seq<char>, n: Seq<char>, v: Seq<char>)
    requires
        !version.contains('@'),
        name_and_version(name + seq!['@'] + version) == Some((n, v)),
    ensures
        n == name,
        v == version,
{
    let text = name + seq!['@'] + version;
    let i = name.len() as int;
    assert forall|j: int| i < j < text.len() implies text[j] != '@' by {
        assert(text[j] == version[j - i - 1]);
        assert(version.contains(version[j - i - 1]));
    }
    cut_last_at(text, '@', i);
    assert(text.take(i) =~= name);
    assert(text.skip(i + 1) =~= version);
}

/// A key that comes apart into a package's version and some name comes apart
/// into its own name, if there is no bracket in that.
proof fn keys_come_apart_rightly(id: IdModel, n: Seq<char>)
    requires
        !id.name.contains('('),
        is_sound_key(id),
        key_parts(rendered(id)) == Some((n, id.version)),
    ensures
        is_spellable(id),
{
    marks();
    let key = rendered(id);
    let name = id.name;
    let version = id.version;
    let base = name + "@"@ + version;
    let b = base.len() as int;
    let suffix = rendered_context(id.context);
    assert(base =~= name + seq!['@'] + version);
    if key.contains('(') {
        first_exists(key, '(');
        let p = choose|p: int| is_first(key, '(', p);
        cut_first_at(key, '(', p);
        let head = key.take(p);
        halves_make_the_whole(head, n, version);
        assert forall|j: int| 0 <= j < version.len() implies version[j] != '(' by {
            let at = n.len() + 1 + j;
            assert(head[at] == version[j]);
            assert(key[at] == head[at]);
        }
        assert(!version.contains('('));
        assert(!base.contains('(')) by {
            assert forall|j: int| 0 <= j < base.len() implies base[j] != '(' by {
                if j < name.len() {
                    assert(name.contains(name[j]));
                } else if j > name.len() {
                    assert(version.contains(version[j - name.len() - 1]));
                }
            }
        }
        assert(id.context.len() > 0);
        context_opens(id.context);
        if encode_utf8(base + suffix).len() <= MAX_KEY_BYTES {
            assert(key == base + suffix);
            assert(key[b] == '(');
            assert(p == b) by {
                if p < b {
                    assert(key[p] == base[p]);
                    assert(base.contains(base[p]));
                }
            }
            assert(head =~= base);
        } else {
            let hash = context_digest(suffix);
            hex_text_is_hex(sha512_of(encode_utf8(suffix)).take(8));
            assert(key == base + "_"@ + hash);
            if p < b {
                assert(key[p] == base[p]);
                assert(base.contains(base[p]));
            } else if p > b {
                assert(key[p] == hash[p - b - 1]);
            }
        }
        bases_come_apart(name, version, n, version);
    } else {
        assert(!version.contains('(')) by {
            assert forall|j: int| 0 <= j < version.len() implies version[j] != '(' by {
                let at = name.len() + 1 + j;
                keys_open_with_their_base(id);
                assert(key.take(b)[at] == base[at]);
                assert(key.contains(key[at]));
            }
        }
        let text = without_hash(key);
        halves_make_the_whole(text, n, version);
        if id.context.len() == 0 {
            assert(key == base);
            if text != base {
                last_exists(base, '_');
                let q = choose|q: int| is_last(base, '_', q);
                cut_last_at(base, '_', q);
                let tail = base.skip(q + 1);
                assert(text == base.take(q));
                assert(is_collapsed(tail));
                let c = name.len() as int;
                assert(base[c] == '@');
                if c > q {
                    assert(tail[c - q - 1] == '@');
                    assert(is_hex_digit(tail[c - q - 1]));
                }
                assert(c < q);
                assert(text =~= name + seq!['@'] + version.take(q - c - 1));
                let part = version.take(q - c - 1);
                assert(!part.contains('@')) by {
                    assert forall|j: int| 0 <= j < part.len() implies part[j] != '@' by {
                        assert(part[j] == version[j]);
                        assert(version.contains(version[j]));
                    }
                }
                bases_come_apart(name, version.take(q - c - 1), n, version);
                assert(version.take(q - c - 1).len() < version.len());
            }
            bases_come_apart(name, version, n, version);
        } else {
            context_opens(id.context);
            if encode_utf8(base + suffix).len() <= MAX_KEY_BYTES {
                assert(key[b] == '(');
                assert(key.contains(key[b]));
            } else {
                let hash = context_digest(suffix);
                hex_text_is_hex(sha512_of(encode_utf8(suffix)).take(8));
                assert(key == base + "_"@ + hash);
                assert(key[b] == '_');
                assert forall|j: int| b < j < key.len() implies key[j] != '_' by {
                    assert(key[j] == hash[j - b - 1]);
                    assert(is_hex_digit(hash[j - b - 1]));
                }
                cut_last_at(key, '_', b);
                assert(key.skip(b + 1) =~= hash);
                assert(key.take(b) =~= base);
            }
            bases_come_apart(name, version, n, version);
        }
    }
}

/// An edge is written the way it is spelled.
proof fn edges_are_spelled(name: Seq<char>, id: IdModel)
    requires
        is_spellable(id),
    ensures
        is_edge_spelling(name, edge_value_of(name, id)),
{
    marks();
    let key = rendered(id);
    if id.name == name {
        let value = edge_value_of(name, id);
        let version = id.version;
        let n = name.len() as int;
        let v = version.len() as int;
        let base = id.name + "@"@ + version;
        keys_open_with_their_base(id);
        assert forall|j: int| 0 <= j < v implies value[j] == version[j] by {
            assert(key.take(base.len() as int)[n + 1 + j] == base[n + 1 + j]);
        }
        assert(key_parts(value) is None) by {
            if value.contains('(') {
                first_exists(value, '(');
                let p = choose|p: int| is_first(value, '(', p);
                cut_first_at(value, '(', p);
                let head = value.take(p);
                assert(!head.contains('@')) by {
                    tails_hold_no_mark(id, p);
                }
            } else {
                let text = without_hash(value);
                assert(!text.contains('@')) by {
                    tails_hold_no_mark(id, value.len() as int);
                    if text != value {
                        last_exists(value, '_');
                        let q = choose|q: int| is_last(value, '_', q);
                        cut_last_at(value, '_', q);
                        assert forall|j: int| 0 <= j < text.len() implies text[j] != '@' by {
                            assert(text[j] == value[j]);
                            assert(value.take(value.len() as int)[j] == value[j]);
                            assert(value.take(value.len() as int).contains(value[j]));
                        }
                    } else {
                        assert(value.take(value.len() as int) =~= value);
                    }
                }
            }
        }
        assert(name + "@"@ + value =~= key) by {
            assert(key.take(base.len() as int) == base);
            assert forall|j: int| 0 <= j <= n implies key[j] == (name + "@"@)[j] by {
                assert(key.take(base.len() as int)[j] == base[j]);
            }
        }
    }
}

/// What stands behind the name in a key has no `@` before the first bracket.
proof fn tails_hold_no_mark(id: IdModel, p: int)
    requires
        is_spellable(id),
        ({
            let value = rendered(id).skip(id.name.len() as int + 1);
            0 <= p <= value.len() && forall|j: int| 0 <= j < p ==> value[j] != '('
        }),
    ensures
        !rendered(id).skip(id.name.len() as int + 1).take(p).contains('@'),
{
    marks();
    let key = rendered(id);
    let n = id.name.len() as int;
    let base = id.name + "@"@ + id.version;
    let b = base.len() as int;
    let value = key.skip(n + 1);
    let head = value.take(p);
    keys_open_with_their_base(id);
    assert forall|j: int| 0 <= j < p implies head[j] != '@' by {
        if j < id.version.len() {
            assert(key.take(b)[n + 1 + j] == base[n + 1 + j]);
            assert(id.version.contains(id.version[j]));
        } else {
            let suffix = rendered_context(id.context);
            assert(id.context.len() == 0 ==> key == base);
            if id.context.len() > 0 {
                context_opens(id.context);
                if encode_utf8(base + suffix).len() <= MAX_KEY_BYTES {
                    assert(value[id.version.len() as int] == suffix[0]);
                } else {
                    let hash = context_digest(suffix);
                    hex_text_is_hex(sha512_of(encode_utf8(suffix)).take(8));
                    if j > id.version.len() {
                        assert(value[j] == hash[j - id.version.len() - 1]);
                    } else {
                        assert(value[j] == '_');
                    }
                }
            }
        }
    }
}

/// Where an entry comes from.
proof fn entries_come_from(packages: Map<IdModel, PackageModel>, ids: Seq<IdModel>)
    ensures
        entries_of(packages, ids).dom().finite(),
        forall|key: Seq<char>| #[trigger]
            entries_of(packages, ids).contains_key(key) ==> exists|i: int|
                0 <= i < ids.len() && entries_of(packages, ids)[key] == entry_of(
                    packages[#[trigger] ids[i]],
                ),
    decreases ids.len(),
{
    if ids.len() > 0 {
        let rest = ids.drop_last();
        entries_come_from(packages, rest);
        let before = entries_of(packages, rest);
        let after = entries_of(packages, ids);
        let last = ids[ids.len() - 1];
        assert forall|key: Seq<char>| #[trigger] after.contains_key(key) implies exists|i: int|
            0 <= i < ids.len() && after[key] == entry_of(packages[#[trigger] ids[i]]) by {
            if key == rendered(packages[last].id) {
                assert(after[key] == entry_of(packages[ids[ids.len() - 1]]));
            } else {
                assert(before.contains_key(key));
                let i = choose|i: int|
                    0 <= i < rest.len() && before[key] == entry_of(packages[#[trigger] rest[i]]);
                assert(after[key] == entry_of(packages[ids[i]]));
            }
        }
    }
}

/// What is written is spelled the way it is written.
proof fn graphs_are_spelled(graph: GraphModel)
    requires
        can_be_spelled(graph),
        forall|id: IdModel| #[trigger] graph.packages.contains_key(id) ==> is_spellable(id),
    ensures
        is_spelling(lock_of(graph)),
{
    let lock = lock_of(graph);
    let ids = in_order::<PackageId>(graph.packages.dom());
    in_order_lists::<PackageId>(graph.packages.dom());
    entries_come_from(graph.packages, ids);
    assert forall|key: Seq<char>| #[trigger] lock.packages.contains_key(key) implies
        is_entry_spelling(lock.packages[key]) by {
        let i = choose|i: int|
            0 <= i < ids.len() && lock.packages[key] == entry_of(
                graph.packages[#[trigger] ids[i]],
            );
        let id = ids[i];
        assert(ids.to_set().contains(id));
        assert(graph.packages.contains_key(id));
        let package = graph.packages[id];
        let entry = lock.packages[key];
        assert(entry.dependencies.dom() =~= package.dependencies.dom());
        assert(entry.peers.dom() =~= package.peers.dom());
        assert forall|name: Seq<char>| #[trigger] entry.dependencies.contains_key(name) implies
            is_edge_spelling(name, entry.dependencies[name]) by {
            assert(package.dependencies.contains_key(name));
            assert(graph.packages.contains_key(package.dependencies[name]));
            edges_are_spelled(name, package.dependencies[name]);
        }
    }
    assert(lock.importers.dom() =~= graph.importers.dom());
    assert forall|path: Seq<char>| #[trigger] lock.importers.contains_key(path) implies is_importer(
        path,
    ) && is_importer_spelling(lock.importers[path]) by {
        assert(graph.importers.contains_key(path));
        let importer = graph.importers[path];
        assert forall|kind: Kind| is_section_spelling(#[trigger] section_of(importer, kind)) by {
            let section = section_of(importer, kind);
            assert(section.dom().subset_of(importer.dom()));
            vstd::set_lib::lemma_set_subset_finite(importer.dom(), section.dom());
            assert forall|name: Seq<char>| #[trigger] section.contains_key(name) implies opens_with(
                section[name].version,
                LINK_PREFIX@,
            ) || is_edge_spelling(name, section[name].version) by {
                assert(importer.contains_key(name));
                match importer[name].resolution {
                    ResolutionModel::Registry(id) => {
                        assert(graph.packages.contains_key(id));
                        edges_are_spelled(name, id);
                    },
                    ResolutionModel::Local(target) => {
                        let n = LINK_PREFIX@.len() as int;
                        assert((LINK_PREFIX@ + target).take(n) =~= LINK_PREFIX@);
                    },
                }
            }
        }
        assert(is_section_spelling(section_of(importer, Kind::Prod)));
        assert(is_section_spelling(section_of(importer, Kind::Dev)));
    }
}

/// Every package of a graph whose lockfile can be read can be spelled.
proof fn what_was_read_is_spellable(graph: GraphModel, id: IdModel)
    requires
        can_be_spelled(graph),
        loaded(lock_of(graph)) is Ok,
        graph.packages.contains_key(id),
    ensures
        is_spellable(id),
{
    let lock = lock_of(graph);
    packages_are_recorded(graph.packages);
    what_is_read_is_sound(lock);
    let key = rendered(id);
    assert(lock.packages.contains_key(key));
    assert(lock.packages[key].version == id.version);
    keys_come_apart_rightly(id, rebuilt_ids(lock)[key].name);
}

/// A lockfile that was written, and read, and is written again is the same
/// lockfile, whatever versions the graph it was first written from holds.
pub proof fn a_lockfile_is_written_again_as_it_was(first: GraphModel, second: GraphModel)
    requires
        can_be_spelled(first),
        loaded(lock_of(first)) == Ok::<GraphModel, LockfileFault>(second),
    ensures
        lock_of(second) == lock_of(first),
{
    assert forall|id: IdModel| #[trigger] first.packages.contains_key(id) implies is_spellable(
        id,
    ) by {
        what_was_read_is_spellable(first, id);
    }
    graphs_are_spelled(first);
    reading_and_writing_changes_nothing(lock_of(first), second);
}

} // verus!
