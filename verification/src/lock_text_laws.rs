//! What stands in a lockfile.

use vstd::prelude::*;
use crate::graph::{GraphModel, ImporterModel, Kind, PackageModel, ResolutionModel};
use crate::importer::{depth_of, importer_reading};
use crate::integrity::{ssri_of, ssri_reading};
use crate::lockfile::{
    dependency_fault, edge_fault, edge_key_of, edge_value_of, entries_of, entry_fault, entry_of,
    first_fault, identity_fault, loaded, loaded_importers, loaded_section, lock_of,
    no_fault_anywhere, peer_fault, rebuilt_ids, stays_inside, EntryModel, LockModel, LockedModel,
    LockfileFault,
};
use crate::naming::NamesOf;
use crate::package_id::{key_parts, rendered, IdModel, PackageId};
use crate::sorted::{in_order, in_order_lists};

verus! {

/// An edge is recorded by the key of what it leads to, without the name where
/// that is the name of the edge.
pub proof fn edges_are_recorded_by_key(name: Seq<char>, id: IdModel)
    ensures
        id.name != name ==> edge_value_of(name, id) == rendered(id),
        id.name == name ==> name + "@"@ + edge_value_of(name, id) == rendered(id),
{
    if id.name == name {
        crate::record_laws::keys_open_with_their_base(id);
        reveal_strlit("@");
        let key = rendered(id);
        let n = name.len() as int;
        let base = id.name + "@"@ + id.version;
        assert(key.take(base.len() as int) == base);
        assert(key.take(n + 1) =~= name + "@"@) by {
            assert forall|i: int| 0 <= i < n + 1 implies key[i] == (name + "@"@)[i] by {
                assert(key.take(base.len() as int)[i] == base[i]);
            }
        }
        assert(name + "@"@ + key.skip(n + 1) =~= key);
    }
}

/// Does an entry of a lockfile record a package, field by field?
pub open spec fn records(entry: EntryModel, package: PackageModel) -> bool {
    &&& entry.version == package.id.version
    &&& entry.resolved == package.resolved
    &&& entry.integrity == ssri_of(package.integrity)
    &&& forall|name: Seq<char>| #[trigger]
        entry.dependencies.contains_key(name) <==> package.dependencies.contains_key(name)
    &&& forall|name: Seq<char>| #[trigger]
        entry.dependencies.contains_key(name) ==> entry.dependencies[name] == edge_value_of(
            name,
            package.dependencies[name],
        )
    &&& entry.optional_dependencies == package.optional_dependencies
    &&& entry.supports == package.supports
    &&& entry.bins == package.bins
    &&& forall|name: Seq<char>| #[trigger]
        entry.peers.contains_key(name) <==> package.peers.contains_key(name)
    &&& forall|name: Seq<char>| #[trigger]
        entry.peers.contains_key(name) ==> entry.peers[name] == rendered(package.peers[name])
    &&& entry.declared_peers == package.declared_peers
}

proof fn entries_record(packages: Map<IdModel, PackageModel>, ids: Seq<IdModel>)
    ensures
        forall|i: int|
            0 <= i < ids.len() ==> entries_of(packages, ids).contains_key(
                rendered(packages[#[trigger] ids[i]].id),
            ),
        forall|key: Seq<char>| #[trigger]
            entries_of(packages, ids).contains_key(key) ==> exists|i: int|
                0 <= i < ids.len() && rendered(packages[#[trigger] ids[i]].id) == key && records(
                    entries_of(packages, ids)[key],
                    packages[ids[i]],
                ),
    decreases ids.len(),
{
    if ids.len() > 0 {
        let shorter = ids.drop_last();
        let n = ids.len() - 1;
        entries_record(packages, shorter);
        let before = entries_of(packages, shorter);
        let after = entries_of(packages, ids);
        assert(records(entry_of(packages[ids[n]]), packages[ids[n]]));
        assert forall|i: int| 0 <= i < ids.len() implies after.contains_key(
            rendered(packages[#[trigger] ids[i]].id),
        ) by {
            if i < n {
                assert(shorter[i] == ids[i]);
            }
        }
        assert forall|key: Seq<char>| #[trigger] after.contains_key(key) implies exists|i: int|
            0 <= i < ids.len() && rendered(packages[#[trigger] ids[i]].id) == key && records(
                after[key],
                packages[ids[i]],
            ) by {
            if key == rendered(packages[ids[n]].id) {
                assert(ids[n] == ids.last());
            } else {
                assert(before.contains_key(key));
                let i = choose|i: int|
                    0 <= i < shorter.len() && rendered(packages[#[trigger] shorter[i]].id) == key
                        && records(before[key], packages[shorter[i]]);
                assert(ids[i] == shorter[i]);
            }
        }
    }
}

/// A lockfile holds an entry for every package, under its key, and no other,
/// and each entry records a package of that key, field by field.
pub proof fn every_package_is_recorded(graph: GraphModel, id: IdModel)
    requires
        graph.packages.dom().finite(),
        graph.packages.contains_key(id),
    ensures
        lock_of(graph).lockfile_version == 1,
        lock_of(graph).packages.contains_key(rendered(graph.packages[id].id)),
        forall|key: Seq<char>| #[trigger]
            lock_of(graph).packages.contains_key(key) ==> exists|of: IdModel| #[trigger]
                graph.packages.contains_key(of) && rendered(graph.packages[of].id) == key
                    && records(lock_of(graph).packages[key], graph.packages[of]),
{
    let ids = in_order::<PackageId>(graph.packages.dom());
    in_order_lists::<PackageId>(graph.packages.dom());
    entries_record(graph.packages, ids);
    assert(ids.to_set().contains(id));
    let k = ids.index_of(id);
    assert(ids[k] == id);
    assert forall|key: Seq<char>| #[trigger]
        lock_of(graph).packages.contains_key(key) implies exists|of: IdModel| #[trigger]
        graph.packages.contains_key(of) && rendered(graph.packages[of].id) == key && records(
            lock_of(graph).packages[key],
            graph.packages[of],
        ) by {
        let i = choose|i: int|
            0 <= i < ids.len() && rendered(graph.packages[#[trigger] ids[i]].id) == key && records(
                lock_of(graph).packages[key],
                graph.packages[ids[i]],
            );
        assert(ids.to_set().contains(ids[i]));
        assert(graph.packages.contains_key(ids[i]));
    }
}

/// A project's dependencies are recorded in the section that each is declared
/// in, under the name and the specifier it is declared with, and at what it
/// came to: a package by its key, and a member by the way to it.
pub proof fn every_dependency_is_recorded(graph: GraphModel, path: Seq<char>, name: Seq<char>)
    requires
        graph.importers.contains_key(path),
    ensures
        ({
            let lock = lock_of(graph);
            let sections = lock.importers[path];
            let importer = graph.importers[path];
            &&& lock.importers.dom() == graph.importers.dom()
            &&& sections.dependencies.contains_key(name) <==> importer.contains_key(name)
                && importer[name].kind == Kind::Prod
            &&& sections.dev_dependencies.contains_key(name) <==> importer.contains_key(name)
                && importer[name].kind == Kind::Dev
            &&& importer.contains_key(name) ==> {
                let entry = if importer[name].kind == Kind::Prod {
                    sections.dependencies[name]
                } else {
                    sections.dev_dependencies[name]
                };
                &&& entry.specifier == importer[name].specifier
                &&& entry.version == match importer[name].resolution {
                    ResolutionModel::Registry(id) => edge_value_of(name, id),
                    ResolutionModel::Local(way) => "link:"@ + way,
                }
            }
        }),
{
    assert(lock_of(graph).importers.dom() =~= graph.importers.dom());
}

/// A fault that is found is the fault of some key.
proof fn faults_have_a_key(keys: Seq<Seq<char>>, fault: spec_fn(Seq<char>) -> Option<LockfileFault>)
    requires
        first_fault(keys, fault) is Some,
    ensures
        exists|i: int| 0 <= i < keys.len() && fault(#[trigger] keys[i]) == first_fault(keys, fault),
    decreases keys.len(),
{
    if keys.len() > 0 {
        let shorter = keys.drop_last();
        if first_fault(shorter, fault) is Some {
            faults_have_a_key(shorter, fault);
            let i = choose|i: int|
                0 <= i < shorter.len() && fault(#[trigger] shorter[i]) == first_fault(
                    shorter,
                    fault,
                );
            assert(keys[i] == shorter[i]);
        } else {
            assert(keys[keys.len() - 1] == keys.last());
        }
    }
}

/// Does an entry of a lockfile lead to something that is not in it?
pub open spec fn dangles(lock: LockModel, key: Seq<char>) -> bool {
    let entry = lock.packages[key];
    ||| exists|name: Seq<char>| #[trigger]
        entry.dependencies.contains_key(name) && !lock.packages.contains_key(
            edge_key_of(name, entry.dependencies[name]),
        )
    ||| exists|name: Seq<char>| #[trigger]
        entry.peers.contains_key(name) && !lock.packages.contains_key(entry.peers[name])
}

/// A lockfile of another version is refused, and so is one with a key that is
/// none, an entry of another version than its key says, a hash that cannot be
/// used, or an edge that leads to nothing.
pub proof fn what_is_wrong_is_refused(lock: LockModel, key: Seq<char>)
    requires
        lock.packages.dom().finite(),
        lock.packages.contains_key(key),
        lock.packages[key].dependencies.dom().finite(),
        lock.packages[key].peers.dom().finite(),
    ensures
        lock.lockfile_version != 1 ==> loaded(lock) is Err && loaded(
            lock,
        )->Err_0 is UnsupportedVersion,
        key_parts(key) is None ==> loaded(lock) is Err,
        key_parts(key) is Some && (key_parts(key)->0).1 != lock.packages[key].version ==> loaded(
            lock,
        ) is Err,
        ssri_reading(lock.packages[key].integrity) is Err ==> loaded(lock) is Err,
        dangles(lock, key) ==> loaded(lock) is Err,
{
    let keys = in_order::<String>(lock.packages.dom());
    in_order_lists::<String>(lock.packages.dom());
    assert(keys.to_set().contains(key));
    let k = keys.index_of(key);
    assert(keys[k] == key);
    if loaded(lock) is Ok {
        let entry = lock.packages[key];
        no_fault_anywhere(keys, entry_fault(lock.packages), k);
        no_fault_anywhere(keys, edge_fault(lock.packages), k);
        assert(entry_fault(lock.packages)(key) is None);
        assert(edge_fault(lock.packages)(key) is None);
        let names = in_order::<String>(entry.dependencies.dom());
        in_order_lists::<String>(entry.dependencies.dom());
        assert forall|name: Seq<char>| #[trigger] entry.dependencies.contains_key(
            name,
        ) implies lock.packages.contains_key(edge_key_of(name, entry.dependencies[name])) by {
            assert(names.to_set().contains(name));
            let i = names.index_of(name);
            no_fault_anywhere(names, dependency_fault(lock.packages, key), i);
            assert(dependency_fault(lock.packages, key)(name) is None);
        }
        let peers = in_order::<String>(entry.peers.dom());
        in_order_lists::<String>(entry.peers.dom());
        assert forall|name: Seq<char>| #[trigger] entry.peers.contains_key(
            name,
        ) implies lock.packages.contains_key(entry.peers[name]) by {
            assert(peers.to_set().contains(name));
            let i = peers.index_of(name);
            no_fault_anywhere(peers, peer_fault(lock.packages, key), i);
            assert(peer_fault(lock.packages, key)(name) is None);
        }
    }
}

/// What a lockfile is refused over is really there.
pub proof fn refusals_are_real(lock: LockModel)
    requires
        lock.packages.dom().finite(),
        forall|key: Seq<char>| #[trigger]
            lock.packages.contains_key(key) ==> lock.packages[key].dependencies.dom().finite()
                && lock.packages[key].peers.dom().finite(),
        loaded(lock) is Err,
    ensures
        match loaded(lock)->Err_0 {
            LockfileFault::UnsupportedVersion { found, .. } => lock.lockfile_version == found
                && found != 1,
            LockfileFault::BadKey { entry } => lock.packages.contains_key(entry) && key_parts(
                entry,
            ) is None,
            LockfileFault::KeyVersionMismatch { entry, declared } => lock.packages.contains_key(
                entry,
            ) && lock.packages[entry].version == declared && key_parts(entry) is Some && (key_parts(
                entry,
            )->0).1 != declared,
            LockfileFault::BadIntegrity { entry, .. } => lock.packages.contains_key(entry)
                && ssri_reading(lock.packages[entry].integrity) is Err,
            LockfileFault::DanglingEdge { entry, dependency } => lock.packages.contains_key(entry)
                && !lock.packages.contains_key(dependency) && dangles(lock, entry),
            _ => true,
        },
{
    let keys = in_order::<String>(lock.packages.dom());
    in_order_lists::<String>(lock.packages.dom());
    assert forall|i: int| 0 <= i < keys.len() implies #[trigger] lock.packages.contains_key(
        keys[i],
    ) by {
        assert(keys.to_set().contains(keys[i]));
    }
    let first = entry_fault(lock.packages);
    let second = edge_fault(lock.packages);
    let third = identity_fault(rebuilt_ids(lock));
    if lock.lockfile_version == 1 {
        if first_fault(keys, first) is Some {
            faults_have_a_key(keys, first);
            let i = choose|i: int|
                0 <= i < keys.len() && first(#[trigger] keys[i]) == first_fault(keys, first);
            assert(lock.packages.contains_key(keys[i]));
        } else if first_fault(keys, second) is Some {
            faults_have_a_key(keys, second);
            let i = choose|i: int|
                0 <= i < keys.len() && second(#[trigger] keys[i]) == first_fault(keys, second);
            let key = keys[i];
            assert(lock.packages.contains_key(key));
            let entry = lock.packages[key];
            let names = in_order::<String>(entry.dependencies.dom());
            in_order_lists::<String>(entry.dependencies.dom());
            let edges = dependency_fault(lock.packages, key);
            if first_fault(names, edges) is Some {
                faults_have_a_key(names, edges);
                let k = choose|k: int|
                    0 <= k < names.len() && edges(#[trigger] names[k]) == first_fault(names, edges);
                assert(names.to_set().contains(names[k]));
                assert(entry.dependencies.contains_key(names[k]));
            } else {
                let peers = in_order::<String>(entry.peers.dom());
                in_order_lists::<String>(entry.peers.dom());
                let answers = peer_fault(lock.packages, key);
                faults_have_a_key(peers, answers);
                let k = choose|k: int|
                    0 <= k < peers.len() && answers(#[trigger] peers[k]) == first_fault(
                        peers,
                        answers,
                    );
                assert(peers.to_set().contains(peers[k]));
                assert(entry.peers.contains_key(peers[k]));
            }
        } else if first_fault(keys, third) is Some {
            faults_have_a_key(keys, third);
        } else {
            importers_fail_their_own_way(
                lock,
                rebuilt_ids(lock),
                in_order::<String>(lock.importers.dom()),
            );
        }
    }
}

proof fn sections_fail_their_own_way(
    raw: Seq<char>,
    path: Seq<char>,
    kind: Kind,
    section: Map<Seq<char>, LockedModel>,
    names: Seq<Seq<char>>,
    ids: NamesOf<Seq<char>>,
    before: ImporterModel,
)
    ensures
        match loaded_section(raw, path, kind, section, names, ids, before) {
            Err(fault) => fault is LinkEscapesWorkspace || fault is UnknownImporterDependency,
            Ok(all) => forall|name: Seq<char>| #[trigger]
                all.contains_key(name) && all[name].resolution is Local ==> stays_inside(
                    depth_of(path),
                    all[name].resolution->Local_0,
                ) || before.contains_key(name) && before[name] == all[name],
        },
    decreases names.len(),
{
    if names.len() > 0 {
        sections_fail_their_own_way(raw, path, kind, section, names.drop_last(), ids, before);
    }
}

proof fn importers_fail_their_own_way(
    lock: LockModel,
    ids: NamesOf<Seq<char>>,
    raws: Seq<Seq<char>>,
)
    ensures
        match loaded_importers(lock.importers, ids, raws) {
            Err(fault) => fault is LinkEscapesWorkspace || fault is UnknownImporterDependency
                || fault is BadImporter,
            Ok(all) => forall|path: Seq<char>, name: Seq<char>|
                all.contains_key(path) && #[trigger] all[path].contains_key(name)
                    && all[path][name].resolution is Local ==> stays_inside(
                    depth_of(path),
                    all[path][name].resolution->Local_0,
                ),
        },
    decreases raws.len(),
{
    if raws.len() > 0 {
        importers_fail_their_own_way(lock, ids, raws.drop_last());
        let raw = raws.last();
        let importer = lock.importers[raw];
        if let Ok(path) = importer_reading(raw) {
            let dev = in_order::<String>(importer.dev_dependencies.dom());
            sections_fail_their_own_way(
                raw,
                path,
                Kind::Dev,
                importer.dev_dependencies,
                dev,
                ids,
                Map::empty(),
            );
            if let Ok(first) = loaded_section(
                raw,
                path,
                Kind::Dev,
                importer.dev_dependencies,
                dev,
                ids,
                Map::empty(),
            ) {
                sections_fail_their_own_way(
                    raw,
                    path,
                    Kind::Prod,
                    importer.dependencies,
                    in_order::<String>(importer.dependencies.dom()),
                    ids,
                    first,
                );
            }
        }
    }
}

/// No link that is read out of a lockfile leaves the workspace.
pub proof fn links_that_escape_are_refused(
    lock: LockModel,
    graph: GraphModel,
    path: Seq<char>,
    name: Seq<char>,
)
    requires
        loaded(lock) == Ok::<GraphModel, LockfileFault>(graph),
        graph.importers.contains_key(path),
        graph.importers[path].contains_key(name),
        graph.importers[path][name].resolution is Local,
    ensures
        stays_inside(depth_of(path), graph.importers[path][name].resolution->Local_0),
{
    importers_fail_their_own_way(
        lock,
        rebuilt_ids(lock),
        in_order::<String>(lock.importers.dom()),
    );
}

} // verus!
