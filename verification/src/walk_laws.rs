//! What holds of every graph that a resolution builds.

use vstd::prelude::*;
use crate::graph::{as_declared, DeclaredModel, GraphModel, ImporterModel, PackageModel};
use crate::importer::ImporterPath;
use crate::package_id::{plain_id, IdModel};
use crate::registry::Answer;
use crate::sorted::{in_order, in_order_lists};
use crate::specifier::{chosen, edges_of, EdgeModel, ResolveFault};
use crate::walk::{
    blank_walk, graph_of, pendings_of, recorded, request_for, resolves_to, seeded_by_names,
    seeded_by_paths, seeded_walk, seeded_with, visited, walked, Book, DependentModel,
    PendingModel, Roots, WalkModel,
};

verus! {

/// Does every edge of a graph end at a package that the graph holds, each of
/// them recorded under its own identity?
pub open spec fn is_closed(
    importers: Map<Seq<char>, ImporterModel>,
    packages: Map<IdModel, PackageModel>,
    found: Set<IdModel>,
) -> bool {
    &&& forall|id: IdModel| #[trigger]
        packages.contains_key(id) ==> packages[id].id == id && id.context.len() == 0
            && packages[id].peers =~= Map::empty()
    &&& forall|id: IdModel, name: Seq<char>|
        packages.contains_key(id) && #[trigger] packages[id].dependencies.contains_key(name)
            ==> found.contains(packages[id].dependencies[name])
    &&& forall|id: IdModel, name: Seq<char>|
        packages.contains_key(id) && #[trigger] packages[id].optional_dependencies.contains(name)
            ==> packages[id].dependencies.contains_key(name)
    &&& forall|path: Seq<char>, name: Seq<char>|
        importers.contains_key(path) && #[trigger] importers[path].contains_key(name)
            && importers[path][name].resolution is Registry ==> found.contains(
            importers[path][name].resolution->Registry_0,
        )
}

spec fn sound(walk: WalkModel) -> bool {
    is_closed(walk.importers, walk.packages, walk.packages.dom())
}

proof fn recording_is_sound(walk: WalkModel, pending: PendingModel, id: IdModel)
    requires
        sound(walk),
    ensures
        ({
            let next = recorded(walk, pending, id);
            is_closed(next.importers, next.packages, next.packages.dom().insert(id))
        }),
{
    let next = recorded(walk, pending, id);
    assert(next.packages.dom() =~= walk.packages.dom());
    assert forall|x: IdModel, name: Seq<char>|
        next.packages.contains_key(x) && #[trigger] next.packages[x].dependencies.contains_key(
            name,
        ) implies next.packages.dom().insert(id).contains(next.packages[x].dependencies[name]) by {
        if walk.packages[x].dependencies.contains_key(name) {
        }
    }
    assert forall|x: IdModel, name: Seq<char>|
        next.packages.contains_key(x) && #[trigger] next.packages[x].optional_dependencies.contains(
            name,
        ) implies next.packages[x].dependencies.contains_key(name) by {
        if walk.packages[x].optional_dependencies.contains(name) {
            assert(walk.packages[x].dependencies.contains_key(name));
        }
    }
    assert forall|path: Seq<char>, name: Seq<char>|
        next.importers.contains_key(path) && #[trigger] next.importers[path].contains_key(name)
            && next.importers[path][name].resolution is Registry implies next.packages.dom().insert(
        id,
    ).contains(next.importers[path][name].resolution->Registry_0) by {
        if walk.importers.contains_key(path) && walk.importers[path].contains_key(name) {
        }
    }
}

proof fn visiting_is_sound(walk: WalkModel, pending: PendingModel, answer: Answer)
    requires
        sound(walk),
        visited(walk, pending, answer) is Ok,
    ensures
        sound(visited(walk, pending, answer)->Ok_0),
{
    let version = chosen(answer->Ok_0, pending.asked.name, pending.asked.range)->Ok_0;
    let id = plain_id(pending.asked.name, version);
    let next = recorded(walk, pending, id);
    recording_is_sound(walk, pending, id);
    if next.packages.contains_key(id) {
        assert(next.packages.dom().insert(id) =~= next.packages.dom());
    } else {
        let last = visited(walk, pending, answer)->Ok_0;
        assert(last.packages.dom() =~= next.packages.dom().insert(id));
        assert forall|x: IdModel, name: Seq<char>|
            last.packages.contains_key(x) && #[trigger] last.packages[x].dependencies.contains_key(
                name,
            ) implies last.packages.dom().contains(last.packages[x].dependencies[name]) by {
            assert(next.packages[x].dependencies.contains_key(name));
        }
        assert forall|x: IdModel, name: Seq<char>|
            last.packages.contains_key(x)
                && #[trigger] last.packages[x].optional_dependencies.contains(
                name,
            ) implies last.packages[x].dependencies.contains_key(name) by {
            assert(next.packages[x].optional_dependencies.contains(name));
        }
    }
}

proof fn walking_is_sound(book: Book, walk: WalkModel, steps: nat)
    requires
        sound(walk),
        walked(book, walk, steps) is Some,
        walked(book, walk, steps)->0 is Ok,
    ensures
        sound((walked(book, walk, steps)->0)->Ok_0),
    decreases steps,
{
    if walk.work.len() > 0 {
        let pending = walk.work[0];
        let rest = WalkModel { work: walk.work.drop_first(), ..walk };
        let answer = book[request_for(pending.asked)];
        visiting_is_sound(rest, pending, answer);
        walking_is_sound(book, visited(rest, pending, answer)->Ok_0, (steps - 1) as nat);
    }
}

proof fn naming_is_sound(
    members: Map<Seq<char>, Seq<char>>,
    path: Seq<char>,
    declared: Map<Seq<char>, DeclaredModel>,
    names: Seq<Seq<char>>,
    walk: WalkModel,
)
    requires
        sound(walk),
        seeded_by_names(members, path, declared, names, walk) is Ok,
    ensures
        sound(seeded_by_names(members, path, declared, names, walk)->Ok_0),
    decreases names.len(),
{
    if names.len() > 0 {
        naming_is_sound(members, path, declared, names.drop_last(), walk);
        let before = seeded_by_names(members, path, declared, names.drop_last(), walk)->Ok_0;
        let after = seeded_by_names(members, path, declared, names, walk)->Ok_0;
        assert forall|p: Seq<char>, name: Seq<char>|
            after.importers.contains_key(p) && #[trigger] after.importers[p].contains_key(name)
                && after.importers[p][name].resolution is Registry implies after.packages.dom().contains(
        after.importers[p][name].resolution->Registry_0) by {
            assert(before.importers.contains_key(p) && before.importers[p].contains_key(name));
        }
    }
}

proof fn seeding_is_sound(
    members: Map<Seq<char>, Seq<char>>,
    roots: Roots,
    paths: Seq<Seq<char>>,
)
    requires
        seeded_by_paths(members, roots, paths, blank_walk(roots)) is Ok,
    ensures
        sound(seeded_by_paths(members, roots, paths, blank_walk(roots))->Ok_0),
    decreases paths.len(),
{
    if paths.len() > 0 {
        seeding_is_sound(members, roots, paths.drop_last());
        naming_is_sound(
            members,
            paths.last(),
            roots[paths.last()],
            in_order::<String>(roots[paths.last()].dom()),
            seeded_by_paths(members, roots, paths.drop_last(), blank_walk(roots))->Ok_0,
        );
    }
}

/// Every edge of a resolved graph, whether a project or a package declared
/// it, ends at a package that is in the graph.
pub proof fn resolved_graphs_are_closed(
    book: Book,
    roots: Roots,
    members: Map<Seq<char>, Seq<char>>,
    graph: GraphModel,
)
    requires
        resolves_to(book, roots, members, Ok(graph)),
    ensures
        is_closed(graph.importers, graph.packages, graph.packages.dom()),
{
    let seed = seeded_walk(roots, members)->Ok_0;
    let steps = choose|steps: nat|
        match #[trigger] walked(book, seed, steps) {
            Some(Ok(walk)) => Ok::<GraphModel, ResolveFault>(graph) == Ok::<
                GraphModel,
                ResolveFault,
            >(graph_of(walk)),
            Some(Err(fault)) => Ok::<GraphModel, ResolveFault>(graph) == Err::<
                GraphModel,
                ResolveFault,
            >(fault),
            None => false,
        };
    seeding_is_sound(members, roots, in_order::<ImporterPath>(roots.dom()));
    walking_is_sound(book, seed, steps);
}

/// Is this work what a declaration asked for?
spec fn asks(pending: PendingModel, path: Seq<char>, name: Seq<char>, declared: DeclaredModel) -> bool {
    &&& pending.name == name
    &&& pending.specifier == declared.specifier
    &&& pending.dependent == (DependentModel::Importer { path, kind: declared.kind })
}

/// Is every declaration in a set recorded or waiting, and is nothing else?
spec fn accounts_for(walk: WalkModel, roots: Roots, settled: Set<(Seq<char>, Seq<char>)>) -> bool {
    &&& walk.importers.dom() == roots.dom()
    &&& forall|path: Seq<char>, name: Seq<char>|
        walk.importers.contains_key(path) && #[trigger] walk.importers[path].contains_key(name)
            ==> roots[path].contains_key(name) && as_declared(walk.importers[path])[name]
            == roots[path][name]
    &&& forall|i: int|
        0 <= i < walk.work.len() && (#[trigger] walk.work[i]).dependent is Importer ==> {
            let path = walk.work[i].dependent->path;
            &&& roots.contains_key(path)
            &&& roots[path].contains_key(walk.work[i].name)
            &&& asks(walk.work[i], path, walk.work[i].name, roots[path][walk.work[i].name])
        }
    &&& forall|path: Seq<char>, name: Seq<char>| #[trigger]
        settled.contains((path, name)) && roots.contains_key(path) && roots[path].contains_key(name)
            ==> {
            ||| walk.importers[path].contains_key(name)
            ||| exists|i: int|
                0 <= i < walk.work.len() && asks(
                    #[trigger] walk.work[i],
                    path,
                    name,
                    roots[path][name],
                )
        }
}

proof fn one_more_declaration(
    members: Map<Seq<char>, Seq<char>>,
    roots: Roots,
    path: Seq<char>,
    name: Seq<char>,
    walk: WalkModel,
    settled: Set<(Seq<char>, Seq<char>)>,
)
    requires
        accounts_for(walk, roots, settled),
        roots.contains_key(path),
        roots[path].contains_key(name),
        seeded_with(members, path, name, roots[path][name], walk) is Ok,
    ensures
        accounts_for(
            seeded_with(members, path, name, roots[path][name], walk)->Ok_0,
            roots,
            settled.insert((path, name)),
        ),
{
    let next = seeded_with(members, path, name, roots[path][name], walk)->Ok_0;
    assert(next.importers.dom() =~= roots.dom());
    assert forall|p: Seq<char>, n: Seq<char>|
        next.importers.contains_key(p) && #[trigger] next.importers[p].contains_key(
            n,
        ) implies roots[p].contains_key(n) && as_declared(next.importers[p])[n] == roots[p][n] by {
        if !(p == path && n == name) {
            assert(walk.importers[p].contains_key(n));
            assert(next.importers[p][n] == walk.importers[p][n]);
            assert(as_declared(walk.importers[p])[n] == roots[p][n]);
        } else if walk.importers == next.importers {
            assert(walk.importers[p].contains_key(n));
        }
    }
    assert forall|i: int|
        0 <= i < next.work.len() && (#[trigger] next.work[i]).dependent is Importer implies {
        let p = next.work[i].dependent->path;
        &&& roots.contains_key(p)
        &&& roots[p].contains_key(next.work[i].name)
        &&& asks(next.work[i], p, next.work[i].name, roots[p][next.work[i].name])
    } by {
        if i < walk.work.len() {
            assert(next.work[i] == walk.work[i]);
        }
    }
    assert forall|p: Seq<char>, n: Seq<char>| #[trigger]
        settled.insert((path, name)).contains((p, n)) && roots.contains_key(p)
            && roots[p].contains_key(n) implies {
        ||| next.importers[p].contains_key(n)
        ||| exists|i: int|
            0 <= i < next.work.len() && asks(#[trigger] next.work[i], p, n, roots[p][n])
    } by {
        if settled.contains((p, n)) {
            if !walk.importers[p].contains_key(n) {
                let i = choose|i: int|
                    0 <= i < walk.work.len() && asks(#[trigger] walk.work[i], p, n, roots[p][n]);
                assert(next.work[i] == walk.work[i]);
            }
        } else {
            if next.work.len() > walk.work.len() {
                assert(asks(next.work[walk.work.len() as int], p, n, roots[p][n]));
            }
        }
    }
}

spec fn pairs(path: Seq<char>, names: Set<Seq<char>>) -> Set<(Seq<char>, Seq<char>)> {
    Set::new(|pair: (Seq<char>, Seq<char>)| pair.0 == path && names.contains(pair.1))
}

proof fn all_names_account(
    members: Map<Seq<char>, Seq<char>>,
    roots: Roots,
    path: Seq<char>,
    names: Seq<Seq<char>>,
    walk: WalkModel,
    settled: Set<(Seq<char>, Seq<char>)>,
)
    requires
        accounts_for(walk, roots, settled),
        roots.contains_key(path),
        forall|i: int| 0 <= i < names.len() ==> roots[path].contains_key(#[trigger] names[i]),
        seeded_by_names(members, path, roots[path], names, walk) is Ok,
    ensures
        accounts_for(
            seeded_by_names(members, path, roots[path], names, walk)->Ok_0,
            roots,
            settled.union(pairs(path, names.to_set())),
        ),
    decreases names.len(),
{
    if names.len() == 0 {
        assert(settled.union(pairs(path, names.to_set())) =~= settled);
    } else {
        let rest = names.drop_last();
        assert forall|i: int| 0 <= i < rest.len() implies roots[path].contains_key(
            #[trigger] rest[i],
        ) by {
            assert(rest[i] == names[i]);
        }
        all_names_account(members, roots, path, rest, walk, settled);
        let so_far = settled.union(pairs(path, rest.to_set()));
        let before = seeded_by_names(members, path, roots[path], rest, walk)->Ok_0;
        let name = names[names.len() - 1];
        assert(roots[path].contains_key(name));
        one_more_declaration(members, roots, path, name, before, so_far);
        crate::sorted::take_one_more(names, names.len() - 1);
        assert(names.take(names.len() - 1) =~= rest);
        assert(names.take(names.len() as int) =~= names);
        assert(so_far.insert((path, name)) =~= settled.union(pairs(path, names.to_set())));
    }
}

proof fn all_paths_account(
    members: Map<Seq<char>, Seq<char>>,
    roots: Roots,
    paths: Seq<Seq<char>>,
)
    requires
        forall|i: int| 0 <= i < paths.len() ==> roots.contains_key(#[trigger] paths[i]),
        forall|path: Seq<char>| #[trigger]
            roots.contains_key(path) ==> roots[path].dom().finite(),
        seeded_by_paths(members, roots, paths, blank_walk(roots)) is Ok,
    ensures
        accounts_for(
            seeded_by_paths(members, roots, paths, blank_walk(roots))->Ok_0,
            roots,
            Set::new(|pair: (Seq<char>, Seq<char>)| paths.contains(pair.0)),
        ),
    decreases paths.len(),
{
    let settled = Set::new(|pair: (Seq<char>, Seq<char>)| paths.contains(pair.0));
    if paths.len() == 0 {
        assert(blank_walk(roots).importers.dom() =~= roots.dom());
    } else {
        let rest = paths.drop_last();
        assert forall|i: int| 0 <= i < rest.len() implies roots.contains_key(
            #[trigger] rest[i],
        ) by {
            assert(rest[i] == paths[i]);
        }
        all_paths_account(members, roots, rest);
        let path = paths[paths.len() - 1];
        assert(roots.contains_key(path));
        let before = seeded_by_paths(members, roots, rest, blank_walk(roots))->Ok_0;
        let so_far = Set::new(|pair: (Seq<char>, Seq<char>)| rest.contains(pair.0));
        let names = in_order::<String>(roots[path].dom());
        in_order_lists::<String>(roots[path].dom());
        assert forall|i: int| 0 <= i < names.len() implies roots[path].contains_key(
            #[trigger] names[i],
        ) by {
            assert(names.to_set().contains(names[i]));
        }
        all_names_account(members, roots, path, names, before, so_far);
        let now = so_far.union(pairs(path, names.to_set()));
        let after = seeded_by_paths(members, roots, paths, blank_walk(roots))->Ok_0;
        assert(accounts_for(after, roots, now));
        assert forall|p: Seq<char>, n: Seq<char>| #[trigger]
            settled.contains((p, n)) && roots.contains_key(p) && roots[p].contains_key(n) implies {
            ||| after.importers[p].contains_key(n)
            ||| exists|i: int|
                0 <= i < after.work.len() && asks(#[trigger] after.work[i], p, n, roots[p][n])
        } by {
            assert(now.contains((p, n))) by {
                let k = paths.index_of(p);
                if k < rest.len() {
                    assert(rest[k] == p);
                } else {
                    assert(p == path);
                }
            }
        }
    }
}

proof fn visiting_accounts(
    roots: Roots,
    walk: WalkModel,
    answer: Answer,
    settled: Set<(Seq<char>, Seq<char>)>,
)
    requires
        accounts_for(walk, roots, settled),
        walk.work.len() > 0,
        visited(
            (WalkModel { work: walk.work.drop_first(), ..walk }),
            walk.work[0],
            answer,
        ) is Ok,
    ensures
        accounts_for(
            visited(
                (WalkModel { work: walk.work.drop_first(), ..walk }),
                walk.work[0],
                answer,
            )->Ok_0,
            roots,
            settled,
        ),
{
    let pending = walk.work[0];
    let rest = WalkModel { work: walk.work.drop_first(), ..walk };
    let version = chosen(answer->Ok_0, pending.asked.name, pending.asked.range)->Ok_0;
    let id = plain_id(pending.asked.name, version);
    let step = recorded(rest, pending, id);
    let next = visited(rest, pending, answer)->Ok_0;
    assert(next.importers == step.importers);
    assert(next.importers.dom() =~= roots.dom());
    assert forall|p: Seq<char>, n: Seq<char>|
        next.importers.contains_key(p) && #[trigger] next.importers[p].contains_key(
            n,
        ) implies roots[p].contains_key(n) && as_declared(next.importers[p])[n] == roots[p][n] by {
        if pending.dependent is Importer && pending.dependent->path == p && pending.name == n {
        } else {
            assert(walk.importers[p].contains_key(n));
            assert(next.importers[p][n] == walk.importers[p][n]);
            assert(as_declared(walk.importers[p])[n] == roots[p][n]);
        }
    }
    let grown = if step.packages.contains_key(id) {
        seq![]
    } else {
        pendings_of(id, edges_of((answer->Ok_0).versions[version]))->Ok_0
    };
    assert(next.work =~= rest.work + grown);
    if !step.packages.contains_key(id) {
        queued_by_packages(id, edges_of((answer->Ok_0).versions[version]));
    }
    assert forall|i: int|
        0 <= i < next.work.len() && (#[trigger] next.work[i]).dependent is Importer implies {
        let p = next.work[i].dependent->path;
        &&& roots.contains_key(p)
        &&& roots[p].contains_key(next.work[i].name)
        &&& asks(next.work[i], p, next.work[i].name, roots[p][next.work[i].name])
    } by {
        if i < rest.work.len() {
            assert(next.work[i] == walk.work[i + 1]);
        } else {
            assert(next.work[i] == grown[i - rest.work.len()]);
        }
    }
    assert forall|p: Seq<char>, n: Seq<char>| #[trigger]
        settled.contains((p, n)) && roots.contains_key(p) && roots[p].contains_key(n) implies {
        ||| next.importers[p].contains_key(n)
        ||| exists|i: int|
            0 <= i < next.work.len() && asks(#[trigger] next.work[i], p, n, roots[p][n])
    } by {
        if !walk.importers[p].contains_key(n) {
            let i = choose|i: int|
                0 <= i < walk.work.len() && asks(#[trigger] walk.work[i], p, n, roots[p][n]);
            if i > 0 {
                assert(next.work[i - 1] == walk.work[i]);
            }
        }
    }
}

proof fn queued_by_packages(id: IdModel, edges: Seq<EdgeModel>)
    requires
        pendings_of(id, edges) is Ok,
    ensures
        forall|i: int|
            0 <= i < (pendings_of(id, edges)->Ok_0).len() ==> (#[trigger] (pendings_of(
                id,
                edges,
            )->Ok_0)[i]).dependent is Package,
    decreases edges.len(),
{
    if edges.len() > 0 {
        queued_by_packages(id, edges.drop_last());
    }
}

proof fn walking_accounts(
    book: Book,
    roots: Roots,
    walk: WalkModel,
    steps: nat,
    settled: Set<(Seq<char>, Seq<char>)>,
)
    requires
        accounts_for(walk, roots, settled),
        walked(book, walk, steps) is Some,
        walked(book, walk, steps)->0 is Ok,
    ensures
        accounts_for((walked(book, walk, steps)->0)->Ok_0, roots, settled),
        ((walked(book, walk, steps)->0)->Ok_0).work.len() == 0,
    decreases steps,
{
    if walk.work.len() > 0 {
        let pending = walk.work[0];
        let rest = WalkModel { work: walk.work.drop_first(), ..walk };
        let answer = book[request_for(pending.asked)];
        visiting_accounts(roots, walk, answer, settled);
        walking_accounts(
            book,
            roots,
            visited(rest, pending, answer)->Ok_0,
            (steps - 1) as nat,
            settled,
        );
    }
}

/// A resolved graph records exactly what was declared: the same projects, and
/// for each the same names, under the same specifiers and in the same
/// sections. What it was resolved from can be read back out of it.
pub proof fn resolved_graphs_record_what_was_declared(
    book: Book,
    roots: Roots,
    members: Map<Seq<char>, Seq<char>>,
    graph: GraphModel,
)
    requires
        roots.dom().finite(),
        forall|path: Seq<char>| #[trigger]
            roots.contains_key(path) ==> roots[path].dom().finite(),
        resolves_to(book, roots, members, Ok(graph)),
    ensures
        graph.importers.dom() == roots.dom(),
        forall|path: Seq<char>| #[trigger]
            roots.contains_key(path) ==> as_declared(graph.importers[path]) == roots[path],
{
    let seed = seeded_walk(roots, members)->Ok_0;
    let steps = choose|steps: nat|
        match #[trigger] walked(book, seed, steps) {
            Some(Ok(walk)) => Ok::<GraphModel, ResolveFault>(graph) == Ok::<
                GraphModel,
                ResolveFault,
            >(graph_of(walk)),
            Some(Err(fault)) => Ok::<GraphModel, ResolveFault>(graph) == Err::<
                GraphModel,
                ResolveFault,
            >(fault),
            None => false,
        };
    let paths = in_order::<ImporterPath>(roots.dom());
    in_order_lists::<ImporterPath>(roots.dom());
    assert forall|i: int| 0 <= i < paths.len() implies roots.contains_key(#[trigger] paths[i]) by {
        assert(paths.to_set().contains(paths[i]));
    }
    all_paths_account(members, roots, paths);
    let settled = Set::new(|pair: (Seq<char>, Seq<char>)| paths.contains(pair.0));
    walking_accounts(book, roots, seed, steps, settled);
    let last = (walked(book, seed, steps)->0)->Ok_0;
    assert forall|path: Seq<char>| #[trigger] roots.contains_key(path) implies as_declared(
        graph.importers[path],
    ) == roots[path] by {
        let mine = as_declared(graph.importers[path]);
        assert(paths.to_set().contains(path));
        assert forall|name: Seq<char>| roots[path].contains_key(name) implies #[trigger] mine.contains_key(
            name,
        ) by {
            assert(settled.contains((path, name)));
            assert(last.importers[path].contains_key(name));
        }
        assert forall|name: Seq<char>| #[trigger] mine.contains_key(name) implies roots[path].contains_key(
            name,
        ) && mine[name] == roots[path][name] by {
            assert(last.importers[path].contains_key(name));
        }
        assert(mine =~= roots[path]);
    }
}

} // verus!
