//! Resolving every package's peers, duplicating nodes whose answers differ.

use vstd::prelude::*;
use vstd::string::*;
use crate::complaints::{
    complaint_list, complaints_of, provided, provided_by, unsatisfied_peers, UnsatisfiedPeer,
};
use crate::copies::{
    discovered, discovered_below, instance_of, more_levels, more_levels_below, Copies, PeerCopy,
    Sight,
};
use crate::graph::{
    reachable_graph, Dependency, DependencyModel, GraphModel, Importer, ImporterModel, Resolution,
    ResolutionModel, ResolvedGraph,
};
use crate::importer::ImporterPath;
use crate::instance::{Instance, InstanceModel};
use crate::naming::{all_identified, emit, emitted, identify_each, Names};
use crate::order::Duplicate;
use crate::package_id::{IdModel, PackageId};
use crate::peer_laws::{edges_end_inside, graphs_are_finite};
use crate::peer_lock_laws::is_plain_graph;
use crate::peers::peer_names_needed;
use crate::record_laws::{are_copies_of, peer_resolutions_copy_what_was_resolved};
use crate::sorted::{in_order, take_one_more, SortedMap};

verus! {

/// The copies found below some projects, in order, if so many levels are
/// enough.
pub open spec fn discovered_roots(
    graph: GraphModel,
    paths: Seq<Seq<char>>,
    levels: nat,
) -> Option<Copies>
    decreases paths.len(),
{
    if paths.len() == 0 {
        Some(Map::empty())
    } else {
        match discovered_roots(graph, paths.drop_last(), levels) {
            Some(before) => {
                let frame = provided_by(graph.importers[paths.last()]);
                discovered_below(
                    graph.packages,
                    in_order::<String>(frame.dom()),
                    frame,
                    seq![frame],
                    before,
                    levels,
                )
            },
            None => None,
        }
    }
}

/// The copies that a project's dependencies came to.
pub open spec fn copies_for(graph: GraphModel, path: Seq<char>) -> Map<Seq<char>, InstanceModel> {
    let frame = provided_by(graph.importers[path]);
    frame.map_values(|id: IdModel| instance_of(graph.packages, id, seq![frame]))
}

/// The names given below some projects, in order.
pub open spec fn named_roots(graph: GraphModel, copies: Copies, paths: Seq<Seq<char>>) -> Names
    decreases paths.len(),
{
    if paths.len() == 0 {
        Map::empty()
    } else {
        let before = named_roots(graph, copies, paths.drop_last());
        let targets = copies_for(graph, paths.last());
        all_identified::<Instance>(
            copies,
            in_order::<String>(targets.dom()),
            targets,
            false,
            before,
            copies.dom(),
        ).1
    }
}

/// A project with each of its packages under the name its copy was given.
pub open spec fn renamed(
    importer: ImporterModel,
    targets: Map<Seq<char>, InstanceModel>,
    names: Names,
) -> ImporterModel {
    Map::new(
        |name: Seq<char>| importer.contains_key(name),
        |name: Seq<char>|
            if targets.contains_key(name) && names.contains_key(targets[name]) {
                DependencyModel {
                    resolution: ResolutionModel::Registry(names[targets[name]]),
                    ..importer[name]
                }
            } else {
                importer[name]
            },
    )
}

/// A graph with every package's peers resolved, if so many levels are enough
/// to find all copies.
pub open spec fn peers_resolved(graph: GraphModel, levels: nat) -> Option<GraphModel> {
    let paths = in_order::<ImporterPath>(graph.importers.dom());
    match discovered_roots(graph, paths, levels) {
        Some(copies) => {
            let names = named_roots(graph, copies, paths);
            Some(
                GraphModel {
                    importers: Map::new(
                        |path: Seq<char>| graph.importers.contains_key(path),
                        |path: Seq<char>|
                            renamed(graph.importers[path], copies_for(graph, path), names),
                    ),
                    packages: emitted(
                        graph.packages,
                        copies,
                        names,
                        in_order::<Instance>(copies.dom()),
                    ),
                },
            )
        },
        None => None,
    }
}

proof fn more_levels_of_roots(graph: GraphModel, paths: Seq<Seq<char>>, m: nat, n: nat)
    requires
        m <= n,
        discovered_roots(graph, paths, m) is Some,
    ensures
        discovered_roots(graph, paths, n) == discovered_roots(graph, paths, m),
    decreases paths.len(),
{
    if paths.len() > 0 {
        more_levels_of_roots(graph, paths.drop_last(), m, n);
        let before = discovered_roots(graph, paths.drop_last(), m)->0;
        let frame = provided_by(graph.importers[paths.last()]);
        more_levels_below(
            graph.packages,
            in_order::<String>(frame.dom()),
            frame,
            seq![frame],
            before,
            m,
            n,
        );
    }
}

/// A graph has one peer resolution: however many levels were allowed, the
/// result is the same.
pub proof fn peer_resolution_is_unique(graph: GraphModel, m: nat, n: nat)
    requires
        peers_resolved(graph, m) is Some,
        peers_resolved(graph, n) is Some,
    ensures
        peers_resolved(graph, m) == peers_resolved(graph, n),
{
    let paths = in_order::<ImporterPath>(graph.importers.dom());
    if m <= n {
        more_levels_of_roots(graph, paths, m, n);
    } else {
        more_levels_of_roots(graph, paths, n, m);
    }
}

/// A project's dependencies, the registry ones under the names their copies
/// were given.
fn rename(
    importer: &Importer,
    targets: &SortedMap<String, Instance>,
    names: &SortedMap<Instance, PackageId>,
) -> (after: Importer)
    ensures
        after.deep_view() == renamed(
            importer.deep_view(),
            targets.deep_view(),
            names.deep_view(),
        ),
{
    let ghost goal = renamed(importer.deep_view(), targets.deep_view(), names.deep_view());
    let mut dependencies: SortedMap<String, Dependency> = SortedMap::new();
    let n: usize = importer.dependencies.len();
    let ghost keys = importer.dependencies.keys();
    assert(goal.restrict(keys.take(0).to_set()) =~= Map::<Seq<char>, DependencyModel>::empty());
    let mut i: usize = 0;
    while i < n
        invariant
            i <= n == keys.len(),
            keys == importer.dependencies.keys(),
            goal == renamed(importer.deep_view(), targets.deep_view(), names.deep_view()),
            dependencies.deep_view() == goal.restrict(keys.take(i as int).to_set()),
        decreases n - i,
    {
        let key = importer.dependencies.key_at(i);
        let mut dependency = importer.dependencies.value_at(i).duplicate();
        match targets.get(key) {
            Some(target) => match names.get(target) {
                Some(id) => {
                    dependency.resolution = Resolution::Registry(id.duplicate());
                },
                None => {},
            },
            None => {},
        }
        dependencies.insert(key.duplicate(), dependency);
        proof {
            take_one_more(keys, i as int);
            assert(dependencies.deep_view() =~= goal.restrict(keys.take(i + 1).to_set()));
        }
        i = i + 1;
    }
    assert(keys.take(n as int) =~= keys);
    assert(goal.restrict(keys.to_set()) =~= goal);
    Importer { dependencies }
}

/// Find the copies below one project, and which copy each of its dependencies
/// came to.
fn discover_root<'a>(
    sight: &Sight<'a>,
    frame: &'a SortedMap<String, PackageId>,
    copies: &mut SortedMap<Instance, PeerCopy<Instance>>,
) -> (targets: SortedMap<String, Instance>)
    requires
        sight.is_clear(),
    ensures
        targets.deep_view() == frame.deep_view().map_values(
            |id: IdModel| instance_of(sight.packages(), id, seq![frame.deep_view()]),
        ),
        exists|levels: nat| #[trigger]
            discovered_below(
                sight.packages(),
                in_order::<String>(frame.deep_view().dom()),
                frame.deep_view(),
                seq![frame.deep_view()],
                old(copies).deep_view(),
                levels,
            ) == Some(final(copies).deep_view()),
{
    let ghost packages = sight.packages();
    let ghost model = frame.deep_view();
    let ghost seen = seq![model];
    let ghost base = copies.deep_view();
    let ghost goal = model.map_values(|id: IdModel| instance_of(packages, id, seen));
    let mut chain: Vec<&'a SortedMap<String, PackageId>> = Vec::new();
    chain.push(frame);
    let ghost linked = chain@;
    assert(chain.deep_view() =~= seen);
    let mut targets: SortedMap<String, Instance> = SortedMap::new();
    let n: usize = frame.len();
    let ghost keys = frame.keys();
    let ghost mut levels: nat = 0;
    assert(goal.restrict(keys.take(0).to_set()) =~= Map::<Seq<char>, InstanceModel>::empty());
    assert(discovered_below(packages, keys.take(0), model, seen, base, 0) == Some(base));
    let mut i: usize = 0;
    while i < n
        invariant
            i <= n == keys.len(),
            keys == frame.keys(),
            sight.is_clear(),
            packages == sight.packages(),
            model == frame.deep_view(),
            chain@ == linked,
            chain.deep_view() == seen,
            goal == model.map_values(|id: IdModel| instance_of(packages, id, seen)),
            targets.deep_view() == goal.restrict(keys.take(i as int).to_set()),
            discovered_below(packages, keys.take(i as int), model, seen, base, levels) == Some(
                copies.deep_view(),
            ),
        decreases n - i,
    {
        let id = frame.value_at(i);
        let ghost held = copies.deep_view();
        let found = sight.discover(id, &mut chain, copies);
        targets.insert(frame.key_at(i).duplicate(), found);
        proof {
            take_one_more(keys, i as int);
            assert(targets.deep_view() =~= goal.restrict(keys.take(i + 1).to_set()));
            assert(keys.take(i + 1).drop_last() =~= keys.take(i as int));
            let more = choose|more: nat| #[trigger]
                discovered(packages, id.deep_view(), seen, held, more) == Some(copies.deep_view());
            let most = if more >= levels {
                more
            } else {
                levels
            };
            more_levels(packages, id.deep_view(), seen, held, more, most);
            more_levels_below(packages, keys.take(i as int), model, seen, base, levels, most);
            levels = most;
            assert(discovered_below(packages, keys.take(i + 1), model, seen, base, levels) == Some(
                copies.deep_view(),
            ));
        }
        i = i + 1;
    }
    assert(keys.take(n as int) =~= keys);
    assert(goal.restrict(keys.to_set()) =~= goal);
    targets
}

/// Resolve every package's peers, duplicating nodes whose answers differ, and
/// report every required peer left unanswered.
///
/// A copy is found for each environment that a package's subtree can see, the
/// copies are named, and the named copies are written back. What is reported
/// is read off the finished graph. Where what was resolved is published plainly
/// and led to by projects, what comes of it is copies of exactly that.
pub fn resolve_peers(graph: ResolvedGraph) -> (resolved: (ResolvedGraph, Vec<UnsatisfiedPeer>))
    ensures
        exists|levels: nat| #[trigger]
            peers_resolved(graph.deep_view(), levels) == Some(resolved.0.deep_view()),
        resolved.1.deep_view() == complaint_list(complaints_of(resolved.0.deep_view())),
        edges_end_inside(graph.deep_view()) && is_plain_graph(graph.deep_view())
            && reachable_graph(graph.deep_view()) == graph.deep_view() ==> are_copies_of(
            resolved.0.deep_view().packages,
            graph.deep_view().packages,
        ),
{
    let ghost model = graph.deep_view();
    let size: usize = graph.packages.len();
    let needed = peer_names_needed(&graph);
    let n: usize = graph.importers.len();
    let ghost paths = graph.importers.keys();
    let ghost all_paths = in_order::<ImporterPath>(model.importers.dom());

    let mut frames: Vec<SortedMap<String, PackageId>> = Vec::new();
    let mut f: usize = 0;
    while f < n
        invariant
            f <= n == paths.len(),
            paths == graph.importers.keys(),
            model == graph.deep_view(),
            frames@.len() == f,
            forall|j: int|
                0 <= j < f ==> (#[trigger] frames@[j]).deep_view() == provided_by(
                    model.importers[paths[j]],
                ),
        decreases n - f,
    {
        frames.push(provided(graph.importers.value_at(f)));
        f = f + 1;
    }

    let sight = Sight { graph: &graph, needed };
    let mut copies: SortedMap<Instance, PeerCopy<Instance>> = SortedMap::new();
    let mut roots: Vec<SortedMap<String, Instance>> = Vec::new();
    let ghost mut levels: nat = 0;
    assert(discovered_roots(model, paths.take(0), 0) == Some(copies.deep_view()));
    let mut i: usize = 0;
    while i < n
        invariant
            i <= n == paths.len(),
            n == frames@.len(),
            sight.is_clear(),
            sight.packages() == model.packages,
            forall|j: int|
                0 <= j < n ==> (#[trigger] frames@[j]).deep_view() == provided_by(
                    model.importers[paths[j]],
                ),
            roots@.len() == i,
            forall|j: int|
                0 <= j < i ==> (#[trigger] roots@[j]).deep_view() == copies_for(model, paths[j]),
            discovered_roots(model, paths.take(i as int), levels) == Some(copies.deep_view()),
        decreases n - i,
    {
        let ghost held = copies.deep_view();
        let ghost frame = frames@[i as int].deep_view();
        roots.push(discover_root(&sight, &frames[i], &mut copies));
        proof {
            assert(paths.take(i + 1).drop_last() =~= paths.take(i as int));
            assert(paths.take(i + 1).last() == paths[i as int]);
            let more = choose|more: nat| #[trigger]
                discovered_below(
                    model.packages,
                    in_order::<String>(frame.dom()),
                    frame,
                    seq![frame],
                    held,
                    more,
                ) == Some(copies.deep_view());
            let most = if more >= levels {
                more
            } else {
                levels
            };
            more_levels_of_roots(model, paths.take(i as int), levels, most);
            more_levels_below(
                model.packages,
                in_order::<String>(frame.dom()),
                frame,
                seq![frame],
                held,
                more,
                most,
            );
            levels = most;
        }
        i = i + 1;
    }
    assert(paths.take(n as int) =~= paths);

    let found: usize = copies.len();
    let mut names: SortedMap<Instance, PackageId> = SortedMap::new();
    let mut k: usize = 0;
    while k < n
        invariant
            k <= n == paths.len(),
            n == roots@.len(),
            copies.deep_view().dom().finite(),
            forall|j: int|
                0 <= j < n ==> (#[trigger] roots@[j]).deep_view() == copies_for(model, paths[j]),
            names.deep_view() == named_roots(model, copies.deep_view(), paths.take(k as int)),
        decreases n - k,
    {
        assert(paths.take(k + 1).drop_last() =~= paths.take(k as int));
        assert(paths.take(k + 1).last() == paths[k as int]);
        identify_each(&copies, &roots[k], &mut names);
        k = k + 1;
    }

    let packages = emit(&graph.packages, &copies, &names);
    let mut importers: SortedMap<ImporterPath, Importer> = SortedMap::new();
    let ghost goal = Map::new(
        |path: Seq<char>| model.importers.contains_key(path),
        |path: Seq<char>|
            renamed(model.importers[path], copies_for(model, path), names.deep_view()),
    );
    assert(goal.restrict(paths.take(0).to_set()) =~= Map::<Seq<char>, ImporterModel>::empty());
    let mut w: usize = 0;
    while w < n
        invariant
            w <= n == paths.len(),
            paths == graph.importers.keys(),
            model == graph.deep_view(),
            n == roots@.len(),
            forall|j: int|
                0 <= j < n ==> (#[trigger] roots@[j]).deep_view() == copies_for(model, paths[j]),
            goal == Map::new(
                |path: Seq<char>| model.importers.contains_key(path),
                |path: Seq<char>|
                    renamed(model.importers[path], copies_for(model, path), names.deep_view()),
            ),
            importers.deep_view() == goal.restrict(paths.take(w as int).to_set()),
        decreases n - w,
    {
        let importer = graph.importers.value_at(w);
        importers.insert(
            graph.importers.key_at(w).duplicate(),
            rename(importer, &roots[w], &names),
        );
        proof {
            take_one_more(paths, w as int);
            assert(importers.deep_view() =~= goal.restrict(paths.take(w + 1).to_set()));
        }
        w = w + 1;
    }
    assert(goal.restrict(paths.to_set()) =~= goal);
    let resolved = ResolvedGraph { importers, packages };
    assert(peers_resolved(model, levels) == Some(resolved.deep_view()));
    proof {
        graphs_are_finite(&graph);
        if edges_end_inside(model) && is_plain_graph(model) && reachable_graph(model) == model {
            peer_resolutions_copy_what_was_resolved(model, levels);
        }
    }
    let unsatisfied = unsatisfied_peers(&resolved);
    (resolved, unsatisfied)
}

} // verus!
