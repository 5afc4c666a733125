//! What a plan comes to: each package in its entry, each link where it is
//! looked for, and nothing else.

use vstd::prelude::*;
use crate::graph::{DependencyModel, GraphModel, PackageModel, ResolutionModel};
use crate::importer::ImporterPath;
use crate::linker::{link_of, LinkModel};
use crate::package_id::{rendered, IdModel, PackageId};
use crate::path::put_after;
use crate::plan::{
    convergences, edge_link, edge_links, importer_link, importer_links, links_from, links_in,
    plan_steps, populations, Plan, PlanModel, Step, StepModel, TargetModel,
    VirtualModel,
};
use crate::planning::{dirs_of, entries_for, importers_for, planned};
use crate::sorted::{in_order, in_order_lists};
use crate::store::entry_place;
use crate::workspace::{member_named, MembersModel, WorkspaceModel};

verus! {

/// Where an entry of the virtual store below a directory keeps what it holds.
pub open spec fn inside_entry(root: Seq<char>, dir_name: Seq<char>) -> Seq<char> {
    put_after(
        put_after(put_after(put_after(root, "node_modules"@), ".jerky"@), dir_name),
        "node_modules"@,
    )
}

/// Is this the link at a dependency beside a package in the virtual store?
pub open spec fn links_beside(
    plan: PlanModel,
    owner: Seq<char>,
    name: Seq<char>,
    link: LinkModel,
) -> bool {
    &&& plan.entries.contains_key(owner)
    &&& plan.entries[owner].edges.contains_key(name)
    &&& link == link_of(
        inside_entry(plan.root, owner),
        name,
        put_after(
            inside_entry(plan.root, plan.entries[owner].edges[name].dir_name),
            plan.entries[owner].edges[name].pkg_name,
        ),
    )
}

/// Is this the link at a dependency of a project?
pub open spec fn links_within(
    plan: PlanModel,
    dir: Seq<char>,
    name: Seq<char>,
    link: LinkModel,
) -> bool {
    &&& plan.importers.contains_key(dir)
    &&& plan.importers[dir].contains_key(name)
    &&& link == link_of(
        put_after(dir, "node_modules"@),
        name,
        match plan.importers[dir][name] {
            TargetModel::Entry(entry) => put_after(
                inside_entry(plan.root, entry.dir_name),
                entry.pkg_name,
            ),
            TargetModel::Member(path) => path,
        },
    )
}

/// Does a plan call for a step?
pub open spec fn calls_for(plan: PlanModel, step: StepModel) -> bool {
    match step {
        StepModel::Populate { store_path, dir_name, pkg_name } => {
            &&& plan.entries.contains_key(dir_name)
            &&& plan.entries[dir_name].store_path == store_path
            &&& plan.entries[dir_name].pkg_name == pkg_name
        },
        StepModel::Place(link) => {
            ||| exists|owner: Seq<char>, name: Seq<char>| #[trigger]
                links_beside(plan, owner, name, link)
            ||| exists|dir: Seq<char>, name: Seq<char>| #[trigger]
                links_within(plan, dir, name, link)
        },
        StepModel::Converge { importer_dir } => plan.importers.contains_key(importer_dir),
        StepModel::Prune => true,
    }
}

/// Which of the four kinds of step comes when.
pub open spec fn turn(step: StepModel) -> int {
    match step {
        StepModel::Populate { .. } => 0,
        StepModel::Place(_) => 1,
        StepModel::Converge { .. } => 2,
        StepModel::Prune => 3,
    }
}

/// Is everything in a plan of an end?
pub open spec fn is_bounded(plan: PlanModel) -> bool {
    &&& plan.entries.dom().finite()
    &&& plan.importers.dom().finite()
    &&& forall|name: Seq<char>| #[trigger]
        plan.entries.contains_key(name) ==> plan.entries[name].edges.dom().finite()
    &&& forall|dir: Seq<char>| #[trigger]
        plan.importers.contains_key(dir) ==> plan.importers[dir].dom().finite()
}

proof fn in_both<A>(a: Seq<A>, b: Seq<A>, x: A)
    ensures
        (a + b).contains(x) <==> a.contains(x) || b.contains(x),
{
    let all = a + b;
    if a.contains(x) {
        assert(all[a.index_of(x)] == x);
    }
    if b.contains(x) {
        assert(all[a.len() + b.index_of(x)] == x);
    }
    if all.contains(x) {
        let i = all.index_of(x);
        if i < a.len() {
            assert(a[i] == x);
        } else {
            assert(b[i - a.len()] == x);
        }
    }
}

proof fn listed(set: Set<Seq<char>>, name: Seq<char>)
    requires
        set.finite(),
    ensures
        in_order::<String>(set).contains(name) <==> set.contains(name),
{
    in_order_lists::<String>(set);
    assert(in_order::<String>(set).to_set().contains(name) <==> set.contains(name));
}

proof fn links_from_are(plan: PlanModel, owner: Seq<char>, step: StepModel)
    requires
        is_bounded(plan),
        plan.entries.contains_key(owner),
    ensures
        links_from(plan, owner).contains(step) <==> step is Place && exists|name: Seq<char>|
            #[trigger] links_beside(plan, owner, name, step->Place_0),
{
    let edges = in_order::<String>(plan.entries[owner].edges.dom());
    let own = links_from(plan, owner);
    if own.contains(step) {
        let i = own.index_of(step);
        listed(plan.entries[owner].edges.dom(), edges[i]);
        assert(edges.contains(edges[i]));
        assert(step == edge_link(plan, owner, edges[i]));
        assert(links_beside(plan, owner, edges[i], step->Place_0));
    }
    if step is Place && exists|name: Seq<char>| #[trigger]
        links_beside(plan, owner, name, step->Place_0) {
        let name = choose|name: Seq<char>| #[trigger]
            links_beside(plan, owner, name, step->Place_0);
        listed(plan.entries[owner].edges.dom(), name);
        let i = edges.index_of(name);
        assert(own[i] == edge_link(plan, owner, name));
        assert(own.contains(step));
    }
}

proof fn edge_links_are(plan: PlanModel, names: Seq<Seq<char>>, step: StepModel)
    requires
        is_bounded(plan),
        forall|i: int| 0 <= i < names.len() ==> #[trigger] plan.entries.contains_key(names[i]),
    ensures
        edge_links(plan, names).contains(step) <==> step is Place && exists|
            owner: Seq<char>,
            name: Seq<char>,
        | #[trigger]
            links_beside(plan, owner, name, step->Place_0) && names.contains(owner),
    decreases names.len(),
{
    if names.len() > 0 {
        let shorter = names.drop_last();
        let last = names[names.len() - 1];
        assert(plan.entries.contains_key(last));
        assert forall|i: int| 0 <= i < shorter.len() implies #[trigger] plan.entries.contains_key(
            shorter[i],
        ) by {
            assert(plan.entries.contains_key(names[i]));
        }
        edge_links_are(plan, shorter, step);
        in_both(edge_links(plan, shorter), links_from(plan, last), step);
        links_from_are(plan, last, step);
        if links_from(plan, last).contains(step) {
            assert(names.contains(last));
        }
        if step is Place && exists|owner: Seq<char>, name: Seq<char>| #[trigger]
            links_beside(plan, owner, name, step->Place_0) && names.contains(owner) {
            let (owner, name) = choose|owner: Seq<char>, name: Seq<char>| #[trigger]
                links_beside(plan, owner, name, step->Place_0) && names.contains(owner);
            if owner != last {
                let k = names.index_of(owner);
                assert(shorter[k] == owner);
                assert(shorter.contains(owner));
            }
        }
        if edge_links(plan, shorter).contains(step) {
            let (owner, name) = choose|owner: Seq<char>, name: Seq<char>| #[trigger]
                links_beside(plan, owner, name, step->Place_0) && shorter.contains(owner);
            let k = shorter.index_of(owner);
            assert(names[k] == owner);
            assert(names.contains(owner));
        }
    }
}

proof fn links_in_are(plan: PlanModel, dir: Seq<char>, step: StepModel)
    requires
        is_bounded(plan),
        plan.importers.contains_key(dir),
    ensures
        links_in(plan, dir).contains(step) <==> step is Place && exists|name: Seq<char>| #[trigger]
            links_within(plan, dir, name, step->Place_0),
{
    let names = in_order::<String>(plan.importers[dir].dom());
    let own = links_in(plan, dir);
    if own.contains(step) {
        let i = own.index_of(step);
        listed(plan.importers[dir].dom(), names[i]);
        assert(names.contains(names[i]));
        assert(step == importer_link(plan, dir, names[i]));
        assert(links_within(plan, dir, names[i], step->Place_0));
    }
    if step is Place && exists|name: Seq<char>| #[trigger]
        links_within(plan, dir, name, step->Place_0) {
        let name = choose|name: Seq<char>| #[trigger]
            links_within(plan, dir, name, step->Place_0);
        listed(plan.importers[dir].dom(), name);
        let i = names.index_of(name);
        assert(own[i] == importer_link(plan, dir, name));
        assert(own.contains(step));
    }
}

proof fn importer_links_are(plan: PlanModel, dirs: Seq<Seq<char>>, step: StepModel)
    requires
        is_bounded(plan),
        forall|i: int| 0 <= i < dirs.len() ==> #[trigger] plan.importers.contains_key(dirs[i]),
    ensures
        importer_links(plan, dirs).contains(step) <==> step is Place && exists|
            dir: Seq<char>,
            name: Seq<char>,
        | #[trigger]
            links_within(plan, dir, name, step->Place_0) && dirs.contains(dir),
    decreases dirs.len(),
{
    if dirs.len() > 0 {
        let shorter = dirs.drop_last();
        let last = dirs[dirs.len() - 1];
        assert(plan.importers.contains_key(last));
        assert forall|i: int| 0 <= i < shorter.len() implies #[trigger] plan.importers.contains_key(
            shorter[i],
        ) by {
            assert(plan.importers.contains_key(dirs[i]));
        }
        importer_links_are(plan, shorter, step);
        in_both(importer_links(plan, shorter), links_in(plan, last), step);
        links_in_are(plan, last, step);
        if links_in(plan, last).contains(step) {
            assert(dirs.contains(last));
        }
        if step is Place && exists|dir: Seq<char>, name: Seq<char>| #[trigger]
            links_within(plan, dir, name, step->Place_0) && dirs.contains(dir) {
            let (dir, name) = choose|dir: Seq<char>, name: Seq<char>| #[trigger]
                links_within(plan, dir, name, step->Place_0) && dirs.contains(dir);
            if dir != last {
                let k = dirs.index_of(dir);
                assert(shorter[k] == dir);
                assert(shorter.contains(dir));
            }
        }
        if importer_links(plan, shorter).contains(step) {
            let (dir, name) = choose|dir: Seq<char>, name: Seq<char>| #[trigger]
                links_within(plan, dir, name, step->Place_0) && shorter.contains(dir);
            let k = shorter.index_of(dir);
            assert(dirs[k] == dir);
            assert(dirs.contains(dir));
        }
    }
}

/// A step is taken if and only if the plan calls for it: every entry is
/// populated, every dependency of every entry and of every project is linked,
/// every project is cleared of what is left over, and so is the virtual store.
pub proof fn exactly_what_is_planned_is_done(plan: PlanModel, step: StepModel)
    requires
        is_bounded(plan),
    ensures
        plan_steps(plan).contains(step) <==> calls_for(plan, step),
{
    let entries = in_order::<String>(plan.entries.dom());
    let dirs = in_order::<String>(plan.importers.dom());
    assert forall|name: Seq<char>| #[trigger] entries.contains(name) <==> plan.entries.contains_key(
        name,
    ) by {
        listed(plan.entries.dom(), name);
    }
    assert forall|dir: Seq<char>| #[trigger] dirs.contains(dir) <==> plan.importers.contains_key(
        dir,
    ) by {
        listed(plan.importers.dom(), dir);
    }
    assert forall|i: int| 0 <= i < entries.len() implies #[trigger] plan.entries.contains_key(
        entries[i],
    ) by {
        assert(entries.contains(entries[i]));
    }
    assert forall|i: int| 0 <= i < dirs.len() implies #[trigger] plan.importers.contains_key(
        dirs[i],
    ) by {
        assert(dirs.contains(dirs[i]));
    }
    let first = populations(plan, entries);
    let second = edge_links(plan, entries);
    let third = importer_links(plan, dirs);
    let fourth = convergences(dirs);
    let fifth = seq![StepModel::Prune];
    in_both(first + second + third + fourth, fifth, step);
    in_both(first + second + third, fourth, step);
    in_both(first + second, third, step);
    in_both(first, second, step);
    edge_links_are(plan, entries, step);
    importer_links_are(plan, dirs, step);
    assert(fifth.contains(step) <==> step is Prune) by {
        assert(fifth[0] is Prune);
    }
    assert(first.contains(step) <==> step is Populate && calls_for(plan, step)) by {
        if first.contains(step) {
            let i = first.index_of(step);
            assert(plan.entries.contains_key(entries[i]));
        }
        if step is Populate && calls_for(plan, step) {
            let name = step->Populate_dir_name;
            let i = entries.index_of(name);
            assert(entries.contains(name));
            assert(first[i] == step);
        }
    }
    assert(fourth.contains(step) <==> step is Converge && calls_for(plan, step)) by {
        if fourth.contains(step) {
            let i = fourth.index_of(step);
            assert(plan.importers.contains_key(dirs[i]));
        }
        if step is Converge && calls_for(plan, step) {
            let dir = step->Converge_importer_dir;
            assert(dirs.contains(dir));
            let i = dirs.index_of(dir);
            assert(fourth[i] == step);
        }
    }
    if step is Place {
        let link = step->Place_0;
        if exists|owner: Seq<char>, name: Seq<char>| #[trigger]
            links_beside(plan, owner, name, link) {
            let (owner, name) = choose|owner: Seq<char>, name: Seq<char>| #[trigger]
                links_beside(plan, owner, name, link);
            assert(entries.contains(owner));
        }
        if exists|dir: Seq<char>, name: Seq<char>| #[trigger]
            links_within(plan, dir, name, link) {
            let (dir, name) = choose|dir: Seq<char>, name: Seq<char>| #[trigger]
                links_within(plan, dir, name, link);
            assert(dirs.contains(dir));
        }
    }
}

/// Packages are put in place before anything links to them, what is left over
/// goes only once every link is there, and the virtual store is pruned last
/// of all.
pub proof fn steps_are_taken_in_turn(plan: PlanModel, i: int, j: int)
    requires
        is_bounded(plan),
        0 <= i < j < plan_steps(plan).len(),
    ensures
        turn(plan_steps(plan)[i]) <= turn(plan_steps(plan)[j]),
        !(plan_steps(plan)[i] is Prune),
        plan_steps(plan).last() is Prune,
{
    let entries = in_order::<String>(plan.entries.dom());
    let dirs = in_order::<String>(plan.importers.dom());
    in_order_lists::<String>(plan.entries.dom());
    in_order_lists::<String>(plan.importers.dom());
    assert forall|k: int| 0 <= k < entries.len() implies #[trigger] plan.entries.contains_key(
        entries[k],
    ) by {
        assert(entries.to_set().contains(entries[k]));
    }
    assert forall|k: int| 0 <= k < dirs.len() implies #[trigger] plan.importers.contains_key(
        dirs[k],
    ) by {
        assert(dirs.to_set().contains(dirs[k]));
    }
    let first = populations(plan, entries);
    let second = edge_links(plan, entries);
    let third = importer_links(plan, dirs);
    let fourth = convergences(dirs);
    let steps = plan_steps(plan);
    assert forall|k: int| 0 <= k < second.len() implies #[trigger] second[k] is Place by {
        edge_links_are(plan, entries, second[k]);
        assert(second.contains(second[k]));
    }
    assert forall|k: int| 0 <= k < third.len() implies #[trigger] third[k] is Place by {
        importer_links_are(plan, dirs, third[k]);
        assert(third.contains(third[k]));
    }
    let a = first.len() as int;
    let b = a + second.len();
    let c = b + third.len();
    let d = c + fourth.len();
    assert forall|k: int| 0 <= k < steps.len() implies turn(#[trigger] steps[k]) == (if k < a {
        0int
    } else if k < c {
        1
    } else if k < d {
        2
    } else {
        3
    }) by {
        if k < a {
            assert(steps[k] == first[k]);
        } else if k < b {
            assert(steps[k] == second[k - a]);
        } else if k < c {
            assert(steps[k] == third[k - b]);
        } else if k < d {
            assert(steps[k] == fourth[k - c]);
        }
    }
    assert(turn(steps[i]) <= turn(steps[j]));
    assert(steps.len() == d + 1);
    assert(turn(steps[d]) == 3);
}

/// Every plan is of an end.
pub proof fn plans_are_bounded(plan: &Plan)
    ensures
        is_bounded(plan.deep_view()),
{
    let model = plan.deep_view();
    plan.entries.is_finite();
    plan.importers.is_finite();
    assert forall|name: Seq<char>| #[trigger] model.entries.contains_key(
        name,
    ) implies model.entries[name].edges.dom().finite() by {
        let entry = plan.entries.held_under(name);
        assert(model.entries[name] == entry.deep_view());
        entry.edges.is_finite();
    }
    assert forall|dir: Seq<char>| #[trigger] model.importers.contains_key(
        dir,
    ) implies model.importers[dir].dom().finite() by {
        let links = plan.importers.held_under(dir);
        assert(model.importers[dir] == links.deep_view());
        links.is_finite();
    }
}

/// Applying a plan takes the steps that it calls for.
pub proof fn applying_does_what_is_planned(plan: &Plan, steps: Vec<Step>, step: StepModel)
    requires
        call_ensures(Plan::apply, (plan,), steps),
    ensures
        steps.deep_view().contains(step) <==> calls_for(plan.deep_view(), step),
{
    plans_are_bounded(plan);
    exactly_what_is_planned_is_done(plan.deep_view(), step);
}

/// Is this what a package's entry holds: the package from the store, under its
/// name, and links at everything that it depends on or has as a peer, a
/// dependency counting before a peer of the same name?
pub open spec fn is_entry_of(
    entry: VirtualModel,
    package: PackageModel,
    id: IdModel,
    store: Seq<char>,
) -> bool {
    &&& entry.store_path == entry_place(store, package.integrity)
    &&& entry.pkg_name == id.name
    &&& forall|name: Seq<char>| #[trigger]
        entry.edges.contains_key(name) <==> package.dependencies.contains_key(name)
            || package.peers.contains_key(name)
    &&& forall|name: Seq<char>| #[trigger]
        package.dependencies.contains_key(name) ==> {
            &&& entry.edges[name].dir_name == rendered(package.dependencies[name])
            &&& entry.edges[name].pkg_name == package.dependencies[name].name
        }
    &&& forall|name: Seq<char>| #[trigger]
        package.peers.contains_key(name) && !package.dependencies.contains_key(name) ==> {
            &&& entry.edges[name].dir_name == rendered(package.peers[name])
            &&& entry.edges[name].pkg_name == package.peers[name].name
        }
}

proof fn entries_are(packages: Map<IdModel, PackageModel>, ids: Seq<IdModel>, store: Seq<char>)
    ensures
        ({
            let entries = entries_for(packages, ids, store);
            &&& forall|i: int|
                0 <= i < ids.len() ==> entries.contains_key(rendered(#[trigger] ids[i]))
            &&& forall|key: Seq<char>| #[trigger]
                entries.contains_key(key) ==> exists|i: int|
                    0 <= i < ids.len() && rendered(#[trigger] ids[i]) == key && is_entry_of(
                        entries[key],
                        packages[ids[i]],
                        ids[i],
                        store,
                    )
        }),
    decreases ids.len(),
{
    if ids.len() > 0 {
        let shorter = ids.drop_last();
        let n = ids.len() - 1;
        let id = ids[n];
        entries_are(packages, shorter, store);
        let before = entries_for(packages, shorter, store);
        let after = entries_for(packages, ids, store);
        assert forall|i: int| 0 <= i < ids.len() implies after.contains_key(
            rendered(#[trigger] ids[i]),
        ) by {
            if i < n {
                assert(shorter[i] == ids[i]);
            }
        }
        assert forall|key: Seq<char>| #[trigger] after.contains_key(key) implies exists|i: int|
            0 <= i < ids.len() && rendered(#[trigger] ids[i]) == key && is_entry_of(
                after[key],
                packages[ids[i]],
                ids[i],
                store,
            ) by {
            if key == rendered(id) {
                assert(is_entry_of(after[key], packages[id], id, store));
                assert(ids[n] == id);
            } else {
                assert(before.contains_key(key));
                let i = choose|i: int|
                    0 <= i < shorter.len() && rendered(#[trigger] shorter[i]) == key && is_entry_of(
                        before[key],
                        packages[shorter[i]],
                        shorter[i],
                        store,
                    );
                assert(ids[i] == shorter[i]);
            }
        }
    }
}

/// Every package of a graph has an entry of the tree under its key, and every
/// entry is that of a package of this key, with a link at each of its
/// dependencies and at each of its peers.
pub proof fn every_package_has_its_entry(
    graph: GraphModel,
    workspace: WorkspaceModel,
    store: Seq<char>,
    id: IdModel,
)
    requires
        graph.packages.dom().finite(),
        graph.packages.contains_key(id),
    ensures
        ({
            let entries = planned(graph, workspace, store).entries;
            &&& entries.contains_key(rendered(id))
            &&& forall|key: Seq<char>| #[trigger]
                entries.contains_key(key) ==> exists|owner: IdModel| #[trigger]
                    graph.packages.contains_key(owner) && rendered(owner) == key && is_entry_of(
                        entries[key],
                        graph.packages[owner],
                        owner,
                        store,
                    )
            &&& (forall|other: IdModel| #[trigger]
                graph.packages.contains_key(other) && rendered(other) == rendered(id) ==> other
                    == id) ==> is_entry_of(entries[rendered(id)], graph.packages[id], id, store)
        }),
{
    let ids = in_order::<PackageId>(graph.packages.dom());
    in_order_lists::<PackageId>(graph.packages.dom());
    entries_are(graph.packages, ids, store);
    let entries = planned(graph, workspace, store).entries;
    assert(ids.to_set().contains(id));
    let k = ids.index_of(id);
    assert(entries.contains_key(rendered(ids[k])));
    assert forall|key: Seq<char>| #[trigger] entries.contains_key(key) implies exists|
        owner: IdModel,
    | #[trigger]
        graph.packages.contains_key(owner) && rendered(owner) == key && is_entry_of(
            entries[key],
            graph.packages[owner],
            owner,
            store,
        ) by {
        let i = choose|i: int|
            0 <= i < ids.len() && rendered(#[trigger] ids[i]) == key && is_entry_of(
                entries[key],
                graph.packages[ids[i]],
                ids[i],
                store,
            );
        assert(ids.to_set().contains(ids[i]));
        assert(graph.packages.contains_key(ids[i]));
    }
}

/// Is this what a project's `node_modules` holds: a link at each dependency it
/// has, at the package that was resolved for it or at the member of its name?
pub open spec fn are_links_of(
    links: Map<Seq<char>, TargetModel>,
    importer: Map<Seq<char>, DependencyModel>,
    workspace: WorkspaceModel,
) -> bool {
    &&& forall|name: Seq<char>| #[trigger]
        links.contains_key(name) <==> importer.contains_key(name)
    &&& forall|name: Seq<char>| #[trigger]
        importer.contains_key(name) ==> match importer[name].resolution {
            ResolutionModel::Registry(id) => links[name] is Entry
                && links[name]->Entry_0.dir_name == rendered(id)
                && links[name]->Entry_0.pkg_name == id.name,
            ResolutionModel::Local(_) => member_named(workspace, name) is Some ==> links[name]
                == TargetModel::Member((member_named(workspace, name)->0).path),
        }
}

proof fn importers_are(graph: GraphModel, workspace: WorkspaceModel, paths: Seq<Seq<char>>)
    ensures
        ({
            let importers = importers_for(graph, workspace, paths);
            &&& forall|i: int|
                0 <= i < paths.len() ==> importers.contains_key(
                    workspace.members[#[trigger] paths[i]].path,
                )
            &&& forall|dir: Seq<char>| #[trigger]
                importers.contains_key(dir) ==> exists|i: int|
                    0 <= i < paths.len() && workspace.members[#[trigger] paths[i]].path == dir
                        && are_links_of(importers[dir], graph.importers[paths[i]], workspace)
        }),
    decreases paths.len(),
{
    if paths.len() > 0 {
        let shorter = paths.drop_last();
        let n = paths.len() - 1;
        let path = paths[n];
        importers_are(graph, workspace, shorter);
        let before = importers_for(graph, workspace, shorter);
        let after = importers_for(graph, workspace, paths);
        assert forall|i: int| 0 <= i < paths.len() implies after.contains_key(
            workspace.members[#[trigger] paths[i]].path,
        ) by {
            if i < n {
                assert(shorter[i] == paths[i]);
            }
        }
        assert forall|dir: Seq<char>| #[trigger] after.contains_key(dir) implies exists|i: int|
            0 <= i < paths.len() && workspace.members[#[trigger] paths[i]].path == dir
                && are_links_of(after[dir], graph.importers[paths[i]], workspace) by {
            if dir == workspace.members[path].path {
                assert(are_links_of(after[dir], graph.importers[paths[n]], workspace));
            } else {
                assert(before.contains_key(dir));
                let i = choose|i: int|
                    0 <= i < shorter.len() && workspace.members[#[trigger] shorter[i]].path == dir
                        && are_links_of(before[dir], graph.importers[shorter[i]], workspace);
                assert(paths[i] == shorter[i]);
            }
        }
    }
}

/// Every project of a graph gets its links, in the directory of its own, and
/// nothing else does.
pub proof fn every_project_has_its_links(
    graph: GraphModel,
    workspace: WorkspaceModel,
    store: Seq<char>,
    path: Seq<char>,
)
    requires
        graph.importers.dom().finite(),
        graph.importers.contains_key(path),
    ensures
        ({
            let importers = planned(graph, workspace, store).importers;
            &&& importers.contains_key(workspace.members[path].path)
            &&& forall|dir: Seq<char>| #[trigger]
                importers.contains_key(dir) ==> exists|owner: Seq<char>| #[trigger]
                    graph.importers.contains_key(owner) && workspace.members[owner].path == dir
                        && are_links_of(importers[dir], graph.importers[owner], workspace)
            &&& (forall|other: Seq<char>| #[trigger]
                graph.importers.contains_key(other) && workspace.members[other].path
                    == workspace.members[path].path ==> other == path) ==> are_links_of(
                importers[workspace.members[path].path],
                graph.importers[path],
                workspace,
            )
        }),
{
    let paths = in_order::<ImporterPath>(graph.importers.dom());
    in_order_lists::<ImporterPath>(graph.importers.dom());
    importers_are(graph, workspace, paths);
    let importers = planned(graph, workspace, store).importers;
    assert(paths.to_set().contains(path));
    let k = paths.index_of(path);
    assert(importers.contains_key(workspace.members[paths[k]].path));
    assert forall|dir: Seq<char>| #[trigger] importers.contains_key(dir) implies exists|
        owner: Seq<char>,
    | #[trigger]
        graph.importers.contains_key(owner) && workspace.members[owner].path == dir && are_links_of(
            importers[dir],
            graph.importers[owner],
            workspace,
        ) by {
        let i = choose|i: int|
            0 <= i < paths.len() && workspace.members[#[trigger] paths[i]].path == dir
                && are_links_of(importers[dir], graph.importers[paths[i]], workspace);
        assert(paths.to_set().contains(paths[i]));
        assert(graph.importers.contains_key(paths[i]));
    }
}

proof fn dirs_are(members: MembersModel, paths: Seq<Seq<char>>, dir: Seq<char>)
    ensures
        dirs_of(members, paths).contains(dir) <==> exists|i: int|
            0 <= i < paths.len() && members[#[trigger] paths[i]].path == dir,
    decreases paths.len(),
{
    if paths.len() > 0 {
        let shorter = paths.drop_last();
        dirs_are(members, shorter, dir);
        let n = paths.len() - 1;
        if dirs_of(members, shorter).contains(dir) {
            let i = choose|i: int|
                0 <= i < shorter.len() && members[#[trigger] shorter[i]].path == dir;
            assert(paths[i] == shorter[i]);
        }
        if exists|i: int| 0 <= i < paths.len() && members[#[trigger] paths[i]].path == dir {
            let i = choose|i: int| 0 <= i < paths.len() && members[#[trigger] paths[i]].path == dir;
            if i < n {
                assert(shorter[i] == paths[i]);
            }
        }
        assert(members[paths[n]].path == members[paths.last()].path);
    }
}

/// A plan knows the directory of every member, and no other.
pub proof fn plans_know_every_member(
    graph: GraphModel,
    workspace: WorkspaceModel,
    store: Seq<char>,
    dir: Seq<char>,
)
    requires
        workspace.members.dom().finite(),
    ensures
        planned(graph, workspace, store).root == workspace.root,
        planned(graph, workspace, store).members.contains(dir) <==> exists|path: Seq<char>|
            #[trigger] workspace.members.contains_key(path) && workspace.members[path].path == dir,
{
    let paths = in_order::<ImporterPath>(workspace.members.dom());
    in_order_lists::<ImporterPath>(workspace.members.dom());
    dirs_are(workspace.members, paths, dir);
    if exists|i: int| 0 <= i < paths.len() && workspace.members[#[trigger] paths[i]].path == dir {
        let i = choose|i: int|
            0 <= i < paths.len() && workspace.members[#[trigger] paths[i]].path == dir;
        assert(paths.to_set().contains(paths[i]));
        assert(workspace.members.contains_key(paths[i]));
    }
    if exists|path: Seq<char>| #[trigger]
        workspace.members.contains_key(path) && workspace.members[path].path == dir {
        let path = choose|path: Seq<char>| #[trigger]
            workspace.members.contains_key(path) && workspace.members[path].path == dir;
        assert(paths.to_set().contains(path));
        let i = paths.index_of(path);
        assert(workspace.members[paths[i]].path == dir);
    }
}

} // verus!
