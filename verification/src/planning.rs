//! The tree that a resolved graph means for a workspace, and what a manifest
//! is to record of it.

use vstd::prelude::*;
use vstd::string::*;
use crate::cli::request_text;
use crate::graph::{
    DependencyModel, GraphModel, Importer, ImporterModel, PackageModel, Resolution,
    ResolutionModel, ResolvedGraph, ResolvedPackage,
};
use crate::importer::ImporterPath;
use crate::install::{
    declared_range, is_declared_range, AskedFor, Recorded, RecordedModel, Request,
};
use crate::manifest::text_under;
use crate::order::Duplicate;
use crate::package_id::{rendered, IdModel, PackageId};
use crate::plan::{
    EntryPlace, ImporterTarget, Plan, PlanModel, StoreEntry, TargetModel, VirtualModel,
    VirtualStoreEntry,
};
use crate::sorted::{in_order, merge, take_one_more, SortedMap, SortedSet};
use crate::specifier::{alias_parts, alias_target, ALIAS_PROTOCOL};
use crate::store::{entry_place, Store};
use crate::workspace::{member_named, MembersModel, Workspace, WorkspaceModel};

verus! {

/// Where a resolved package sits in the virtual store: the directory is named
/// for its whole identity, and what is nested in it for the package itself.
pub open spec fn place_of(id: IdModel) -> EntryPlace {
    EntryPlace { dir_name: rendered(id), pkg_name: id.name }
}

/// Where a resolved package sits in the virtual store.
pub fn store_entry(id: &PackageId) -> (entry: StoreEntry)
    ensures
        entry.deep_view() == place_of(id.deep_view()),
{
    StoreEntry { dir_name: id.to_string(), pkg_name: id.name.clone() }
}

/// The entry of the virtual store that a package means. Its peers are linked
/// like the dependencies that it declares.
pub open spec fn entry_for(package: PackageModel, id: IdModel, store: Seq<char>) -> VirtualModel {
    VirtualModel {
        store_path: entry_place(store, package.integrity),
        pkg_name: id.name,
        edges: package.peers.union_prefer_right(package.dependencies).map_values(
            |to: IdModel| place_of(to),
        ),
    }
}

/// The entries that some packages mean, by directory.
pub open spec fn entries_for(
    packages: Map<IdModel, PackageModel>,
    ids: Seq<IdModel>,
    store: Seq<char>,
) -> Map<Seq<char>, VirtualModel>
    decreases ids.len(),
{
    if ids.len() == 0 {
        Map::empty()
    } else {
        let id = ids.last();
        entries_for(packages, ids.drop_last(), store).insert(
            rendered(id),
            entry_for(packages[id], id, store),
        )
    }
}

/// What a declared dependency is linked at.
pub open spec fn target_of(
    workspace: WorkspaceModel,
    name: Seq<char>,
    dependency: DependencyModel,
) -> TargetModel {
    match dependency.resolution {
        ResolutionModel::Registry(id) => TargetModel::Entry(place_of(id)),
        ResolutionModel::Local(_) => TargetModel::Member(
            (member_named(workspace, name)->0).path,
        ),
    }
}

/// The links of one project.
pub open spec fn links_for(workspace: WorkspaceModel, importer: ImporterModel) -> Map<
    Seq<char>,
    TargetModel,
> {
    Map::new(
        |name: Seq<char>| importer.contains_key(name),
        |name: Seq<char>| target_of(workspace, name, importer[name]),
    )
}

/// The links of some projects, by their directories.
pub open spec fn importers_for(
    graph: GraphModel,
    workspace: WorkspaceModel,
    paths: Seq<Seq<char>>,
) -> Map<Seq<char>, Map<Seq<char>, TargetModel>>
    decreases paths.len(),
{
    if paths.len() == 0 {
        Map::empty()
    } else {
        let path = paths.last();
        importers_for(graph, workspace, paths.drop_last()).insert(
            workspace.members[path].path,
            links_for(workspace, graph.importers[path]),
        )
    }
}

/// The directories of some members.
pub open spec fn dirs_of(members: MembersModel, paths: Seq<Seq<char>>) -> Set<Seq<char>>
    decreases paths.len(),
{
    if paths.len() == 0 {
        Set::empty()
    } else {
        dirs_of(members, paths.drop_last()).insert(members[paths.last()].path)
    }
}

/// Does every dependency of a project that is linked in place name a member?
pub open spec fn locals_are_members(workspace: WorkspaceModel, importer: ImporterModel) -> bool {
    forall|name: Seq<char>| #[trigger]
        importer.contains_key(name) && importer[name].resolution is Local ==> member_named(
            workspace,
            name,
        ) is Some
}

/// Is every project of a graph a member, and everything linked in place one?
pub open spec fn is_plannable(graph: GraphModel, workspace: WorkspaceModel) -> bool {
    forall|path: Seq<char>| #[trigger]
        graph.importers.contains_key(path) ==> workspace.members.contains_key(path)
            && locals_are_members(workspace, graph.importers[path])
}

/// The tree that a graph means. Every project is named, even one that declares
/// nothing: it may have links to lose.
pub open spec fn planned(graph: GraphModel, workspace: WorkspaceModel, store: Seq<char>) -> PlanModel {
    PlanModel {
        root: workspace.root,
        members: dirs_of(
            workspace.members,
            in_order::<ImporterPath>(workspace.members.dom()),
        ),
        entries: entries_for(
            graph.packages,
            in_order::<PackageId>(graph.packages.dom()),
            store,
        ),
        importers: importers_for(
            graph,
            workspace,
            in_order::<ImporterPath>(graph.importers.dom()),
        ),
    }
}

fn edges_for(package: &ResolvedPackage) -> (edges: SortedMap<String, StoreEntry>)
    ensures
        edges.deep_view() == package.deep_view().peers.union_prefer_right(
            package.deep_view().dependencies,
        ).map_values(|to: IdModel| place_of(to)),
{
    let mut all = package.peers.duplicate();
    merge(&mut all, &package.dependencies);
    let ghost targets = all.deep_view();
    let ghost goal = targets.map_values(|to: IdModel| place_of(to));
    let mut edges: SortedMap<String, StoreEntry> = SortedMap::new();
    let n: usize = all.len();
    let ghost names = all.keys();
    assert(goal.restrict(names.take(0).to_set()) =~= Map::<Seq<char>, EntryPlace>::empty());
    let mut i: usize = 0;
    while i < n
        invariant
            i <= n == names.len(),
            names == all.keys(),
            targets == all.deep_view(),
            goal == targets.map_values(|to: IdModel| place_of(to)),
            edges.deep_view() == goal.restrict(names.take(i as int).to_set()),
        decreases n - i,
    {
        edges.insert(all.key_at(i).clone(), store_entry(all.value_at(i)));
        proof {
            take_one_more(names, i as int);
            assert(edges.deep_view() =~= goal.restrict(names.take(i + 1).to_set()));
        }
        i = i + 1;
    }
    assert(names.take(n as int) =~= names);
    assert(goal.restrict(names.to_set()) =~= goal);
    edges
}

fn links_of(workspace: &Workspace, importer: &Importer) -> (links: Option<
    SortedMap<String, ImporterTarget>,
>)
    ensures
        match links {
            Some(links) => locals_are_members(workspace.deep_view(), importer.deep_view())
                && links.deep_view() == links_for(workspace.deep_view(), importer.deep_view()),
            None => !locals_are_members(workspace.deep_view(), importer.deep_view()),
        },
{
    let ghost model = importer.deep_view();
    let ghost goal = links_for(workspace.deep_view(), model);
    let mut links: SortedMap<String, ImporterTarget> = SortedMap::new();
    let n: usize = importer.dependencies.len();
    let ghost names = importer.dependencies.keys();
    assert(goal.restrict(names.take(0).to_set()) =~= Map::<Seq<char>, TargetModel>::empty());
    let mut i: usize = 0;
    while i < n
        invariant
            i <= n == names.len(),
            names == importer.dependencies.keys(),
            model == importer.deep_view(),
            goal == links_for(workspace.deep_view(), model),
            links.deep_view() == goal.restrict(names.take(i as int).to_set()),
            forall|j: int|
                0 <= j < i ==> (model[#[trigger] names[j]].resolution is Local ==> member_named(
                    workspace.deep_view(),
                    names[j],
                ) is Some),
        decreases n - i,
    {
        let name = importer.dependencies.key_at(i);
        let dependency = importer.dependencies.value_at(i);
        let target = match &dependency.resolution {
            Resolution::Registry(id) => ImporterTarget::Entry(store_entry(id)),
            Resolution::Local(_) => match workspace.member_by_name(name.as_str()) {
                Some(member) => ImporterTarget::Member(member.path.clone()),
                None => {
                    assert(model.contains_key(name@) && model[name@].resolution is Local);
                    return None;
                },
            },
        };
        assert(target.deep_view() == target_of(workspace.deep_view(), name@, model[name@]));
        links.insert(name.clone(), target);
        proof {
            take_one_more(names, i as int);
            assert(links.deep_view() =~= goal.restrict(names.take(i + 1).to_set()));
        }
        i = i + 1;
    }
    assert(names.take(n as int) =~= names);
    assert(goal.restrict(names.to_set()) =~= goal);
    proof {
        assert forall|name: Seq<char>| #[trigger]
            model.contains_key(name) && model[name].resolution is Local implies member_named(
            workspace.deep_view(),
            name,
        ) is Some by {
            assert(names.to_set().contains(name));
            let j = names.index_of(name);
            assert(names[j] == name);
        }
    }
    Some(links)
}

fn member_dirs(workspace: &Workspace) -> (dirs: SortedSet<String>)
    ensures
        dirs.deep_view() == dirs_of(
            workspace.deep_view().members,
            in_order::<ImporterPath>(workspace.deep_view().members.dom()),
        ),
{
    let members = workspace.members();
    let ghost model = members.deep_view();
    let n: usize = members.len();
    let ghost paths = members.keys();
    let mut dirs: SortedSet<String> = SortedSet::new();
    let mut i: usize = 0;
    while i < n
        invariant
            i <= n == paths.len(),
            paths == members.keys(),
            model == members.deep_view(),
            dirs.deep_view() == dirs_of(model, paths.take(i as int)),
        decreases n - i,
    {
        assert(paths.take(i + 1).drop_last() =~= paths.take(i as int));
        assert(paths.take(i + 1).last() == paths[i as int]);
        dirs.insert(members.value_at(i).path.clone());
        i = i + 1;
    }
    assert(paths.take(n as int) =~= paths);
    dirs
}

/// The tree that a graph means for a workspace, unless a project of it is no
/// member, or something linked in place is none.
pub fn plan_for(graph: &ResolvedGraph, workspace: &Workspace, store: &Store) -> (plan: Option<Plan>)
    ensures
        match plan {
            Some(plan) => is_plannable(graph.deep_view(), workspace.deep_view())
                && plan.deep_view() == planned(
                graph.deep_view(),
                workspace.deep_view(),
                store.deep_view(),
            ),
            None => !is_plannable(graph.deep_view(), workspace.deep_view()),
        },
{
    let ghost model = graph.deep_view();
    let ghost space = workspace.deep_view();
    let ghost shelf = store.deep_view();
    let dirs = member_dirs(workspace);
    let ghost own_dirs = dirs.deep_view();
    let mut plan = Plan::new(workspace.root(), dirs);
    let n: usize = graph.packages.len();
    let ghost ids = graph.packages.keys();
    let mut i: usize = 0;
    while i < n
        invariant
            i <= n == ids.len(),
            ids == graph.packages.keys(),
            model == graph.deep_view(),
            shelf == store.deep_view(),
            plan.deep_view() == (PlanModel {
                root: space.root,
                members: own_dirs,
                entries: entries_for(model.packages, ids.take(i as int), shelf),
                importers: Map::empty(),
            }),
        decreases n - i,
    {
        let id = graph.packages.key_at(i);
        let package = graph.packages.value_at(i);
        assert(ids.take(i + 1).drop_last() =~= ids.take(i as int));
        assert(ids.take(i + 1).last() == id.deep_view());
        let entry = VirtualStoreEntry {
            store_path: store.entry_path(&package.integrity),
            pkg_name: id.name.clone(),
            edges: edges_for(package),
        };
        plan.add_entry(id.to_string().as_str(), entry);
        i = i + 1;
    }
    assert(ids.take(n as int) =~= ids);
    let m: usize = graph.importers.len();
    let ghost paths = graph.importers.keys();
    let mut j: usize = 0;
    while j < m
        invariant
            j <= m == paths.len(),
            paths == graph.importers.keys(),
            model == graph.deep_view(),
            space == workspace.deep_view(),
            plan.deep_view() == (PlanModel {
                root: space.root,
                members: own_dirs,
                entries: entries_for(model.packages, ids, shelf),
                importers: importers_for(model, space, paths.take(j as int)),
            }),
            forall|k: int|
                0 <= k < j ==> space.members.contains_key(#[trigger] paths[k])
                    && locals_are_members(space, model.importers[paths[k]]),
        decreases m - j,
    {
        let path = graph.importers.key_at(j);
        let importer = graph.importers.value_at(j);
        assert(paths.take(j + 1).drop_last() =~= paths.take(j as int));
        assert(paths.take(j + 1).last() == path.deep_view());
        assert(model.importers.contains_key(path.deep_view()));
        let member = match workspace.members().get(path) {
            Some(member) => member,
            None => {
                return None;
            },
        };
        let links = match links_of(workspace, importer) {
            Some(links) => links,
            None => {
                return None;
            },
        };
        plan.add_importer(member.path.as_str(), links);
        j = j + 1;
    }
    assert(paths.take(m as int) =~= paths);
    proof {
        assert forall|path: Seq<char>| #[trigger]
            model.importers.contains_key(path) implies space.members.contains_key(path)
            && locals_are_members(space, model.importers[path]) by {
            assert(paths.to_set().contains(path));
            let k = paths.index_of(path);
            assert(paths[k] == path);
        }
    }
    Some(plan)
}

/// The range that was asked for, or else a pin.
pub open spec fn range_or_pin(seed: Seq<char>, version: Seq<char>) -> Seq<char> {
    if is_declared_range(seed) {
        seed
    } else {
        version
    }
}

/// What to write for a request that resolved to a version: the range that was
/// asked for, or else exactly that version, and for an alias either of them
/// behind the name that it stands for.
pub open spec fn specifier_for(seed: Seq<char>, version: Seq<char>) -> Seq<char> {
    match alias_parts(seed) {
        Some((aliased, range)) => ALIAS_PROTOCOL@ + aliased + "@"@ + range_or_pin(range, version),
        None => range_or_pin(seed, version),
    }
}

/// What a manifest should record for a request, if there is something that it
/// resolved to.
pub open spec fn recording_for(
    request: AskedFor,
    graph: GraphModel,
    workspace: WorkspaceModel,
) -> Option<RecordedModel> {
    if !graph.importers.contains_key(request.importer)
        || !graph.importers[request.importer].contains_key(request.name) {
        None
    } else {
        let resolved = graph.importers[request.importer][request.name];
        match resolved.resolution {
            ResolutionModel::Registry(id) => Some(
                RecordedModel {
                    name: request.name,
                    specifier: specifier_for(request_text(request.seed), id.version),
                    version: id.version,
                    kind: resolved.kind,
                },
            ),
            ResolutionModel::Local(_) => match member_named(workspace, request.name) {
                Some(member) => Some(
                    RecordedModel {
                        name: request.name,
                        specifier: resolved.specifier,
                        version: match text_under(member.manifest.members, "version"@) {
                            Some(version) => version,
                            None => "local"@,
                        },
                        kind: resolved.kind,
                    },
                ),
                None => None,
            },
        }
    }
}

fn keep_range(seed: &str, version: &str) -> (text: String)
    ensures
        text@ == range_or_pin(seed@, version@),
{
    match declared_range(seed) {
        Some(range) => range.to_owned(),
        None => version.to_owned(),
    }
}

/// What a manifest should record for a request, and what that resolved to.
///
/// A version is pinned, and never a range made up over it: a caret would let
/// the next install pick a version that nobody asked for. A range that was
/// asked for is kept, though, and a member is recorded by the protocol that
/// named it, because its version is whatever it says today.
pub fn record_for(request: &Request, graph: &ResolvedGraph, workspace: &Workspace) -> (recorded:
    Option<Recorded>)
    ensures
        match recorded {
            Some(recorded) => recording_for(
                request.deep_view(),
                graph.deep_view(),
                workspace.deep_view(),
            ) == Some(recorded.deep_view()),
            None => recording_for(
                request.deep_view(),
                graph.deep_view(),
                workspace.deep_view(),
            ) is None,
        },
{
    let importer = match graph.importers.get(&request.importer) {
        Some(importer) => importer,
        None => {
            return None;
        },
    };
    let resolved = match importer.dependencies.get(&request.name) {
        Some(resolved) => resolved,
        None => {
            return None;
        },
    };
    match &resolved.resolution {
        Resolution::Registry(id) => {
            let seed = request.seed.as_request();
            let specifier = match alias_target(seed) {
                Some((aliased, range)) => {
                    let mut text = ALIAS_PROTOCOL.to_owned();
                    text.append(aliased);
                    text.append("@");
                    text.append(keep_range(range, id.version.as_str()).as_str());
                    text
                },
                None => keep_range(seed, id.version.as_str()),
            };
            Some(
                Recorded {
                    name: request.name.clone(),
                    specifier,
                    version: id.version.clone(),
                    kind: resolved.kind,
                },
            )
        },
        Resolution::Local(_) => match workspace.member_by_name(request.name.as_str()) {
            Some(member) => {
                let version = match member.manifest.version() {
                    Some(version) => version.to_owned(),
                    None => "local".to_owned(),
                };
                Some(
                    Recorded {
                        name: request.name.clone(),
                        specifier: resolved.specifier.clone(),
                        version,
                        kind: resolved.kind,
                    },
                )
            },
            None => None,
        },
    }
}

} // verus!
