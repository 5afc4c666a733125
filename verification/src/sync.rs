//! One sync, from the manifests to the tree: what is asked of the registry,
//! what the graph comes to, and everything that follows from it.

use vstd::prelude::*;
use vstd::string::*;
use crate::cli::{request_text, PackageSpec};
use crate::complaints::{
    complaint_list, complaints_of, unsatisfied_peers, ComplaintModel, UnsatisfiedPeer,
};
use crate::graph::{
    as_declared, platform_graph, reachable_graph, skipped_on, Declared, DeclaredModel, Dependency,
    DependencyModel, GraphModel, Importer, ImporterModel, Kind, PackageModel, ResolvedGraph,
    ResolvedPackage,
};
use crate::importer::ImporterPath;
use crate::install::{
    disagreement, first_disagreement, is_reusable, is_unconstrained, locked_view, recorded_in,
    request_view, reusable_importers, reused_from, unconstrained_range, AskedFor, InstallError, InstallFault,
    Installed, InstalledModel, Mode, Recorded, RecordedModel, Request, Skipped,
};
use crate::install_laws::{answers_for, is_keyed};
use crate::integrity::{
    same_bytes, ssri_of, store_key_of, Integrity, IntegrityFault, IntegrityModel,
};
use crate::linker::Unowned;
use crate::lockfile::{lock_of, save, LockModel, OnDisk, LOCKFILE_NAME};
use crate::manifest::{
    declared_by, declared_in, with_dependency, with_dependency_moved, Manifest, ManifestModel,
};
use crate::order::Duplicate;
use crate::package_id::{plain_id, IdModel, PackageId};
use crate::path::{join, put_after};
use crate::peer_laws::graphs_are_finite;
use crate::peer_pass::{peers_resolved, resolve_peers};
use crate::plan::{Plan, PlanModel};
use crate::plan_laws::{
    a_sync_has_a_plan, an_install_records, no_link_is_gone, resolutions_suit_a_plan,
};
use crate::planning::{is_plannable, plan_for, planned, record_for, recording_for};
use crate::platform::{Platform, PlatformModel};
use crate::reach_laws::links_lead_to_members;
use crate::registry::{bytes_view, result_view, Download, RegistryClient, RegistryError};
use crate::sorted::{first_of, first_stays, in_order, merge, take_one_more, SortedMap, SortedSet};
use crate::specifier::ResolveFault;
use crate::store::Store;
use crate::walk::{
    answered, asks_nothing, empty_projects_ask_nothing, resolve, resolves_to, roots_are_finite,
    Book, Roots,
};
use crate::workspace::{name_of, spell_importers, MembersModel, Workspace, WorkspaceModel};

verus! {

/// What the projects of a workspace declare.
pub open spec fn declared_of(members: MembersModel) -> Roots {
    Map::new(
        |path: Seq<char>| members.contains_key(path),
        |path: Seq<char>| declared_in(members[path].manifest.members),
    )
}

/// Where each of some members is, by its name. One without a name cannot be
/// depended on.
pub open spec fn names_of(members: MembersModel, paths: Seq<Seq<char>>) -> Map<
    Seq<char>,
    Seq<char>,
>
    decreases paths.len(),
{
    if paths.len() == 0 {
        Map::empty()
    } else {
        let before = names_of(members, paths.drop_last());
        match name_of(members[paths.last()]) {
            Some(name) => before.insert(name, members[paths.last()].importer),
            None => before,
        }
    }
}

/// What is wrong with a request: it rules nothing out, or it is for a project
/// that is not there.
pub open spec fn request_fault(workspace: WorkspaceModel, request: Option<AskedFor>) -> Option<
    InstallFault,
> {
    match request {
        None => None,
        Some(request) => if is_unconstrained(request_text(request.seed)) {
            Some(
                InstallFault::UnconstrainedRange {
                    name: request.name,
                    requested: request_text(request.seed),
                },
            )
        } else if !workspace.members.contains_key(request.importer) {
            Some(
                InstallFault::UnknownImporter {
                    importer: request.importer,
                    members: in_order::<ImporterPath>(workspace.members.dom()),
                },
            )
        } else {
            None
        },
    }
}

/// What keeps a production sync from starting: there is no lockfile, or it
/// disagrees with a manifest.
pub open spec fn production_fault(
    root: Seq<char>,
    locked: Option<GraphModel>,
    declared: Roots,
) -> Option<InstallFault> {
    match locked {
        None => Some(
            InstallFault::ProductionLockfileMissing { path: put_after(root, LOCKFILE_NAME@) },
        ),
        Some(locked) => disagreement(locked, declared),
    }
}

/// The section that a request is recorded under: the one it names, or else the
/// one the manifest has it in already.
pub open spec fn section_asked(declares: Map<Seq<char>, DeclaredModel>, request: AskedFor) -> Kind {
    match request.kind {
        Some(kind) => kind,
        None => if declares.contains_key(request.name) {
            declares[request.name].kind
        } else {
            Kind::Prod
        },
    }
}

/// What is left to resolve: what the projects declare that the lockfile does
/// not answer for, with the request among it if it is for one of those.
pub open spec fn stale_of(
    declared: Roots,
    reused: Map<Seq<char>, ImporterModel>,
    request: Option<AskedFor>,
) -> Roots {
    let stale = declared.restrict(
        Set::new(|path: Seq<char>| declared.contains_key(path) && !reused.contains_key(path)),
    );
    match request {
        Some(request) => if stale.contains_key(request.importer) {
            let declares = stale[request.importer];
            stale.insert(
                request.importer,
                declares.insert(
                    request.name,
                    DeclaredModel {
                        specifier: request_text(request.seed),
                        kind: section_asked(declares, request),
                    },
                ),
            )
        } else {
            stale
        },
        None => stale,
    }
}

/// What is known before anything is resolved.
pub struct PreparedModel {
    pub members: Map<Seq<char>, Seq<char>>,
    pub reused: Map<Seq<char>, ImporterModel>,
    pub stale: Roots,
}

/// What is known before anything is resolved, or why nothing is.
pub open spec fn prepared_for(
    workspace: WorkspaceModel,
    locked: Option<GraphModel>,
    request: Option<AskedFor>,
    mode: Mode,
) -> Result<PreparedModel, InstallFault> {
    let declared = declared_of(workspace.members);
    match request_fault(workspace, request) {
        Some(fault) => Err(fault),
        None => {
            let refused = if mode == Mode::Production {
                production_fault(workspace.root, locked, declared)
            } else {
                None
            };
            match refused {
                Some(fault) => Err(fault),
                None => {
                    let reused = reused_from(locked, declared, request);
                    Ok(
                        PreparedModel {
                            members: names_of(
                                workspace.members,
                                in_order::<ImporterPath>(workspace.members.dom()),
                            ),
                            reused,
                            stale: stale_of(declared, reused, request),
                        },
                    )
                },
            }
        },
    }
}

/// What is known before anything is resolved.
#[derive(Debug)]
pub struct Prepared {
    /// Where each named member is.
    pub members: SortedMap<String, ImporterPath>,
    /// The projects that the lockfile still answers for.
    pub reused: SortedMap<ImporterPath, Importer>,
    /// What is left to resolve.
    pub stale: SortedMap<ImporterPath, SortedMap<String, Declared>>,
}

impl DeepView for Prepared {
    type V = PreparedModel;

    open spec fn deep_view(&self) -> PreparedModel {
        PreparedModel {
            members: self.members.deep_view(),
            reused: self.reused.deep_view(),
            stale: self.stale.deep_view(),
        }
    }
}

fn gather_declared(workspace: &Workspace) -> (declared: SortedMap<
    ImporterPath,
    SortedMap<String, Declared>,
>)
    ensures
        declared.deep_view() == declared_of(workspace.deep_view().members),
{
    let members = workspace.members();
    let ghost model = members.deep_view();
    let ghost goal = declared_of(model);
    let mut declared: SortedMap<ImporterPath, SortedMap<String, Declared>> = SortedMap::new();
    let n: usize = members.len();
    let ghost paths = members.keys();
    assert(goal.restrict(paths.take(0).to_set()) =~= Map::<
        Seq<char>,
        Map<Seq<char>, DeclaredModel>,
    >::empty());
    let mut i: usize = 0;
    while i < n
        invariant
            i <= n == paths.len(),
            paths == members.keys(),
            model == members.deep_view(),
            goal == declared_of(model),
            declared.deep_view() == goal.restrict(paths.take(i as int).to_set()),
        decreases n - i,
    {
        let member = members.value_at(i);
        declared.insert(members.key_at(i).duplicate(), declared_by(&member.manifest));
        proof {
            take_one_more(paths, i as int);
            assert(declared.deep_view() =~= goal.restrict(paths.take(i + 1).to_set()));
        }
        i = i + 1;
    }
    assert(paths.take(n as int) =~= paths);
    assert(goal.restrict(paths.to_set()) =~= goal);
    declared
}

fn gather_names(workspace: &Workspace) -> (names: SortedMap<String, ImporterPath>)
    ensures
        names.deep_view() == names_of(
            workspace.deep_view().members,
            in_order::<ImporterPath>(workspace.deep_view().members.dom()),
        ),
{
    let members = workspace.members();
    let ghost model = members.deep_view();
    let mut names: SortedMap<String, ImporterPath> = SortedMap::new();
    let n: usize = members.len();
    let ghost paths = members.keys();
    let mut i: usize = 0;
    while i < n
        invariant
            i <= n == paths.len(),
            paths == members.keys(),
            model == members.deep_view(),
            names.deep_view() == names_of(model, paths.take(i as int)),
        decreases n - i,
    {
        let member = members.value_at(i);
        assert(paths.take(i + 1).drop_last() =~= paths.take(i as int));
        assert(paths.take(i + 1).last() == paths[i as int]);
        if let Some(name) = member.manifest.name() {
            names.insert(name.to_owned(), member.importer.duplicate());
        }
        i = i + 1;
    }
    assert(paths.take(n as int) =~= paths);
    names
}

fn leave_out(
    declared: &SortedMap<ImporterPath, SortedMap<String, Declared>>,
    reused: &SortedMap<ImporterPath, Importer>,
) -> (stale: SortedMap<ImporterPath, SortedMap<String, Declared>>)
    ensures
        stale.deep_view() == stale_of(declared.deep_view(), reused.deep_view(), None),
        stale.deep_view().dom().finite(),
{
    let ghost roots = declared.deep_view();
    let ghost goal = stale_of(roots, reused.deep_view(), None);
    let mut stale: SortedMap<ImporterPath, SortedMap<String, Declared>> = SortedMap::new();
    let n: usize = declared.len();
    let ghost paths = declared.keys();
    assert(goal.restrict(paths.take(0).to_set()) =~= Map::<
        Seq<char>,
        Map<Seq<char>, DeclaredModel>,
    >::empty());
    let mut i: usize = 0;
    while i < n
        invariant
            i <= n == paths.len(),
            paths == declared.keys(),
            roots == declared.deep_view(),
            goal == stale_of(roots, reused.deep_view(), None),
            stale.deep_view() == goal.restrict(paths.take(i as int).to_set()),
        decreases n - i,
    {
        let path = declared.key_at(i);
        if !reused.contains(path) {
            stale.insert(path.duplicate(), declared.value_at(i).duplicate());
        }
        proof {
            take_one_more(paths, i as int);
            assert(stale.deep_view() =~= goal.restrict(paths.take(i + 1).to_set()));
        }
        i = i + 1;
    }
    assert(paths.take(n as int) =~= paths);
    assert(goal.restrict(paths.to_set()) =~= goal);
    proof {
        assert(goal.dom().subset_of(roots.dom()));
        vstd::set_lib::lemma_set_subset_finite(roots.dom(), goal.dom());
    }
    stale
}

/// What is wrong with a request, as the error to stop with. It is asked before
/// anything is looked up, the lockfile included.
pub fn refuse_request(workspace: &Workspace, request: &Request) -> (error: Option<InstallError>)
    ensures
        match error {
            Some(error) => request_fault(workspace.deep_view(), Some(request.deep_view())) == Some(
                error.deep_view(),
            ),
            None => request_fault(workspace.deep_view(), Some(request.deep_view())) is None,
        },
{
    if let Some(unconstrained) = unconstrained_range(request.seed.as_request()) {
        return Some(
            InstallError::UnconstrainedRange {
                name: request.name.clone(),
                requested: unconstrained.to_owned(),
            },
        );
    }
    if !workspace.members().contains(&request.importer) {
        return Some(
            InstallError::UnknownImporter {
                importer: request.importer.as_str().to_owned(),
                members: spell_importers(workspace),
            },
        );
    }
    None
}

/// Work out what is known before anything is resolved, or refuse to start.
/// Nothing is looked up or written before this has passed.
pub fn prepare(
    workspace: &Workspace,
    locked: Option<&ResolvedGraph>,
    request: Option<&Request>,
    mode: Mode,
) -> (prepared: Result<Prepared, InstallError>)
    ensures
        result_view(prepared) == prepared_for(
            workspace.deep_view(),
            locked_view(locked),
            request_view(request),
            mode,
        ),
        mode == Mode::Production && request is None && prepared is Ok ==> asks_nothing(
            (prepared->Ok_0).deep_view().stale,
            (prepared->Ok_0).deep_view().members,
        ),
{
    if let Some(request) = request {
        if let Some(error) = refuse_request(workspace, request) {
            return Err(error);
        }
    }
    let declared = gather_declared(workspace);
    let members = gather_names(workspace);
    if mode == Mode::Production {
        match locked {
            None => {
                return Err(
                    InstallError::ProductionLockfileMissing {
                        path: join(workspace.root(), LOCKFILE_NAME),
                    },
                );
            },
            Some(locked) => {
                if let Some(error) = first_disagreement(locked, &declared) {
                    return Err(error);
                }
            },
        }
    }
    let reused = reusable_importers(locked, &declared, request);
    let mut stale = leave_out(&declared, &reused);
    proof {
        if mode == Mode::Production && request is None {
            let roots = declared.deep_view();
            let lock = locked->0.deep_view();
            let left = stale.deep_view();
            assert forall|path: Seq<char>| #[trigger] left.contains_key(path) implies left[path]
                == Map::<Seq<char>, DeclaredModel>::empty() by {
                assert(roots.contains_key(path));
                if lock.importers.contains_key(path) {
                    assert(is_reusable(lock, roots, None, path));
                } else {
                    assert(as_declared(recorded_in(lock, path)) =~= Map::<
                        Seq<char>,
                        DeclaredModel,
                    >::empty());
                }
            }
            empty_projects_ask_nothing(left, members.deep_view());
        }
    }
    if let Some(request) = request {
        let ghost before = stale.deep_view();
        if let Some(taken) = stale.take(&request.importer) {
            let mut declares = taken;
            let kind = match request.kind {
                Some(kind) => kind,
                None => match declares.get(&request.name) {
                    Some(declared) => declared.kind,
                    None => Kind::Prod,
                },
            };
            declares.insert(
                request.name.clone(),
                Declared { specifier: request.seed.as_request().to_owned(), kind },
            );
            let ghost now = declares.deep_view();
            stale.insert(request.importer.duplicate(), declares);
            assert(before.remove(request.importer.deep_view()).insert(
                request.importer.deep_view(),
                now,
            ) =~= before.insert(request.importer.deep_view(), now));
        } else {
            assert(stale.deep_view() =~= before);
        }
    }
    Ok(Prepared { members, reused, stale })
}

/// Is there anything to ask? Where every project was reused, the lockfile is
/// the answer.
pub open spec fn needs_resolving(prepared: PreparedModel, locked: Option<GraphModel>) -> bool {
    locked is None || prepared.stale != Map::<Seq<char>, Map<Seq<char>, DeclaredModel>>::empty()
}

/// A graph of nothing.
pub open spec fn empty_graph() -> GraphModel {
    GraphModel { importers: Map::empty(), packages: Map::empty() }
}

/// The packages that a lockfile records.
pub open spec fn locked_packages(locked: Option<GraphModel>) -> Map<IdModel, PackageModel> {
    match locked {
        Some(locked) => locked.packages,
        None => Map::empty(),
    }
}

/// What was reused and what was resolved, in one graph, with what no project
/// leads to dropped.
pub open spec fn combined(
    reused: Map<Seq<char>, ImporterModel>,
    locked: Option<GraphModel>,
    resolved: GraphModel,
) -> GraphModel {
    reachable_graph(
        GraphModel {
            importers: reused.union_prefer_right(resolved.importers),
            packages: locked_packages(locked).union_prefer_right(resolved.packages),
        },
    )
}

/// The production dependencies of a project.
pub open spec fn production_only(importer: ImporterModel) -> ImporterModel {
    importer.restrict(
        Set::new(
            |name: Seq<char>| importer.contains_key(name) && importer[name].kind == Kind::Prod,
        ),
    )
}

/// A graph narrowed to what a mode is for.
pub open spec fn narrowed(graph: GraphModel, mode: Mode) -> GraphModel {
    match mode {
        Mode::Develop => graph,
        Mode::Production => reachable_graph(
            GraphModel {
                importers: graph.importers.map_values(
                    |importer: ImporterModel| production_only(importer),
                ),
                packages: graph.packages,
            },
        ),
    }
}

/// What some packages must hash to.
pub open spec fn hashes_among(packages: Map<IdModel, PackageModel>, ids: Seq<IdModel>) -> Map<
    IdModel,
    IntegrityModel,
>
    decreases ids.len(),
{
    if ids.len() == 0 {
        Map::empty()
    } else {
        hashes_among(packages, ids.drop_last()).insert(
            packages[ids.last()].id,
            packages[ids.last()].integrity,
        )
    }
}

/// What a lockfile says that packages must hash to.
pub open spec fn locked_hashes(locked: Option<GraphModel>) -> Map<IdModel, IntegrityModel> {
    hashes_among(
        locked_packages(locked),
        in_order::<PackageId>(locked_packages(locked).dom()),
    )
}

/// How a package is said to hash to something else than the lockfile says.
pub open spec fn mismatched(
    hashes: Map<IdModel, IntegrityModel>,
    packages: Map<IdModel, PackageModel>,
) -> spec_fn(IdModel) -> Option<InstallFault> {
    |id: IdModel|
        {
            if hashes.contains_key(id) && hashes[id] != packages[id].integrity {
                Some(
                    InstallFault::LockedIntegrityMismatch {
                        name: id.name,
                        version: id.version,
                        locked: ssri_of(hashes[id]),
                        reported: ssri_of(packages[id].integrity),
                    },
                )
            } else {
                None
            }
        }
}

/// The first package that is said to hash to something else than the lockfile
/// says.
pub open spec fn gate_fault(locked: Option<GraphModel>, graph: GraphModel) -> Option<InstallFault> {
    first_of(
        in_order::<PackageId>(graph.packages.dom()),
        mismatched(locked_hashes(locked), graph.packages),
    )
}

/// The graph that a sync comes to, given what was resolved.
pub open spec fn settled(
    prepared: PreparedModel,
    locked: Option<GraphModel>,
    resolved: GraphModel,
    mode: Mode,
) -> Result<GraphModel, InstallFault> {
    let graph = narrowed(combined(prepared.reused, locked, resolved), mode);
    match gate_fault(locked, graph) {
        Some(fault) => Err(fault),
        None => Ok(graph),
    }
}

fn keep_production(importer: &Importer) -> (kept: Importer)
    ensures
        kept.deep_view() == production_only(importer.deep_view()),
{
    let ghost model = importer.deep_view();
    let ghost goal = production_only(model);
    let mut dependencies: SortedMap<String, Dependency> = SortedMap::new();
    let n: usize = importer.dependencies.len();
    let ghost names = importer.dependencies.keys();
    assert(goal.restrict(names.take(0).to_set()) =~= Map::<Seq<char>, DependencyModel>::empty());
    let mut i: usize = 0;
    while i < n
        invariant
            i <= n == names.len(),
            names == importer.dependencies.keys(),
            model == importer.deep_view(),
            goal == production_only(model),
            dependencies.deep_view() == goal.restrict(names.take(i as int).to_set()),
        decreases n - i,
    {
        let dependency = importer.dependencies.value_at(i);
        if dependency.kind == Kind::Prod {
            dependencies.insert(
                importer.dependencies.key_at(i).clone(),
                dependency.duplicate(),
            );
        }
        proof {
            take_one_more(names, i as int);
            assert(dependencies.deep_view() =~= goal.restrict(names.take(i + 1).to_set()));
        }
        i = i + 1;
    }
    assert(names.take(n as int) =~= names);
    assert(goal.restrict(names.to_set()) =~= goal);
    Importer { dependencies }
}

fn narrow(graph: ResolvedGraph, mode: Mode) -> (narrow: ResolvedGraph)
    ensures
        narrow.deep_view() == narrowed(graph.deep_view(), mode),
{
    if mode == Mode::Develop {
        return graph;
    }
    let ghost model = graph.deep_view();
    let ghost goal = model.importers.map_values(
        |importer: ImporterModel| production_only(importer),
    );
    let mut importers: SortedMap<ImporterPath, Importer> = SortedMap::new();
    let n: usize = graph.importers.len();
    let ghost paths = graph.importers.keys();
    assert(goal.restrict(paths.take(0).to_set()) =~= Map::<Seq<char>, ImporterModel>::empty());
    let mut i: usize = 0;
    while i < n
        invariant
            i <= n == paths.len(),
            paths == graph.importers.keys(),
            model == graph.deep_view(),
            goal == model.importers.map_values(
                |importer: ImporterModel| production_only(importer),
            ),
            importers.deep_view() == goal.restrict(paths.take(i as int).to_set()),
        decreases n - i,
    {
        importers.insert(
            graph.importers.key_at(i).duplicate(),
            keep_production(graph.importers.value_at(i)),
        );
        proof {
            take_one_more(paths, i as int);
            assert(importers.deep_view() =~= goal.restrict(paths.take(i + 1).to_set()));
        }
        i = i + 1;
    }
    assert(paths.take(n as int) =~= paths);
    assert(goal.restrict(paths.to_set()) =~= goal);
    ResolvedGraph { importers, packages: graph.packages }.reachable()
}

fn collect_hashes(packages: &SortedMap<PackageId, ResolvedPackage>) -> (hashes: SortedMap<
    PackageId,
    Integrity,
>)
    ensures
        hashes.deep_view() == hashes_among(
            packages.deep_view(),
            in_order::<PackageId>(packages.deep_view().dom()),
        ),
{
    let ghost model = packages.deep_view();
    let mut hashes: SortedMap<PackageId, Integrity> = SortedMap::new();
    let n: usize = packages.len();
    let ghost ids = packages.keys();
    let mut i: usize = 0;
    while i < n
        invariant
            i <= n == ids.len(),
            ids == packages.keys(),
            model == packages.deep_view(),
            hashes.deep_view() == hashes_among(model, ids.take(i as int)),
        decreases n - i,
    {
        let package = packages.value_at(i);
        assert(ids.take(i + 1).drop_last() =~= ids.take(i as int));
        assert(ids.take(i + 1).last() == ids[i as int]);
        hashes.insert(package.id.duplicate(), package.integrity.duplicate());
        i = i + 1;
    }
    assert(ids.take(n as int) =~= ids);
    hashes
}

fn same_integrity(a: &Integrity, b: &Integrity) -> (equal: bool)
    ensures
        equal == (a.deep_view() == b.deep_view()),
{
    a.algo == b.algo && same_bytes(&a.digest, &b.digest)
}

fn check_hashes(hashes: &SortedMap<PackageId, Integrity>, graph: &ResolvedGraph) -> (checked: Option<
    InstallError,
>)
    ensures
        ({
            let fault = first_of(
                in_order::<PackageId>(graph.deep_view().packages.dom()),
                mismatched(hashes.deep_view(), graph.deep_view().packages),
            );
            match checked {
                Some(error) => fault == Some(error.deep_view()),
                None => fault is None,
            }
        }),
{
    let ghost model = graph.deep_view();
    let ghost test = mismatched(hashes.deep_view(), model.packages);
    let n: usize = graph.packages.len();
    let ghost ids = graph.packages.keys();
    let mut i: usize = 0;
    while i < n
        invariant
            i <= n == ids.len(),
            ids == graph.packages.keys(),
            ids == in_order::<PackageId>(model.packages.dom()),
            model == graph.deep_view(),
            test == mismatched(hashes.deep_view(), model.packages),
            first_of(ids.take(i as int), test) is None,
        decreases n - i,
    {
        let id = graph.packages.key_at(i);
        let package = graph.packages.value_at(i);
        assert(ids.take(i + 1).drop_last() =~= ids.take(i as int));
        assert(ids.take(i + 1).last() == id.deep_view());
        if let Some(locked) = hashes.get(id) {
            if !same_integrity(locked, &package.integrity) {
                proof {
                    first_stays(ids, test, i + 1);
                }
                return Some(
                    InstallError::LockedIntegrityMismatch {
                        name: id.name.clone(),
                        version: id.version.clone(),
                        locked: locked.to_ssri(),
                        reported: package.integrity.to_ssri(),
                    },
                );
            }
        }
        i = i + 1;
    }
    assert(ids.take(n as int) =~= ids);
    None
}

/// The graph that a sync comes to, given what was resolved. Every package is
/// held against what the lockfile says it hashes to, before a byte is fetched.
pub fn settle(
    prepared: Prepared,
    locked: Option<&ResolvedGraph>,
    resolved: ResolvedGraph,
    mode: Mode,
) -> (graph: Result<ResolvedGraph, InstallError>)
    ensures
        result_view(graph) == settled(
            prepared.deep_view(),
            locked_view(locked),
            resolved.deep_view(),
            mode,
        ),
{
    let ghost past = locked_view(locked);
    let mut packages: SortedMap<PackageId, ResolvedPackage> = match locked {
        Some(locked) => locked.packages.duplicate(),
        None => SortedMap::new(),
    };
    assert(packages.deep_view() == locked_packages(past));
    let hashes = collect_hashes(&packages);
    let mut importers = prepared.reused;
    merge(&mut importers, &resolved.importers);
    merge(&mut packages, &resolved.packages);
    let graph = narrow(ResolvedGraph { importers, packages }.reachable(), mode);
    match check_hashes(&hashes, &graph) {
        Some(error) => Err(error),
        None => Ok(graph),
    }
}

/// Some packages by name and version.
pub open spec fn listed(ids: Seq<IdModel>) -> Seq<InstalledModel> {
    ids.map_values(|id: IdModel| InstalledModel { name: id.name, version: id.version })
}

/// The versions that some packages are copies of, each under its plain
/// identity, however many copies of it there are.
pub open spec fn versions_in(packages: Map<IdModel, PackageModel>) -> Set<IdModel> {
    Set::new(
        |id: IdModel|
            exists|copy: IdModel| #[trigger]
                packages.contains_key(copy) && id == plain_id(copy.name, copy.version),
    )
}

/// The packages that a platform leaves out, in order.
pub open spec fn skipped_ids(graph: GraphModel, platform: PlatformModel) -> Seq<IdModel> {
    in_order::<PackageId>(Set::new(|id: IdModel| skipped_on(graph, platform, id)))
}

/// What a manifest records is what the lockfile records, so that the one does
/// not find the other out of date.
pub open spec fn with_specifier(
    graph: GraphModel,
    path: Seq<char>,
    name: Seq<char>,
    specifier: Seq<char>,
) -> GraphModel {
    let importer = graph.importers[path];
    GraphModel {
        importers: graph.importers.insert(
            path,
            importer.insert(name, DependencyModel { specifier, ..importer[name] }),
        ),
        ..graph
    }
}

/// Everything that follows from the graph of a sync.
pub struct SyncedModel {
    /// The versions that are linked, each once.
    pub linked: Seq<InstalledModel>,
    /// The packages that this machine does not take.
    pub skipped: Seq<InstalledModel>,
    /// The required peers that nothing answers.
    pub unsatisfied_peers: Seq<ComplaintModel>,
    /// What is to be fetched and linked here.
    pub graph: GraphModel,
    /// The tree to make, if the graph fits the workspace.
    pub plan: Option<PlanModel>,
    /// What to record of the request, if it resolved to something.
    pub recorded: Option<RecordedModel>,
    /// The lockfile to write, if one is to be written.
    pub lock: Option<LockModel>,
}

/// What to record of a request.
pub open spec fn recording_of(
    workspace: WorkspaceModel,
    graph: GraphModel,
    request: Option<AskedFor>,
) -> Option<RecordedModel> {
    match request {
        Some(request) => recording_for(request, graph, workspace),
        None => None,
    }
}

/// Everything that follows from the graph of a sync. What this machine leaves
/// out is not linked, but the lockfile is the same on every machine.
pub open spec fn synced(
    workspace: WorkspaceModel,
    store: Seq<char>,
    graph: GraphModel,
    request: Option<AskedFor>,
    mode: Mode,
    platform: PlatformModel,
) -> SyncedModel {
    let here = platform_graph(graph, platform);
    let recorded = recording_of(workspace, graph, request);
    SyncedModel {
        linked: listed(in_order::<PackageId>(versions_in(here.packages))),
        skipped: listed(skipped_ids(graph, platform)),
        unsatisfied_peers: complaint_list(complaints_of(graph)),
        graph: here,
        plan: if is_plannable(here, workspace) {
            Some(planned(here, workspace, store))
        } else {
            None
        },
        recorded,
        lock: match mode {
            Mode::Production => None,
            Mode::Develop => Some(
                lock_of(
                    match recorded {
                        Some(recorded) => with_specifier(
                            graph,
                            (request->0).importer,
                            recorded.name,
                            recorded.specifier,
                        ),
                        None => graph,
                    },
                ),
            ),
        },
    }
}

/// Everything that follows from the graph of a sync.
#[derive(Debug)]
pub struct Synced {
    pub linked: Vec<Installed>,
    pub skipped: Vec<Skipped>,
    pub unsatisfied_peers: Vec<UnsatisfiedPeer>,
    pub graph: ResolvedGraph,
    pub plan: Option<Plan>,
    pub recorded: Option<Recorded>,
    pub lock: Option<OnDisk>,
}

impl DeepView for Synced {
    type V = SyncedModel;

    open spec fn deep_view(&self) -> SyncedModel {
        SyncedModel {
            linked: self.linked.deep_view(),
            skipped: self.skipped.deep_view(),
            unsatisfied_peers: self.unsatisfied_peers.deep_view(),
            graph: self.graph.deep_view(),
            plan: match self.plan {
                Some(plan) => Some(plan.deep_view()),
                None => None,
            },
            recorded: match self.recorded {
                Some(recorded) => Some(recorded.deep_view()),
                None => None,
            },
            lock: match self.lock {
                Some(lock) => Some(lock.deep_view()),
                None => None,
            },
        }
    }
}

/// What a sync did.
#[derive(Debug)]
pub struct Outcome {
    /// Every registry package that the workspace now has linked, each version
    /// once, however many projects and peers asked for it. Members are linked
    /// in place, and not among them.
    pub linked: Vec<Installed>,
    /// What was found in a project's `node_modules` and left where it was.
    pub left_alone: Vec<Unowned>,
    /// What to record of the request, if there was one.
    pub recorded: Option<Recorded>,
    /// The packages that this machine did not take.
    pub skipped: Vec<Skipped>,
    /// The required peers that nothing answers.
    pub unsatisfied_peers: Vec<UnsatisfiedPeer>,
}

impl Synced {
    /// What a sync did, once its tree was made.
    pub fn into_outcome(self, left_alone: Vec<Unowned>) -> (outcome: Outcome)
        ensures
            outcome.linked == self.linked,
            outcome.left_alone == left_alone,
            outcome.recorded == self.recorded,
            outcome.skipped == self.skipped,
            outcome.unsatisfied_peers == self.unsatisfied_peers,
    {
        Outcome {
            linked: self.linked,
            left_alone,
            recorded: self.recorded,
            skipped: self.skipped,
            unsatisfied_peers: self.unsatisfied_peers,
        }
    }
}

fn list_linked(graph: &ResolvedGraph) -> (linked: Vec<Installed>)
    ensures
        linked.deep_view() == listed(
            in_order::<PackageId>(versions_in(graph.deep_view().packages)),
        ),
{
    let n: usize = graph.packages.len();
    let ghost ids = graph.packages.keys();
    let ghost packages = graph.deep_view().packages;
    let mut versions: SortedSet<PackageId> = SortedSet::new();
    let mut i: usize = 0;
    while i < n
        invariant
            i <= n == ids.len(),
            ids == graph.packages.keys(),
            packages == graph.packages.deep_view(),
            forall|id: IdModel| #[trigger]
                versions.deep_view().contains(id) <==> exists|j: int|
                    0 <= j < i && id == plain_id((#[trigger] ids[j]).name, ids[j].version),
        decreases n - i,
    {
        let id = graph.packages.key_at(i);
        let ghost before = versions.deep_view();
        versions.insert(PackageId::plain(id.name.as_str(), id.version.as_str()));
        assert forall|id: IdModel| #[trigger]
            versions.deep_view().contains(id) <==> exists|j: int|
                0 <= j < i + 1 && id == plain_id((#[trigger] ids[j]).name, ids[j].version) by {
            if before.contains(id) {
                let j = choose|j: int|
                    0 <= j < i && id == plain_id((#[trigger] ids[j]).name, ids[j].version);
                assert(0 <= j < i + 1 && id == plain_id(ids[j].name, ids[j].version));
            }
        }
        i = i + 1;
    }
    proof {
        assert forall|id: IdModel| versions.deep_view().contains(id) == versions_in(
            packages,
        ).contains(id) by {
            if versions.deep_view().contains(id) {
                let j = choose|j: int|
                    0 <= j < n && id == plain_id((#[trigger] ids[j]).name, ids[j].version);
                assert(ids.to_set().contains(ids[j]));
                assert(packages.contains_key(ids[j]));
            }
            if versions_in(packages).contains(id) {
                let copy = choose|copy: IdModel| #[trigger]
                    packages.contains_key(copy) && id == plain_id(copy.name, copy.version);
                assert(ids.to_set().contains(copy));
                let j = ids.index_of(copy);
                assert(id == plain_id(ids[j].name, ids[j].version));
            }
        }
        assert(versions.deep_view() =~= versions_in(packages));
    }
    let list = versions.into_list();
    let mut linked: Vec<Installed> = Vec::new();
    let mut k: usize = 0;
    while k < list.len()
        invariant
            k <= list@.len(),
            linked@.len() == k,
            forall|j: int|
                0 <= j < k ==> (#[trigger] linked@[j]).deep_view() == (InstalledModel {
                    name: list@[j].deep_view().name,
                    version: list@[j].deep_view().version,
                }),
        decreases list.len() - k,
    {
        linked.push(Installed { name: list[k].name.clone(), version: list[k].version.clone() });
        k = k + 1;
    }
    assert(linked.deep_view() =~= listed(list.deep_view()));
    linked
}

fn list_skipped(ids: &Vec<PackageId>) -> (skipped: Vec<Skipped>)
    ensures
        skipped.deep_view() == listed(ids.deep_view()),
{
    let mut skipped: Vec<Skipped> = Vec::new();
    let mut i: usize = 0;
    while i < ids.len()
        invariant
            i <= ids@.len(),
            skipped@.len() == i,
            forall|j: int|
                0 <= j < i ==> (#[trigger] skipped@[j]).deep_view() == (InstalledModel {
                    name: ids@[j].deep_view().name,
                    version: ids@[j].deep_view().version,
                }),
        decreases ids.len() - i,
    {
        skipped.push(Skipped { name: ids[i].name.clone(), version: ids[i].version.clone() });
        i = i + 1;
    }
    assert(skipped.deep_view() =~= listed(ids.deep_view()));
    skipped
}

fn set_specifier(graph: ResolvedGraph, path: &ImporterPath, name: &String, specifier: &str) -> (
changed: ResolvedGraph)
    requires
        graph.deep_view().importers.contains_key(path.deep_view()),
        graph.deep_view().importers[path.deep_view()].contains_key(name@),
    ensures
        changed.deep_view() == with_specifier(
            graph.deep_view(),
            path.deep_view(),
            name@,
            specifier@,
        ),
{
    let ghost model = graph.deep_view();
    let ghost at = path.deep_view();
    let mut importers = graph.importers;
    if let Some(taken) = importers.take(path) {
        let mut importer = taken;
        let ghost held = importer.deep_view();
        if let Some(found) = importer.dependencies.take(name) {
            let mut dependency = found;
            dependency.specifier = specifier.to_owned();
            let ghost now = dependency.deep_view();
            importer.dependencies.insert(name.clone(), dependency);
            assert(held.remove(name@).insert(name@, now) =~= held.insert(name@, now));
        }
        let ghost now = importer.deep_view();
        importers.insert(path.duplicate(), importer);
        assert(model.importers.remove(at).insert(at, now) =~= model.importers.insert(at, now));
    }
    ResolvedGraph { importers, packages: graph.packages }
}

/// Work out everything that follows from the graph of a sync.
pub fn conclude(
    workspace: &Workspace,
    store: &Store,
    graph: ResolvedGraph,
    request: Option<&Request>,
    mode: Mode,
    platform: &Platform,
) -> (outcome: Synced)
    ensures
        outcome.deep_view() == synced(
            workspace.deep_view(),
            store.deep_view(),
            graph.deep_view(),
            request_view(request),
            mode,
            platform.deep_view(),
        ),
{
    let ghost model = graph.deep_view();
    let ghost machine = platform.deep_view();
    let (here, left_out) = graph.for_platform(platform);
    proof {
        let wanted = Set::new(|id: IdModel| skipped_on(model, machine, id));
        assert forall|id: IdModel| left_out.deep_view().to_set().contains(id) == wanted.contains(
            id,
        ) by {
            assert(left_out.deep_view().contains(id) <==> skipped_on(model, machine, id));
        }
        assert(left_out.deep_view().to_set() =~= wanted);
    }
    let linked = list_linked(&here);
    let skipped = list_skipped(&left_out);
    let complaints = unsatisfied_peers(&graph);
    let plan = plan_for(&here, workspace, store);
    let recorded = match request {
        Some(request) => record_for(request, &graph, workspace),
        None => None,
    };
    let lock = if mode == Mode::Develop {
        let full = match (request, &recorded) {
            (Some(request), Some(recorded)) => set_specifier(
                graph,
                &request.importer,
                &recorded.name,
                recorded.specifier.as_str(),
            ),
            _ => graph,
        };
        Some(save(&full))
    } else {
        None
    };
    Synced { linked, skipped, unsatisfied_peers: complaints, graph: here, plan, recorded, lock }
}

/// What a sync makes of what was resolved.
pub open spec fn finished(
    workspace: WorkspaceModel,
    store: Seq<char>,
    prepared: PreparedModel,
    locked: Option<GraphModel>,
    resolved: GraphModel,
    request: Option<AskedFor>,
    mode: Mode,
    platform: PlatformModel,
) -> Result<SyncedModel, InstallFault> {
    match settled(prepared, locked, resolved, mode) {
        Ok(graph) => Ok(synced(workspace, store, graph, request, mode, platform)),
        Err(fault) => Err(fault),
    }
}

/// Is this what a sync comes to, under some answers of the registry?
pub open spec fn is_synced<R: RegistryClient>(
    registry: R,
    workspace: WorkspaceModel,
    store: Seq<char>,
    locked: Option<GraphModel>,
    request: Option<AskedFor>,
    mode: Mode,
    platform: PlatformModel,
    outcome: Result<SyncedModel, InstallFault>,
) -> bool {
    match prepared_for(workspace, locked, request, mode) {
        Err(fault) => outcome == Err::<SyncedModel, InstallFault>(fault),
        Ok(prepared) => if needs_resolving(prepared, locked) {
            exists|book: Book, graph: Result<GraphModel, ResolveFault>|
                #![trigger resolves_to(book, prepared.stale, prepared.members, graph)]
                answered(registry, Map::empty(), book) && resolves_to(
                    book,
                    prepared.stale,
                    prepared.members,
                    graph,
                ) && match graph {
                    Err(fault) => outcome == Err::<SyncedModel, InstallFault>(
                        InstallFault::Resolve(fault),
                    ),
                    Ok(graph) => exists|levels: nat|
                        match #[trigger] peers_resolved(graph, levels) {
                            Some(resolved) => outcome == finished(
                                workspace,
                                store,
                                prepared,
                                locked,
                                resolved,
                                request,
                                mode,
                                platform,
                            ),
                            None => false,
                        },
                }
        } else {
            outcome == finished(
                workspace,
                store,
                prepared,
                locked,
                empty_graph(),
                request,
                mode,
                platform,
            )
        },
    }
}

/// Does every link that a sync reuses still lead to a member?
pub open spec fn links_are_there(
    workspace: WorkspaceModel,
    locked: Option<GraphModel>,
    request: Option<AskedFor>,
    mode: Mode,
) -> bool {
    match prepared_for(workspace, locked, request, mode) {
        Ok(prepared) => no_link_is_gone(workspace, prepared),
        Err(_) => true,
    }
}

/// Make a workspace match what its manifests declare, and a request: work out
/// everything that is to be fetched, linked and written.
///
/// What the lockfile still answers for is not asked again, and what every
/// project declares is resolved together. Where nothing is left to resolve the
/// registry is never asked, and a production sync never asks it. Where it
/// succeeds there is a tree to make, and something to record of a request,
/// unless a project that is reused links a member that is gone.
pub fn sync<R: RegistryClient>(
    workspace: &Workspace,
    store: &Store,
    locked: Option<&ResolvedGraph>,
    registry: &mut R,
    request: Option<&Request>,
    mode: Mode,
    platform: &Platform,
) -> (outcome: Result<Synced, InstallError>)
    ensures
        is_synced(
            *old(registry),
            workspace.deep_view(),
            store.deep_view(),
            locked_view(locked),
            request_view(request),
            mode,
            platform.deep_view(),
            result_view(outcome),
        ),
        match prepared_for(
            workspace.deep_view(),
            locked_view(locked),
            request_view(request),
            mode,
        ) {
            Ok(prepared) => !needs_resolving(prepared, locked_view(locked)),
            Err(_) => true,
        } ==> *final(registry) == *old(registry),
        mode == Mode::Production && request is None ==> *final(registry) == *old(registry),
        outcome is Ok && links_are_there(
            workspace.deep_view(),
            locked_view(locked),
            request_view(request),
            mode,
        ) ==> (outcome->Ok_0).plan is Some,
        outcome is Ok && request is Some && mode == Mode::Develop && links_are_there(
            workspace.deep_view(),
            locked_view(locked),
            request_view(request),
            mode,
        ) && is_keyed(locked_packages(locked_view(locked))) ==> (outcome->Ok_0).recorded is Some,
{
    let prepared = match prepare(workspace, locked, request, mode) {
        Ok(prepared) => prepared,
        Err(error) => {
            return Err(error);
        },
    };
    let ghost known = prepared.deep_view();
    let ghost past = locked_view(locked);
    let ghost client = *registry;
    let asks = locked.is_none() || !prepared.stale.is_empty();
    assert(asks == needs_resolving(known, past));
    let ghost mut book: Book = Map::empty();
    let ghost mut walked: Result<GraphModel, ResolveFault> = Ok(empty_graph());
    let resolved = if asks {
        let answer = resolve(registry, &prepared.stale, &prepared.members);
        proof {
            walked = result_view(answer);
            book =
            choose|book: Book| #[trigger]
                answered(client, Map::empty(), book) && resolves_to(
                    book,
                    known.stale,
                    known.members,
                    walked,
                );
        }
        match answer {
            Ok(graph) => {
                proof {
                    roots_are_finite(&prepared.stale);
                    graphs_are_finite(&graph);
                }
                resolve_peers(graph).0
            },
            Err(error) => {
                return Err(InstallError::Resolve(error));
            },
        }
    } else {
        ResolvedGraph { importers: SortedMap::new(), packages: SortedMap::new() }
    };
    let ghost found = resolved.deep_view();
    proof {
        if asks {
            let graph = walked->Ok_0;
            assert(resolves_to(book, known.stale, known.members, walked));
            assert(exists|levels: nat| #[trigger] peers_resolved(graph, levels) == Some(found));
            let levels = choose|levels: nat| #[trigger] peers_resolved(graph, levels) == Some(found);
            resolutions_suit_a_plan(book, known, graph, levels);
        } else {
            assert(answers_for(empty_graph(), known.stale));
            assert(found == empty_graph()) by {
                assert(found.importers =~= empty_graph().importers);
                assert(found.packages =~= empty_graph().packages);
            }
        }
        assert(answers_for(found, known.stale));
        assert(links_lead_to_members(found.importers, known.members));
    }
    let outcome = match settle(prepared, locked, resolved, mode) {
        Ok(graph) => Ok(conclude(workspace, store, graph, request, mode, platform)),
        Err(error) => Err(error),
    };
    proof {
        let ended = result_view(outcome);
        assert(ended == finished(
            workspace.deep_view(),
            store.deep_view(),
            known,
            past,
            found,
            request_view(request),
            mode,
            platform.deep_view(),
        ));
        if asks {
            let graph = walked->Ok_0;
            let levels = choose|levels: nat| #[trigger]
                peers_resolved(graph, levels) == Some(found);
            assert(peers_resolved(graph, levels) == Some(found));
        }
        if outcome is Ok && no_link_is_gone(workspace.deep_view(), known) {
            let graph = settled(known, past, found, mode)->Ok_0;
            a_sync_has_a_plan(
                workspace.deep_view(),
                store.deep_view(),
                past,
                request_view(request),
                mode,
                known,
                found,
                graph,
                platform.deep_view(),
            );
            if request is Some && mode == Mode::Develop && is_keyed(locked_packages(past)) {
                an_install_records(
                    workspace.deep_view(),
                    store.deep_view(),
                    past,
                    request_view(request)->0,
                    known,
                    found,
                    graph,
                    platform.deep_view(),
                );
            }
        }
    }
    outcome
}

/// The packages that are not in the store yet, in order, among some.
pub open spec fn missing_among(
    packages: Map<IdModel, PackageModel>,
    ids: Seq<IdModel>,
    entries: Set<Seq<char>>,
) -> Seq<IdModel>
    decreases ids.len(),
{
    if ids.len() == 0 {
        seq![]
    } else {
        let before = missing_among(packages, ids.drop_last(), entries);
        if entries.contains(store_key_of(packages[ids.last()].integrity)) {
            before
        } else {
            before.push(ids.last())
        }
    }
}

/// The packages that are not in the store yet, in order. This is decided
/// before any of them is fetched, so that none is fetched twice.
pub fn fetch_missing(graph: &ResolvedGraph, store: &Store, entries: &SortedSet<String>) -> (missing:
    Vec<PackageId>)
    ensures
        missing.deep_view() == missing_among(
            graph.deep_view().packages,
            in_order::<PackageId>(graph.deep_view().packages.dom()),
            entries.deep_view(),
        ),
{
    let ghost packages = graph.deep_view().packages;
    let n: usize = graph.packages.len();
    let ghost ids = graph.packages.keys();
    let mut missing: Vec<PackageId> = Vec::new();
    assert(missing.deep_view() =~= seq![]);
    let mut i: usize = 0;
    while i < n
        invariant
            i <= n == ids.len(),
            ids == graph.packages.keys(),
            packages == graph.deep_view().packages,
            missing.deep_view() == missing_among(packages, ids.take(i as int), entries.deep_view()),
        decreases n - i,
    {
        let package = graph.packages.value_at(i);
        let ghost before = missing.deep_view();
        assert(ids.take(i + 1).drop_last() =~= ids.take(i as int));
        assert(ids.take(i + 1).last() == ids[i as int]);
        if !store.contains(&package.integrity, entries) {
            missing.push(graph.packages.key_at(i).duplicate());
            assert(missing.deep_view() =~= before.push(ids[i as int]));
        }
        i = i + 1;
    }
    assert(ids.take(n as int) =~= ids);
    missing
}

/// The bytes of a tarball, if they were fetched and hash to what they were said
/// to hash to, or what is wrong with them.
pub open spec fn vetted(
    id: IdModel,
    wanted: IntegrityModel,
    fetched: Download,
) -> Result<Seq<u8>, InstallFault> {
    match fetched {
        Err(fault) => Err(InstallFault::Registry(fault)),
        Ok(bytes) => {
            let hash = wanted.algo.spec_hash(bytes);
            if hash == wanted.digest {
                Ok(bytes)
            } else {
                Err(
                    InstallFault::Integrity {
                        name: id.name,
                        version: id.version,
                        source: IntegrityFault::Mismatch {
                            expected: ssri_of(wanted),
                            actual: ssri_of(IntegrityModel { algo: wanted.algo, digest: hash }),
                        },
                    },
                )
            }
        },
    }
}

/// The bytes of a tarball that was vetted, or why it was refused.
pub open spec fn tarball_view(tarball: Result<Vec<u8>, InstallError>) -> Result<
    Seq<u8>,
    InstallFault,
> {
    match tarball {
        Ok(bytes) => Ok(bytes@),
        Err(error) => Err(error.deep_view()),
    }
}

/// The bytes of a tarball, if they were fetched and are what they were said to
/// be. The whole of it is verified before any of it is unpacked.
pub fn verified(
    id: &PackageId,
    package: &ResolvedPackage,
    fetched: Result<Vec<u8>, RegistryError>,
) -> (tarball: Result<Vec<u8>, InstallError>)
    ensures
        tarball_view(tarball) == vetted(
            id.deep_view(),
            package.integrity.deep_view(),
            bytes_view(fetched),
        ),
{
    match fetched {
        Err(error) => Err(InstallError::Registry(error)),
        Ok(bytes) => match package.integrity.verify(bytes.as_slice()) {
            Ok(_) => Ok(bytes),
            Err(source) => Err(
                InstallError::Integrity {
                    name: id.name.clone(),
                    version: id.version.clone(),
                    source,
                },
            ),
        },
    }
}

/// Fetch one package from where it was resolved to, and verify it. What comes
/// back is fit to be unpacked.
pub fn fetch_one<R: RegistryClient>(
    id: &PackageId,
    package: &ResolvedPackage,
    registry: &mut R,
) -> (tarball: Result<Vec<u8>, InstallError>)
    ensures
        exists|fetched: Download| #[trigger]
            old(registry).may_fetch(package.resolved@, fetched) && tarball_view(tarball) == vetted(
                id.deep_view(),
                package.integrity.deep_view(),
                fetched,
            ),
{
    let fetched = registry.fetch_tarball(package.resolved.as_str());
    verified(id, package, fetched)
}

/// A manifest with a request recorded. One that named a section moves the
/// dependency there. One that named none changes a version, and leaves any
/// other declaration of the name as it is.
pub open spec fn manifest_after(
    manifest: ManifestModel,
    recorded: RecordedModel,
    kind: Option<Kind>,
) -> ManifestModel {
    ManifestModel {
        members: match kind {
            Some(_) => with_dependency_moved(
                manifest.members,
                recorded.name,
                recorded.specifier,
                recorded.kind,
            ),
            None => with_dependency(
                manifest.members,
                recorded.name,
                recorded.specifier,
                recorded.kind,
            ),
        },
        ..manifest
    }
}

/// Record a request in a manifest.
pub fn record_in(manifest: &mut Manifest, recorded: &Recorded, kind: Option<Kind>)
    ensures
        final(manifest).deep_view() == manifest_after(
            old(manifest).deep_view(),
            recorded.deep_view(),
            kind,
        ),
{
    if kind.is_some() {
        manifest.move_dependency(
            recorded.name.as_str(),
            recorded.specifier.as_str(),
            recorded.kind,
        );
    } else {
        manifest.add_dependency(
            recorded.name.as_str(),
            recorded.specifier.as_str(),
            recorded.kind,
        );
    }
}

/// Is this what installing a package comes to: what the sync comes to, and the
/// manifest that records it?
pub open spec fn is_installed(
    workspace: WorkspaceModel,
    request: AskedFor,
    outcome: Result<SyncedModel, InstallFault>,
    installed: Result<(SyncedModel, Option<ManifestModel>), InstallFault>,
) -> bool {
    match outcome {
        Err(fault) => installed == Err::<(SyncedModel, Option<ManifestModel>), InstallFault>(fault),
        Ok(done) => installed == Ok::<(SyncedModel, Option<ManifestModel>), InstallFault>(
            (
                done,
                match done.recorded {
                    Some(recorded) => if workspace.members.contains_key(request.importer) {
                        Some(
                            manifest_after(
                                workspace.members[request.importer].manifest,
                                recorded,
                                request.kind,
                            ),
                        )
                    } else {
                        None
                    },
                    None => None,
                },
            ),
        ),
    }
}

/// What installing a package means.
pub open spec fn install_view(
    installed: Result<(Synced, Option<Manifest>), InstallError>,
) -> Result<(SyncedModel, Option<ManifestModel>), InstallFault> {
    match installed {
        Ok((done, manifest)) => Ok(
            (
                done.deep_view(),
                match manifest {
                    Some(manifest) => Some(manifest.deep_view()),
                    None => None,
                },
            ),
        ),
        Err(error) => Err(error.deep_view()),
    }
}

/// Install one package into a project: sync the whole workspace with it
/// requested, and record what came of it in the project's manifest. The
/// manifest comes with the rest, to be written last: it never claims what is
/// not there.
pub fn install<R: RegistryClient>(
    workspace: &Workspace,
    importer: &ImporterPath,
    store: &Store,
    locked: Option<&ResolvedGraph>,
    registry: &mut R,
    spec: &PackageSpec,
    kind: Option<Kind>,
    platform: &Platform,
) -> (installed: Result<(Synced, Option<Manifest>), InstallError>)
    ensures
        ({
            let request = AskedFor {
                importer: importer.deep_view(),
                name: spec.deep_view().name,
                seed: spec.deep_view().version,
                kind,
            };
            exists|outcome: Result<SyncedModel, InstallFault>| #[trigger]
                is_synced(
                    *old(registry),
                    workspace.deep_view(),
                    store.deep_view(),
                    locked_view(locked),
                    Some(request),
                    Mode::Develop,
                    platform.deep_view(),
                    outcome,
                ) && is_installed(
                    workspace.deep_view(),
                    request,
                    outcome,
                    install_view(installed),
                )
        }),
        installed is Ok && links_are_there(
            workspace.deep_view(),
            locked_view(locked),
            Some(
                AskedFor {
                    importer: importer.deep_view(),
                    name: spec.deep_view().name,
                    seed: spec.deep_view().version,
                    kind,
                },
            ),
            Mode::Develop,
        ) && is_keyed(locked_packages(locked_view(locked))) ==> {
            &&& (installed->Ok_0).0.recorded is Some
            &&& (installed->Ok_0).0.plan is Some
            &&& (installed->Ok_0).1 is Some
        },
{
    let request = Request {
        importer: importer.duplicate(),
        name: spec.name.clone(),
        seed: spec.version.duplicate(),
        kind,
    };
    let synced = sync(workspace, store, locked, registry, Some(&request), Mode::Develop, platform);
    let ghost outcome = result_view(synced);
    match synced {
        Err(error) => Err(error),
        Ok(done) => {
            let target = workspace.members().get(importer);
            let manifest = match (&done.recorded, target) {
                (Some(recorded), Some(member)) => {
                    let mut manifest = member.manifest.duplicate();
                    record_in(&mut manifest, recorded, kind);
                    Some(manifest)
                },
                _ => None,
            };
            Ok((done, manifest))
        },
    }
}

} // verus!
