//! The resolved graph: what each project asked for, what that became, and
//! what each package needs in turn.

use vstd::prelude::*;
use vstd::string::*;
use crate::binaries::Bins;
use crate::importer::ImporterPath;
use crate::integrity::{Integrity, IntegrityModel};
use crate::order::Duplicate;
use crate::package_id::{IdModel, PackageId};
use crate::platform::{
    support_admits, Platform, PlatformModel, PlatformSupport, SupportModel,
};
use crate::sorted::{in_order, take_one_more, SortedMap, SortedSet};
use crate::text::same;

verus! {

/// One `peerDependencies` entry, with the flag its meta entry carries.
#[derive(Debug)]
pub struct DeclaredPeer {
    pub range: String,
    /// May the peer be absent without a complaint?
    pub optional: bool,
}

/// What a [`DeclaredPeer`] means.
pub struct PeerModel {
    pub range: Seq<char>,
    pub optional: bool,
}

impl DeepView for DeclaredPeer {
    type V = PeerModel;

    open spec fn deep_view(&self) -> PeerModel {
        PeerModel { range: self.range@, optional: self.optional }
    }
}

impl Duplicate for DeclaredPeer {
    fn duplicate(&self) -> (copy: Self) {
        DeclaredPeer { range: self.range.clone(), optional: self.optional }
    }
}

/// One node of the graph.
#[derive(Debug)]
pub struct ResolvedPackage {
    pub id: PackageId,
    /// The tarball's address.
    pub resolved: String,
    pub integrity: Integrity,
    /// What this package calls a dependency, and the node it resolved to.
    pub dependencies: SortedMap<String, PackageId>,
    /// Which of those names were declared optional.
    pub optional_dependencies: SortedSet<String>,
    /// What the package published about the machines it runs on.
    pub supports: PlatformSupport,
    /// The entry points it publishes.
    pub bins: Bins,
    /// What it requires of its consumer, as published.
    pub declared_peers: SortedMap<String, DeclaredPeer>,
    /// What its own peers resolved to.
    pub peers: SortedMap<String, PackageId>,
}

/// What a [`ResolvedPackage`] means.
pub struct PackageModel {
    pub id: IdModel,
    pub resolved: Seq<char>,
    pub integrity: IntegrityModel,
    pub dependencies: Map<Seq<char>, IdModel>,
    pub optional_dependencies: Set<Seq<char>>,
    pub supports: SupportModel,
    pub bins: Map<Seq<char>, Seq<char>>,
    pub declared_peers: Map<Seq<char>, PeerModel>,
    pub peers: Map<Seq<char>, IdModel>,
}

impl DeepView for ResolvedPackage {
    type V = PackageModel;

    open spec fn deep_view(&self) -> PackageModel {
        PackageModel {
            id: self.id.deep_view(),
            resolved: self.resolved@,
            integrity: self.integrity.deep_view(),
            dependencies: self.dependencies.deep_view(),
            optional_dependencies: self.optional_dependencies.deep_view(),
            supports: self.supports.deep_view(),
            bins: self.bins.deep_view(),
            declared_peers: self.declared_peers.deep_view(),
            peers: self.peers.deep_view(),
        }
    }
}

impl Duplicate for ResolvedPackage {
    fn duplicate(&self) -> (copy: Self) {
        ResolvedPackage {
            id: self.id.duplicate(),
            resolved: self.resolved.clone(),
            integrity: self.integrity.duplicate(),
            dependencies: self.dependencies.duplicate(),
            optional_dependencies: self.optional_dependencies.duplicate(),
            supports: self.supports.duplicate(),
            bins: self.bins.duplicate(),
            declared_peers: self.declared_peers.duplicate(),
            peers: self.peers.duplicate(),
        }
    }
}

/// Where a declared dependency actually came from.
#[derive(Debug)]
pub enum Resolution {
    /// Fetched from the registry.
    Registry(PackageId),
    /// A workspace member, linked in place. The path is relative to the
    /// importer that declared it.
    Local(String),
}

/// What a [`Resolution`] means.
pub enum ResolutionModel {
    Registry(IdModel),
    Local(Seq<char>),
}

impl DeepView for Resolution {
    type V = ResolutionModel;

    open spec fn deep_view(&self) -> ResolutionModel {
        match self {
            Resolution::Registry(id) => ResolutionModel::Registry(id.deep_view()),
            Resolution::Local(path) => ResolutionModel::Local(path@),
        }
    }
}

impl Duplicate for Resolution {
    fn duplicate(&self) -> (copy: Self) {
        match self {
            Resolution::Registry(id) => Resolution::Registry(id.duplicate()),
            Resolution::Local(path) => Resolution::Local(path.clone()),
        }
    }
}

/// Which section of a manifest declared a dependency.
#[derive(Debug, Clone, Copy, PartialEq, Eq, Structural)]
pub enum Kind {
    Prod,
    Dev,
}

/// What an importer declares: a specifier, and the section it came from.
#[derive(Debug)]
pub struct Declared {
    pub specifier: String,
    pub kind: Kind,
}

/// What a [`Declared`] means.
pub struct DeclaredModel {
    pub specifier: Seq<char>,
    pub kind: Kind,
}

impl DeepView for Declared {
    type V = DeclaredModel;

    open spec fn deep_view(&self) -> DeclaredModel {
        DeclaredModel { specifier: self.specifier@, kind: self.kind }
    }
}

impl Duplicate for Declared {
    fn duplicate(&self) -> (copy: Self) {
        Declared { specifier: self.specifier.clone(), kind: self.kind }
    }
}

/// One dependency as an importer declared it, and what it resolved to.
#[derive(Debug)]
pub struct Dependency {
    pub specifier: String,
    pub kind: Kind,
    pub resolution: Resolution,
}

/// What a [`Dependency`] means.
pub struct DependencyModel {
    pub specifier: Seq<char>,
    pub kind: Kind,
    pub resolution: ResolutionModel,
}

impl DeepView for Dependency {
    type V = DependencyModel;

    open spec fn deep_view(&self) -> DependencyModel {
        DependencyModel {
            specifier: self.specifier@,
            kind: self.kind,
            resolution: self.resolution.deep_view(),
        }
    }
}

impl Duplicate for Dependency {
    fn duplicate(&self) -> (copy: Self) {
        Dependency {
            specifier: self.specifier.clone(),
            kind: self.kind,
            resolution: self.resolution.duplicate(),
        }
    }
}

/// One project in the workspace and the dependencies it declares.
#[derive(Debug)]
pub struct Importer {
    pub dependencies: SortedMap<String, Dependency>,
}

/// What an [`Importer`] means: its dependencies by the name each is declared
/// under.
pub type ImporterModel = Map<Seq<char>, DependencyModel>;

impl DeepView for Importer {
    type V = Map<Seq<char>, DependencyModel>;

    open spec fn deep_view(&self) -> Map<Seq<char>, DependencyModel> {
        self.dependencies.deep_view()
    }
}

impl Duplicate for Importer {
    fn duplicate(&self) -> (copy: Self) {
        Importer { dependencies: self.dependencies.duplicate() }
    }
}

/// What an importer recorded of what it was asked for.
pub open spec fn as_declared(importer: ImporterModel) -> Map<Seq<char>, DeclaredModel> {
    importer.map_values(
        |d: DependencyModel| DeclaredModel { specifier: d.specifier, kind: d.kind },
    )
}

impl Importer {
    /// A project that declares nothing.
    pub fn empty() -> (importer: Self)
        ensures
            importer.deep_view() == Map::<Seq<char>, DependencyModel>::empty(),
    {
        Importer { dependencies: SortedMap::new() }
    }

    /// Does this record exactly what a manifest declares: the same names, each
    /// with the same specifier in the same section?
    pub fn matches(&self, declared: &SortedMap<String, Declared>) -> (yes: bool)
        ensures
            yes == (as_declared(self.deep_view()) == declared.deep_view()),
    {
        let n: usize = declared.len();
        let m: usize = self.dependencies.len();
        let ghost mine = as_declared(self.deep_view());
        let ghost theirs = declared.deep_view();
        assert(mine.dom() =~= self.deep_view().dom());
        if n != m {
            return false;
        }
        let ghost names = declared.keys();
        let mut i: usize = 0;
        while i < n
            invariant
                i <= n == names.len(),
                names == declared.keys(),
                mine == as_declared(self.deep_view()),
                theirs == declared.deep_view(),
                forall|j: int|
                    0 <= j < i ==> mine.contains_key(#[trigger] names[j]) && mine[names[j]]
                        == theirs[names[j]],
            decreases n - i,
        {
            let name = declared.key_at(i);
            let wanted = declared.value_at(i);
            match self.dependencies.get(name) {
                Some(found) => {
                    if !same(found.specifier.as_str(), wanted.specifier.as_str()) || found.kind
                        != wanted.kind {
                        assert(mine[names[i as int]] != theirs[names[i as int]]);
                        return false;
                    }
                },
                None => {
                    assert(!mine.contains_key(names[i as int]));
                    return false;
                },
            }
            i = i + 1;
        }
        proof {
            assert(theirs.dom().subset_of(mine.dom())) by {
                assert forall|x: Seq<char>| theirs.dom().contains(x) implies mine.dom().contains(
                    x,
                ) by {
                    assert(names.to_set().contains(x));
                    let j = names.index_of(x);
                    assert(names[j] == x);
                }
            }
            vstd::set_lib::lemma_subset_equality(theirs.dom(), mine.dom());
            assert forall|x: Seq<char>| theirs.contains_key(x) implies mine[x] == theirs[x] by {
                assert(names.to_set().contains(x));
                let j = names.index_of(x);
                assert(names[j] == x);
            }
            assert(mine =~= theirs);
        }
        true
    }
}

/// Every project and every package.
#[derive(Debug)]
pub struct ResolvedGraph {
    pub importers: SortedMap<ImporterPath, Importer>,
    pub packages: SortedMap<PackageId, ResolvedPackage>,
}

/// What a [`ResolvedGraph`] means.
pub struct GraphModel {
    pub importers: Map<Seq<char>, ImporterModel>,
    pub packages: Map<IdModel, PackageModel>,
}

impl DeepView for ResolvedGraph {
    type V = GraphModel;

    open spec fn deep_view(&self) -> GraphModel {
        GraphModel {
            importers: self.importers.deep_view(),
            packages: self.packages.deep_view(),
        }
    }
}

impl Duplicate for ResolvedGraph {
    fn duplicate(&self) -> (copy: Self) {
        ResolvedGraph {
            importers: self.importers.duplicate(),
            packages: self.packages.duplicate(),
        }
    }
}

/// Does some importer declare a dependency that resolved to this package?
pub open spec fn is_root(importers: Map<Seq<char>, ImporterModel>, id: IdModel) -> bool {
    exists|path: Seq<char>, name: Seq<char>|
        importers.contains_key(path) && #[trigger] importers[path].contains_key(name)
            && importers[path][name].resolution == ResolutionModel::Registry(id)
}

/// A way down from an importer, following edges of some kind.
pub open spec fn is_route(
    importers: Map<Seq<char>, ImporterModel>,
    edge: spec_fn(IdModel, IdModel) -> bool,
    route: Seq<IdModel>,
) -> bool {
    &&& route.len() > 0
    &&& is_root(importers, route[0])
    &&& forall|i: int| 0 <= i < route.len() - 1 ==> edge(#[trigger] route[i], route[i + 1])
}

/// Is there a way down from an importer to this package?
pub open spec fn reached(
    importers: Map<Seq<char>, ImporterModel>,
    edge: spec_fn(IdModel, IdModel) -> bool,
    id: IdModel,
) -> bool {
    exists|route: Seq<IdModel>| is_route(importers, edge, route) && route.last() == id
}

/// Does the first package depend on the second?
pub open spec fn depends(packages: Map<IdModel, PackageModel>, from: IdModel, to: IdModel) -> bool {
    packages.contains_key(from) && exists|name: Seq<char>| #[trigger]
        packages[from].dependencies.contains_key(name) && packages[from].dependencies[name] == to
}

/// Every dependency edge of a graph.
pub open spec fn every_edge(packages: Map<IdModel, PackageModel>) -> spec_fn(
    IdModel,
    IdModel,
) -> bool {
    |from: IdModel, to: IdModel| depends(packages, from, to)
}

/// A graph with the packages that no importer can reach dropped.
pub open spec fn reachable_graph(graph: GraphModel) -> GraphModel {
    GraphModel {
        importers: graph.importers,
        packages: graph.packages.restrict(
            Set::new(|id: IdModel| reached(graph.importers, every_edge(graph.packages), id)),
        ),
    }
}

/// May a platform leave this edge unfollowed: is it optional, to a package
/// that the platform is ruled out by?
pub open spec fn may_skip(
    packages: Map<IdModel, PackageModel>,
    platform: PlatformModel,
    from: IdModel,
    name: Seq<char>,
) -> bool {
    let to = packages[from].dependencies[name];
    &&& packages[from].optional_dependencies.contains(name)
    &&& packages.contains_key(to)
    &&& !support_admits(packages[to].supports, platform)
}

/// Does a platform follow some edge from the first package to the second?
pub open spec fn follows(
    packages: Map<IdModel, PackageModel>,
    platform: PlatformModel,
    from: IdModel,
    to: IdModel,
) -> bool {
    packages.contains_key(from) && exists|name: Seq<char>| #[trigger]
        packages[from].dependencies.contains_key(name) && packages[from].dependencies[name] == to
            && !may_skip(packages, platform, from, name)
}

/// The edges that a platform follows.
pub open spec fn followed_edge(
    packages: Map<IdModel, PackageModel>,
    platform: PlatformModel,
) -> spec_fn(IdModel, IdModel) -> bool {
    |from: IdModel, to: IdModel| follows(packages, platform, from, to)
}

/// Does a platform install this package? It does if it can get there without
/// an edge that it may skip.
pub open spec fn kept_on(graph: GraphModel, platform: PlatformModel, id: IdModel) -> bool {
    reached(graph.importers, followed_edge(graph.packages, platform), id)
}

/// Does a platform leave this package out, having met it?
pub open spec fn skipped_on(graph: GraphModel, platform: PlatformModel, id: IdModel) -> bool {
    &&& !kept_on(graph, platform, id)
    &&& exists|from: IdModel, name: Seq<char>|
        kept_on(graph, platform, from) && graph.packages.contains_key(from)
            && #[trigger] graph.packages[from].dependencies.contains_key(name)
            && graph.packages[from].dependencies[name] == id && may_skip(
            graph.packages,
            platform,
            from,
            name,
        )
}

/// The edges of a map whose far end is kept.
pub open spec fn kept_edges(edges: Map<Seq<char>, IdModel>, kept: Set<IdModel>) -> Map<
    Seq<char>,
    IdModel,
> {
    edges.restrict(
        Set::new(|name: Seq<char>| edges.contains_key(name) && kept.contains(edges[name])),
    )
}

/// A package without its edges to packages that are not kept.
pub open spec fn trimmed(package: PackageModel, kept: Set<IdModel>) -> PackageModel {
    PackageModel {
        dependencies: kept_edges(package.dependencies, kept),
        optional_dependencies: package.optional_dependencies.intersect(
            kept_edges(package.dependencies, kept).dom(),
        ),
        peers: kept_edges(package.peers, kept),
        ..package
    }
}

/// The part of a graph that a platform installs, each package trimmed to it.
pub open spec fn platform_graph(graph: GraphModel, platform: PlatformModel) -> GraphModel {
    let kept = Set::new(|id: IdModel| kept_on(graph, platform, id));
    GraphModel {
        importers: graph.importers,
        packages: Map::new(
            |id: IdModel| graph.packages.contains_key(id) && kept.contains(id),
            |id: IdModel| trimmed(graph.packages[id], kept),
        ),
    }
}

/// A route can be taken one edge further.
pub proof fn route_extends(
    importers: Map<Seq<char>, ImporterModel>,
    edge: spec_fn(IdModel, IdModel) -> bool,
    from: IdModel,
    to: IdModel,
)
    requires
        reached(importers, edge, from),
        edge(from, to),
    ensures
        reached(importers, edge, to),
{
    let route = choose|route: Seq<IdModel>|
        is_route(importers, edge, route) && route.last() == from;
    let longer = route.push(to);
    assert forall|i: int| 0 <= i < longer.len() - 1 implies edge(
        #[trigger] longer[i],
        longer[i + 1],
    ) by {
        if i < route.len() - 1 {
            assert(edge(route[i], route[i + 1]));
        }
    }
    assert(is_route(importers, edge, longer));
    assert(longer.last() == to);
}

proof fn roots_are_reached(
    importers: Map<Seq<char>, ImporterModel>,
    edge: spec_fn(IdModel, IdModel) -> bool,
    id: IdModel,
)
    requires
        is_root(importers, id),
    ensures
        reached(importers, edge, id),
{
    let route = seq![id];
    assert(is_route(importers, edge, route));
    assert(route.last() == id);
}

/// A set that holds the roots and every edge out of itself holds everything
/// that is reached.
proof fn closed_sets_hold_routes(
    importers: Map<Seq<char>, ImporterModel>,
    edge: spec_fn(IdModel, IdModel) -> bool,
    set: Set<IdModel>,
    id: IdModel,
)
    requires
        reached(importers, edge, id),
        forall|root: IdModel| is_root(importers, root) ==> #[trigger] set.contains(root),
        forall|from: IdModel, to: IdModel|
            set.contains(from) && #[trigger] edge(from, to) ==> set.contains(to),
    ensures
        set.contains(id),
{
    let route = choose|route: Seq<IdModel>| is_route(importers, edge, route) && route.last() == id;
    route_stays_in(importers, edge, set, route, route.len() - 1);
}

proof fn route_stays_in(
    importers: Map<Seq<char>, ImporterModel>,
    edge: spec_fn(IdModel, IdModel) -> bool,
    set: Set<IdModel>,
    route: Seq<IdModel>,
    i: int,
)
    requires
        is_route(importers, edge, route),
        0 <= i < route.len(),
        forall|root: IdModel| is_root(importers, root) ==> #[trigger] set.contains(root),
        forall|from: IdModel, to: IdModel|
            set.contains(from) && #[trigger] edge(from, to) ==> set.contains(to),
    ensures
        set.contains(route[i]),
    decreases i,
{
    if i > 0 {
        route_stays_in(importers, edge, set, route, i - 1);
        assert(edge(route[i - 1], route[i - 1 + 1]));
    }
}

/// The packages that importers declare.
fn roots_of(importers: &SortedMap<ImporterPath, Importer>) -> (roots: Vec<PackageId>)
    ensures
        forall|id: IdModel|
            #[trigger] roots.deep_view().contains(id) <==> is_root(importers.deep_view(), id),
{
    let mut roots: Vec<PackageId> = Vec::new();
    let ghost all = importers.deep_view();
    let n: usize = importers.len();
    let ghost paths = importers.keys();
    let mut i: usize = 0;
    while i < n
        invariant
            i <= n == paths.len(),
            paths == importers.keys(),
            all == importers.deep_view(),
            forall|id: IdModel| #[trigger]
                roots.deep_view().contains(id) <==> is_root(
                    all.restrict(paths.take(i as int).to_set()),
                    id,
                ),
        decreases n - i,
    {
        let importer = importers.value_at(i);
        let m: usize = importer.dependencies.len();
        let ghost before = all.restrict(paths.take(i as int).to_set());
        let ghost after = all.restrict(paths.take(i + 1).to_set());
        let ghost names = importer.dependencies.keys();
        let ghost here = importer.deep_view();
        let mut j: usize = 0;
        while j < m
            invariant
                j <= m == names.len(),
                names == importer.dependencies.keys(),
                here == importer.deep_view(),
                forall|id: IdModel| #[trigger]
                    roots.deep_view().contains(id) <==> is_root(before, id) || exists|k: int|
                        0 <= k < j && here[#[trigger] names[k]].resolution
                            == ResolutionModel::Registry(id),
            decreases m - j,
        {
            let ghost held = roots.deep_view();
            let dependency = importer.dependencies.value_at(j);
            match &dependency.resolution {
                Resolution::Registry(id) => {
                    roots.push(id.duplicate());
                    assert(roots.deep_view() =~= held.push(id.deep_view()));
                    assert forall|x: IdModel| #[trigger]
                        roots.deep_view().contains(x) <==> is_root(before, x) || exists|k: int|
                            0 <= k < j + 1 && here[#[trigger] names[k]].resolution
                                == ResolutionModel::Registry(x) by {
                        if roots.deep_view().contains(x) {
                            let p = roots.deep_view().index_of(x);
                            if p < held.len() {
                                assert(held[p] == x);
                                assert(held.contains(x));
                            } else {
                                assert(here[names[j as int]].resolution
                                    == ResolutionModel::Registry(x));
                            }
                        }
                        if held.contains(x) {
                            let p = held.index_of(x);
                            assert(roots.deep_view()[p] == x);
                        }
                        assert(roots.deep_view()[held.len() as int] == id.deep_view());
                        if exists|k: int|
                            0 <= k < j + 1 && here[#[trigger] names[k]].resolution
                                == ResolutionModel::Registry(x) {
                            let k = choose|k: int|
                                0 <= k < j + 1 && here[#[trigger] names[k]].resolution
                                    == ResolutionModel::Registry(x);
                            if k < j {
                                assert(held.contains(x));
                            }
                        }
                    }
                },
                Resolution::Local(_) => {
                    assert forall|x: IdModel| #[trigger]
                        roots.deep_view().contains(x) <==> is_root(before, x) || exists|k: int|
                            0 <= k < j + 1 && here[#[trigger] names[k]].resolution
                                == ResolutionModel::Registry(x) by {
                        if exists|k: int|
                            0 <= k < j + 1 && here[#[trigger] names[k]].resolution
                                == ResolutionModel::Registry(x) {
                            let k = choose|k: int|
                                0 <= k < j + 1 && here[#[trigger] names[k]].resolution
                                    == ResolutionModel::Registry(x);
                            assert(k < j);
                        }
                    }
                },
            }
            j = j + 1;
        }
        proof {
            take_one_more(paths, i as int);
            assert forall|x: IdModel| #[trigger]
                roots.deep_view().contains(x) <==> is_root(after, x) by {
                if is_root(before, x) {
                    let (path, name) = choose|path: Seq<char>, name: Seq<char>|
                        before.contains_key(path) && #[trigger] before[path].contains_key(name)
                            && before[path][name].resolution == ResolutionModel::Registry(x);
                    assert(after.contains_key(path) && after[path].contains_key(name));
                }
                if exists|k: int|
                    0 <= k < m && here[#[trigger] names[k]].resolution
                        == ResolutionModel::Registry(x) {
                    let k = choose|k: int|
                        0 <= k < m && here[#[trigger] names[k]].resolution
                            == ResolutionModel::Registry(x);
                    assert(here.dom().contains(names[k]));
                    assert(after.contains_key(paths[i as int]));
                    assert(after[paths[i as int]].contains_key(names[k]));
                }
                if is_root(after, x) {
                    let (path, name) = choose|path: Seq<char>, name: Seq<char>|
                        after.contains_key(path) && #[trigger] after[path].contains_key(name)
                            && after[path][name].resolution == ResolutionModel::Registry(x);
                    if path == paths[i as int] {
                        assert(here.contains_key(name));
                        assert(names.to_set().contains(name));
                        let k = names.index_of(name);
                        assert(here[names[k]].resolution == ResolutionModel::Registry(x));
                    } else {
                        assert(before.contains_key(path) && before[path].contains_key(name));
                        assert(is_root(before, x));
                    }
                }
            }
        }
        i = i + 1;
    }
    assert(paths.take(n as int) =~= paths);
    assert(all.restrict(paths.to_set()) =~= all);
    roots
}

/// The edges that are followed: all of them, or those that a platform follows.
spec fn edges_for(
    packages: Map<IdModel, PackageModel>,
    platform: Option<PlatformModel>,
) -> spec_fn(IdModel, IdModel) -> bool {
    match platform {
        Some(platform) => followed_edge(packages, platform),
        None => every_edge(packages),
    }
}

/// Is this the far end of an edge out of a set that is not followed?
spec fn refused_from(
    packages: Map<IdModel, PackageModel>,
    platform: Option<PlatformModel>,
    set: Set<IdModel>,
    id: IdModel,
) -> bool {
    platform is Some && exists|from: IdModel, name: Seq<char>|
        set.contains(from) && packages.contains_key(from)
            && #[trigger] packages[from].dependencies.contains_key(name)
            && packages[from].dependencies[name] == id && may_skip(
            packages,
            platform->0,
            from,
            name,
        )
}

/// Is every edge out of one package, as far as some of its names go, either
/// refused or leading into one of the two collections?
spec fn edges_lead_into(
    packages: Map<IdModel, PackageModel>,
    platform: Option<PlatformModel>,
    from: IdModel,
    names: Set<Seq<char>>,
    seen: Set<IdModel>,
    queue: Seq<IdModel>,
) -> bool {
    forall|name: Seq<char>| #[trigger]
        packages[from].dependencies.contains_key(name) && names.contains(name) ==> {
            let to = packages[from].dependencies[name];
            ||| platform is Some && may_skip(packages, platform->0, from, name)
            ||| seen.contains(to)
            ||| queue.contains(to)
        }
}

/// Collect what is reached, and what an edge that is not followed leads to.
fn reach(graph: &ResolvedGraph, platform: Option<&Platform>) -> (found: (
    SortedSet<PackageId>,
    SortedSet<PackageId>,
))
    ensures
        forall|id: IdModel| #[trigger]
            found.0.deep_view().contains(id) <==> reached(
                graph.importers.deep_view(),
                edges_for(graph.packages.deep_view(), platform.deep_view()),
                id,
            ),
        forall|id: IdModel| #[trigger]
            found.1.deep_view().contains(id) <==> refused_from(
                graph.packages.deep_view(),
                platform.deep_view(),
                found.0.deep_view(),
                id,
            ),
{
    let ghost packages = graph.packages.deep_view();
    let ghost importers = graph.importers.deep_view();
    let ghost machine = platform.deep_view();
    let ghost edge = edges_for(packages, machine);
    let mut seen: SortedSet<PackageId> = SortedSet::new();
    let mut refused: SortedSet<PackageId> = SortedSet::new();
    let mut queue: Vec<PackageId> = roots_of(&graph.importers);
    let mut count: usize = seen.len();
    proof {
        assert forall|id: IdModel| queue.deep_view().contains(id) implies #[trigger] reached(
            importers,
            edge,
            id,
        ) by {
            roots_are_reached(importers, edge, id);
        }
    }
    while queue.len() > 0
        invariant
            packages == graph.packages.deep_view(),
            importers == graph.importers.deep_view(),
            machine == platform.deep_view(),
            edge == edges_for(packages, machine),
            count == seen.deep_view().len(),
            seen.deep_view().finite(),
            forall|id: IdModel| queue.deep_view().contains(id) ==> #[trigger] reached(
                importers,
                edge,
                id,
            ),
            forall|id: IdModel| seen.deep_view().contains(id) ==> #[trigger] reached(
                importers,
                edge,
                id,
            ),
            forall|id: IdModel| is_root(importers, id) ==> #[trigger] seen.deep_view().contains(id)
                || queue.deep_view().contains(id),
            forall|from: IdModel| #[trigger]
                seen.deep_view().contains(from) && packages.contains_key(from) ==> edges_lead_into(
                    packages,
                    machine,
                    from,
                    packages[from].dependencies.dom(),
                    seen.deep_view(),
                    queue.deep_view(),
                ),
            forall|id: IdModel| #[trigger]
                refused.deep_view().contains(id) <==> refused_from(
                    packages,
                    machine,
                    seen.deep_view(),
                    id,
                ),
        decreases usize::MAX - count, queue.len(),
    {
        let ghost queue0 = queue.deep_view();
        let ghost seen0 = seen.deep_view();
        let id = match queue.pop() {
            Some(id) => id,
            None => {
                return (seen, refused);
            },
        };
        let ghost here = id.deep_view();
        assert(queue.deep_view() =~= queue0.drop_last());
        assert(queue0.last() == here);
        assert(forall|x: IdModel| queue0.contains(x) ==> x == here || queue.deep_view().contains(x)) by {
            assert forall|x: IdModel| queue0.contains(x) implies x == here
                || queue.deep_view().contains(x) by {
                let j = queue0.index_of(x);
                if j < queue0.len() - 1 {
                    assert(queue.deep_view()[j] == x);
                }
            }
        }
        assert(forall|x: IdModel| queue.deep_view().contains(x) ==> queue0.contains(x)) by {
            assert forall|x: IdModel| queue.deep_view().contains(x) implies queue0.contains(x) by {
                let j = queue.deep_view().index_of(x);
                assert(queue0[j] == x);
            }
        }
        assert(queue0.contains(here));
        if !seen.insert(id.duplicate()) {
            assert(seen.deep_view() =~= seen0);
            proof {
                assert forall|from: IdModel| #[trigger]
                    seen.deep_view().contains(from) && packages.contains_key(
                        from,
                    ) implies edges_lead_into(
                    packages,
                    machine,
                    from,
                    packages[from].dependencies.dom(),
                    seen.deep_view(),
                    queue.deep_view(),
                ) by {
                    assert(seen0.contains(from));
                }
            }
            continue;
        }
        count = seen.len();
        match graph.packages.get(&id) {
            Some(package) => {
                let ghost deps = packages[here].dependencies;
                let n: usize = package.dependencies.len();
                let ghost names = package.dependencies.keys();
                let mut i: usize = 0;
                proof {
                    assert forall|from: IdModel| #[trigger]
                        seen0.contains(from) && packages.contains_key(
                            from,
                        ) implies edges_lead_into(
                        packages,
                        machine,
                        from,
                        packages[from].dependencies.dom(),
                        seen.deep_view(),
                        queue.deep_view(),
                    ) by {
                        assert(edges_lead_into(
                            packages,
                            machine,
                            from,
                            packages[from].dependencies.dom(),
                            seen0,
                            queue0,
                        ));
                    }
                }
                while i < n
                    invariant
                        i <= n == names.len(),
                        names == package.dependencies.keys(),
                        deps == package.dependencies.deep_view(),
                        names.to_set() == deps.dom(),
                        package.deep_view() == packages[here],
                        packages == graph.packages.deep_view(),
                        packages.contains_key(here),
                        deps == packages[here].dependencies,
                        machine == platform.deep_view(),
                        edge == edges_for(packages, machine),
                        reached(importers, edge, here),
                        seen.deep_view() == seen0.insert(here),
                        !seen0.contains(here),
                        forall|id: IdModel| queue.deep_view().contains(id) ==> #[trigger] reached(
                            importers,
                            edge,
                            id,
                        ),
                        forall|id: IdModel| is_root(importers, id) ==> #[trigger] seen.deep_view().contains(
                            id,
                        ) || queue.deep_view().contains(id),
                        forall|from: IdModel| #[trigger]
                            seen0.contains(from) && packages.contains_key(
                                from,
                            ) ==> edges_lead_into(
                                packages,
                                machine,
                                from,
                                packages[from].dependencies.dom(),
                                seen.deep_view(),
                                queue.deep_view(),
                            ),
                        edges_lead_into(
                            packages,
                            machine,
                            here,
                            names.take(i as int).to_set(),
                            seen.deep_view(),
                            queue.deep_view(),
                        ),
                        forall|id: IdModel| #[trigger]
                            refused.deep_view().contains(id) <==> {
                                ||| refused_from(packages, machine, seen0, id)
                                ||| exists|k: int|
                                    0 <= k < i && deps[#[trigger] names[k]] == id && machine is Some
                                        && may_skip(packages, machine->0, here, names[k])
                            },
                    decreases n - i,
                {
                    let name = package.dependencies.key_at(i);
                    let target = package.dependencies.value_at(i);
                    let ghost to = target.deep_view();
                    let ghost held = queue.deep_view();
                    let ghost named = names[i as int];
                    assert(deps.contains_key(named) && deps[named] == to);
                    let skip = match platform {
                        Some(platform) => {
                            package.optional_dependencies.contains(name) && match graph.packages.get(
                                target,
                            ) {
                                Some(far) => !far.supports.admits(platform),
                                None => false,
                            }
                        },
                        None => false,
                    };
                    assert(skip == (machine is Some && may_skip(packages, machine->0, here, named)));
                    let ghost refused0 = refused.deep_view();
                    if skip {
                        refused.insert(target.duplicate());
                    } else {
                        queue.push(target.duplicate());
                        assert(queue.deep_view() =~= held.push(to));
                        assert(edge(here, to));
                        proof {
                            route_extends(importers, edge, here, to);
                        }
                    }
                    proof {
                        assert(forall|x: IdModel| held.contains(x) ==> queue.deep_view().contains(x)) by {
                            assert forall|x: IdModel| held.contains(x) implies queue.deep_view().contains(
                                x,
                            ) by {
                                let j = held.index_of(x);
                                assert(queue.deep_view()[j] == x);
                            }
                        }
                        if !skip {
                            assert(queue.deep_view()[held.len() as int] == to);
                        }
                        assert forall|x: IdModel| queue.deep_view().contains(
                            x,
                        ) implies #[trigger] reached(importers, edge, x) by {
                            let j = queue.deep_view().index_of(x);
                            if j < held.len() {
                                assert(held[j] == x);
                                assert(held.contains(x));
                            }
                        }
                        take_one_more(names, i as int);
                        assert(edges_lead_into(
                            packages,
                            machine,
                            here,
                            names.take(i + 1).to_set(),
                            seen.deep_view(),
                            queue.deep_view(),
                        ));
                        assert forall|from: IdModel| #[trigger]
                            seen0.contains(from) && packages.contains_key(
                                from,
                            ) implies edges_lead_into(
                            packages,
                            machine,
                            from,
                            packages[from].dependencies.dom(),
                            seen.deep_view(),
                            queue.deep_view(),
                        ) by {
                            assert(edges_lead_into(
                                packages,
                                machine,
                                from,
                                packages[from].dependencies.dom(),
                                seen.deep_view(),
                                held,
                            ));
                        }
                        assert forall|id: IdModel| #[trigger]
                            refused.deep_view().contains(id) <==> {
                                ||| refused_from(packages, machine, seen0, id)
                                ||| exists|k: int|
                                    0 <= k < i + 1 && deps[#[trigger] names[k]] == id
                                        && machine is Some && may_skip(
                                        packages,
                                        machine->0,
                                        here,
                                        names[k],
                                    )
                            } by {
                            if exists|k: int|
                                0 <= k < i + 1 && deps[#[trigger] names[k]] == id && machine is Some
                                    && may_skip(packages, machine->0, here, names[k]) {
                                let k = choose|k: int|
                                    0 <= k < i + 1 && deps[#[trigger] names[k]] == id
                                        && machine is Some && may_skip(
                                        packages,
                                        machine->0,
                                        here,
                                        names[k],
                                    );
                                if k < i {
                                    assert(refused0.contains(id));
                                }
                            }
                            if refused0.contains(id) {
                                assert(refused.deep_view().contains(id));
                            }
                            if skip && id == to {
                                assert(deps[names[i as int]] == id);
                            }
                        }
                    }
                    i = i + 1;
                }
                proof {
                    assert(names.take(n as int) =~= names);
                    assert forall|from: IdModel| #[trigger]
                        seen.deep_view().contains(from) && packages.contains_key(
                            from,
                        ) implies edges_lead_into(
                        packages,
                        machine,
                        from,
                        packages[from].dependencies.dom(),
                        seen.deep_view(),
                        queue.deep_view(),
                    ) by {
                        if from != here {
                            assert(seen0.contains(from));
                        }
                    }
                    assert forall|id: IdModel| #[trigger]
                        refused.deep_view().contains(id) <==> refused_from(
                            packages,
                            machine,
                            seen.deep_view(),
                            id,
                        ) by {
                        if refused_from(packages, machine, seen0, id) {
                            let (from, name) = choose|from: IdModel, name: Seq<char>|
                                seen0.contains(from) && packages.contains_key(from)
                                    && #[trigger] packages[from].dependencies.contains_key(name)
                                    && packages[from].dependencies[name] == id && may_skip(
                                    packages,
                                    machine->0,
                                    from,
                                    name,
                                );
                            assert(seen.deep_view().contains(from));
                            assert(packages[from].dependencies.contains_key(name));
                        }
                        if exists|k: int|
                            0 <= k < n && deps[#[trigger] names[k]] == id && machine is Some
                                && may_skip(packages, machine->0, here, names[k]) {
                            let k = choose|k: int|
                                0 <= k < n && deps[#[trigger] names[k]] == id && machine is Some
                                    && may_skip(packages, machine->0, here, names[k]);
                            assert(names.to_set().contains(names[k]));
                            assert(packages[here].dependencies.contains_key(names[k]));
                        }
                        if refused_from(packages, machine, seen.deep_view(), id) {
                            let (from, name) = choose|from: IdModel, name: Seq<char>|
                                seen.deep_view().contains(from) && packages.contains_key(from)
                                    && #[trigger] packages[from].dependencies.contains_key(name)
                                    && packages[from].dependencies[name] == id && may_skip(
                                    packages,
                                    machine->0,
                                    from,
                                    name,
                                );
                            if from == here {
                                assert(names.to_set().contains(name));
                                let k = names.index_of(name);
                                assert(deps[names[k]] == id);
                            } else {
                                assert(seen0.contains(from));
                                assert(refused_from(packages, machine, seen0, id));
                            }
                        }
                    }
                }
            },
            None => {
                proof {
                    assert forall|from: IdModel| #[trigger]
                        seen.deep_view().contains(from) && packages.contains_key(
                            from,
                        ) implies edges_lead_into(
                        packages,
                        machine,
                        from,
                        packages[from].dependencies.dom(),
                        seen.deep_view(),
                        queue.deep_view(),
                    ) by {
                        assert(seen0.contains(from));
                        assert(edges_lead_into(
                            packages,
                            machine,
                            from,
                            packages[from].dependencies.dom(),
                            seen0,
                            queue0,
                        ));
                    }
                    assert forall|id: IdModel| #[trigger]
                        refused.deep_view().contains(id) <==> refused_from(
                            packages,
                            machine,
                            seen.deep_view(),
                            id,
                        ) by {
                        assert(refused_from(packages, machine, seen0, id) <==> refused_from(
                            packages,
                            machine,
                            seen.deep_view(),
                            id,
                        ));
                    }
                }
            },
        }
    }
    proof {
        assert(queue.deep_view().len() == 0);
        assert forall|id: IdModel| reached(importers, edge, id) implies #[trigger] seen.deep_view().contains(
            id,
        ) by {
            assert forall|from: IdModel, to: IdModel|
                seen.deep_view().contains(from) && #[trigger] edge(
                    from,
                    to,
                ) implies seen.deep_view().contains(to) by {
                assert(edges_lead_into(
                    packages,
                    machine,
                    from,
                    packages[from].dependencies.dom(),
                    seen.deep_view(),
                    queue.deep_view(),
                ));
            }
            closed_sets_hold_routes(importers, edge, seen.deep_view(), id);
        }
    }
    (seen, refused)
}

fn keep_edges(edges: &SortedMap<String, PackageId>, kept: &SortedSet<PackageId>) -> (left: SortedMap<
    String,
    PackageId,
>)
    ensures
        left.deep_view() == kept_edges(edges.deep_view(), kept.deep_view()),
{
    let mut left: SortedMap<String, PackageId> = SortedMap::new();
    let n: usize = edges.len();
    let ghost names = edges.keys();
    let ghost goal = kept_edges(edges.deep_view(), kept.deep_view());
    assert(goal.restrict(names.take(0).to_set()) =~= Map::<Seq<char>, IdModel>::empty());
    let mut i: usize = 0;
    while i < n
        invariant
            i <= n == names.len(),
            names == edges.keys(),
            goal == kept_edges(edges.deep_view(), kept.deep_view()),
            left.deep_view() == goal.restrict(names.take(i as int).to_set()),
        decreases n - i,
    {
        let name = edges.key_at(i);
        let target = edges.value_at(i);
        if kept.contains(target) {
            left.insert(name.duplicate(), target.duplicate());
        }
        proof {
            take_one_more(names, i as int);
            assert(left.deep_view() =~= goal.restrict(names.take(i + 1).to_set()));
        }
        i = i + 1;
    }
    assert(names.take(n as int) =~= names);
    assert(goal.restrict(names.to_set()) =~= goal);
    left
}

fn keep_names(names: &SortedSet<String>, edges: &SortedMap<String, PackageId>) -> (left: SortedSet<
    String,
>)
    ensures
        left.deep_view() == names.deep_view().intersect(edges.deep_view().dom()),
{
    let mut left: SortedSet<String> = SortedSet::new();
    let n: usize = names.len();
    let ghost all = names.keys();
    let ghost goal = names.deep_view().intersect(edges.deep_view().dom());
    assert(goal.intersect(all.take(0).to_set()) =~= Set::<Seq<char>>::empty());
    let mut i: usize = 0;
    while i < n
        invariant
            i <= n == all.len(),
            all == names.keys(),
            goal == names.deep_view().intersect(edges.deep_view().dom()),
            left.deep_view() == goal.intersect(all.take(i as int).to_set()),
        decreases n - i,
    {
        let name = names.key_at(i);
        if edges.contains(name) {
            left.insert(name.duplicate());
        }
        proof {
            take_one_more(all, i as int);
            assert(left.deep_view() =~= goal.intersect(all.take(i + 1).to_set()));
        }
        i = i + 1;
    }
    assert(all.take(n as int) =~= all);
    assert(goal.intersect(all.to_set()) =~= goal);
    left
}

fn trim(package: &ResolvedPackage, kept: &SortedSet<PackageId>) -> (left: ResolvedPackage)
    ensures
        left.deep_view() == trimmed(package.deep_view(), kept.deep_view()),
{
    let mut left = package.duplicate();
    let dependencies = keep_edges(&package.dependencies, kept);
    left.optional_dependencies = keep_names(&package.optional_dependencies, &dependencies);
    left.dependencies = dependencies;
    left.peers = keep_edges(&package.peers, kept);
    left
}

impl ResolvedGraph {
    /// The same graph with the packages that no importer can reach dropped.
    pub fn reachable(self) -> (graph: Self)
        ensures
            graph.deep_view() == reachable_graph(self.deep_view()),
    {
        let (seen, _) = reach(&self, None);
        let ghost goal = reachable_graph(self.deep_view()).packages;
        let mut packages: SortedMap<PackageId, ResolvedPackage> = SortedMap::new();
        let n: usize = self.packages.len();
        let ghost ids = self.packages.keys();
        assert(goal.restrict(ids.take(0).to_set()) =~= Map::<IdModel, PackageModel>::empty());
        let mut i: usize = 0;
        while i < n
            invariant
                i <= n == ids.len(),
                ids == self.packages.keys(),
                goal == reachable_graph(self.deep_view()).packages,
                forall|id: IdModel| #[trigger]
                    seen.deep_view().contains(id) <==> reached(
                        self.importers.deep_view(),
                        every_edge(self.packages.deep_view()),
                        id,
                    ),
                packages.deep_view() == goal.restrict(ids.take(i as int).to_set()),
            decreases n - i,
        {
            let id = self.packages.key_at(i);
            if seen.contains(id) {
                packages.insert(id.duplicate(), self.packages.value_at(i).duplicate());
            }
            proof {
                take_one_more(ids, i as int);
                assert(packages.deep_view() =~= goal.restrict(ids.take(i + 1).to_set()));
            }
            i = i + 1;
        }
        assert(ids.take(n as int) =~= ids);
        assert(goal.restrict(ids.to_set()) =~= goal);
        ResolvedGraph { importers: self.importers, packages }
    }

    /// The part of the graph that one machine installs, and what it left out.
    ///
    /// A package that does not run here is skipped, but only where it was
    /// reached through an optional edge, and only if nothing else leads to it.
    pub fn for_platform(&self, platform: &Platform) -> (split: (Self, Vec<PackageId>))
        ensures
            split.0.deep_view() == platform_graph(self.deep_view(), platform.deep_view()),
            forall|id: IdModel| #[trigger]
                split.1.deep_view().contains(id) <==> skipped_on(
                    self.deep_view(),
                    platform.deep_view(),
                    id,
                ),
            split.1.deep_view() == in_order::<PackageId>(split.1.deep_view().to_set()),
    {
        let (kept, refused) = reach(self, Some(platform));
        let ghost model = self.deep_view();
        let ghost machine = platform.deep_view();
        let ghost all_kept = Set::new(|id: IdModel| kept_on(model, machine, id));
        assert(kept.deep_view() =~= all_kept);
        let ghost goal = platform_graph(model, machine).packages;
        let mut packages: SortedMap<PackageId, ResolvedPackage> = SortedMap::new();
        let n: usize = self.packages.len();
        let ghost ids = self.packages.keys();
        assert(goal.restrict(ids.take(0).to_set()) =~= Map::<IdModel, PackageModel>::empty());
        let mut i: usize = 0;
        while i < n
            invariant
                i <= n == ids.len(),
                ids == self.packages.keys(),
                model == self.deep_view(),
                goal == platform_graph(model, machine).packages,
                all_kept == Set::new(|id: IdModel| kept_on(model, machine, id)),
                kept.deep_view() == all_kept,
                packages.deep_view() == goal.restrict(ids.take(i as int).to_set()),
            decreases n - i,
        {
            let id = self.packages.key_at(i);
            if kept.contains(id) {
                packages.insert(id.duplicate(), trim(self.packages.value_at(i), &kept));
            }
            proof {
                take_one_more(ids, i as int);
                assert(packages.deep_view() =~= goal.restrict(ids.take(i + 1).to_set()));
            }
            i = i + 1;
        }
        assert(ids.take(n as int) =~= ids);
        assert(goal.restrict(ids.to_set()) =~= goal);

        let mut skipped: SortedSet<PackageId> = SortedSet::new();
        let m: usize = refused.len();
        let ghost others = refused.keys();
        let mut j: usize = 0;
        while j < m
            invariant
                j <= m == others.len(),
                others == refused.keys(),
                forall|id: IdModel| #[trigger]
                    skipped.deep_view().contains(id) <==> others.take(j as int).to_set().contains(
                        id,
                    ) && !kept.deep_view().contains(id),
            decreases m - j,
        {
            let id = refused.key_at(j);
            if !kept.contains(id) {
                skipped.insert(id.duplicate());
            }
            proof {
                take_one_more(others, j as int);
            }
            j = j + 1;
        }
        assert(others.take(m as int) =~= others);
        proof {
            assert forall|id: IdModel| #[trigger]
                skipped.deep_view().contains(id) <==> skipped_on(model, machine, id) by {
                assert(refused.deep_view().contains(id) <==> refused_from(
                    model.packages,
                    Some(machine),
                    kept.deep_view(),
                    id,
                ));
                if skipped_on(model, machine, id) {
                    let (from, name) = choose|from: IdModel, name: Seq<char>|
                        kept_on(model, machine, from) && model.packages.contains_key(from)
                            && #[trigger] model.packages[from].dependencies.contains_key(name)
                            && model.packages[from].dependencies[name] == id && may_skip(
                            model.packages,
                            machine,
                            from,
                            name,
                        );
                    assert(kept.deep_view().contains(from));
                    assert(refused_from(model.packages, Some(machine), kept.deep_view(), id));
                }
                if refused_from(model.packages, Some(machine), kept.deep_view(), id) {
                    let (from, name) = choose|from: IdModel, name: Seq<char>|
                        kept.deep_view().contains(from) && model.packages.contains_key(from)
                            && #[trigger] model.packages[from].dependencies.contains_key(name)
                            && model.packages[from].dependencies[name] == id && may_skip(
                            model.packages,
                            machine,
                            from,
                            name,
                        );
                    assert(kept_on(model, machine, from));
                }
            }
        }
        let ghost left_out = skipped.deep_view();
        let listed = skipped.into_list();
        proof {
            assert forall|id: IdModel| #[trigger]
                listed.deep_view().contains(id) <==> skipped_on(model, machine, id) by {
                assert(listed.deep_view().to_set().contains(id) <==> left_out.contains(id));
            }
        }
        (ResolvedGraph { importers: self.importers.duplicate(), packages }, listed)
    }
}

proof fn routes_survive(graph: GraphModel, id: IdModel)
    requires
        reached(graph.importers, every_edge(graph.packages), id),
    ensures
        reached(graph.importers, every_edge(reachable_graph(graph).packages), id),
{
    let old_edge = every_edge(graph.packages);
    let pruned = reachable_graph(graph).packages;
    let new_edge = every_edge(pruned);
    let route = choose|route: Seq<IdModel>|
        is_route(graph.importers, old_edge, route) && route.last() == id;
    assert forall|i: int| 0 <= i < route.len() - 1 implies new_edge(
        #[trigger] route[i],
        route[i + 1],
    ) by {
        assert(old_edge(route[i], route[i + 1]));
        let head = route.take(i + 1);
        assert(is_route(graph.importers, old_edge, head)) by {
            assert forall|j: int| 0 <= j < head.len() - 1 implies old_edge(
                #[trigger] head[j],
                head[j + 1],
            ) by {
                assert(old_edge(route[j], route[j + 1]));
            }
        }
        assert(head.last() == route[i]);
        assert(reached(graph.importers, old_edge, route[i]));
        assert(pruned.contains_key(route[i]));
        assert(pruned[route[i]] == graph.packages[route[i]]);
        let name = choose|name: Seq<char>| #[trigger]
            graph.packages[route[i]].dependencies.contains_key(name)
                && graph.packages[route[i]].dependencies[name] == route[i + 1];
        assert(pruned[route[i]].dependencies.contains_key(name));
    }
    assert(is_route(graph.importers, new_edge, route));
}

/// Pruning a pruned graph changes nothing.
pub proof fn reachable_is_idempotent(graph: GraphModel)
    ensures
        reachable_graph(reachable_graph(graph)) == reachable_graph(graph),
{
    let once = reachable_graph(graph);
    let twice = reachable_graph(once);
    assert forall|id: IdModel| once.packages.contains_key(id) implies twice.packages.contains_key(
        id,
    ) by {
        routes_survive(graph, id);
    }
    assert(twice.packages =~= once.packages);
}

/// Pruning cuts no edge: whatever a package left in the graph depends on is
/// left in it too, if it was there at all.
pub proof fn reachable_is_closed(graph: GraphModel, from: IdModel, name: Seq<char>)
    requires
        reachable_graph(graph).packages.contains_key(from),
        graph.packages[from].dependencies.contains_key(name),
        graph.packages.contains_key(graph.packages[from].dependencies[name]),
    ensures
        reachable_graph(graph).packages.contains_key(graph.packages[from].dependencies[name]),
{
    let to = graph.packages[from].dependencies[name];
    assert(every_edge(graph.packages)(from, to));
    route_extends(graph.importers, every_edge(graph.packages), from, to);
}

/// No platform is left with an edge to a package it did not install, nor with
/// a peer or an optional mark that names one.
pub proof fn platforms_have_no_dangling_edges(
    graph: GraphModel,
    platform: PlatformModel,
    from: IdModel,
    name: Seq<char>,
)
    requires
        platform_graph(graph, platform).packages.contains_key(from),
    ensures
        ({
            let package = platform_graph(graph, platform).packages[from];
            &&& package.dependencies.contains_key(name) ==> kept_on(
                graph,
                platform,
                package.dependencies[name],
            )
            &&& package.peers.contains_key(name) ==> kept_on(graph, platform, package.peers[name])
            &&& package.optional_dependencies.contains(name) ==> package.dependencies.contains_key(
                name,
            )
        }),
{
}

/// A required edge is followed on every platform, whatever the package at its
/// far end declares about the machines it runs on.
pub proof fn required_edges_are_followed(
    graph: GraphModel,
    platform: PlatformModel,
    from: IdModel,
    name: Seq<char>,
)
    requires
        kept_on(graph, platform, from),
        graph.packages.contains_key(from),
        graph.packages[from].dependencies.contains_key(name),
        !graph.packages[from].optional_dependencies.contains(name),
    ensures
        kept_on(graph, platform, graph.packages[from].dependencies[name]),
{
    let to = graph.packages[from].dependencies[name];
    assert(followed_edge(graph.packages, platform)(from, to));
    route_extends(graph.importers, followed_edge(graph.packages, platform), from, to);
}

/// A platform installs nothing that the full graph does not reach.
pub proof fn platforms_only_narrow(graph: GraphModel, platform: PlatformModel, id: IdModel)
    requires
        kept_on(graph, platform, id),
    ensures
        reached(graph.importers, every_edge(graph.packages), id),
{
    let narrow = followed_edge(graph.packages, platform);
    let wide = every_edge(graph.packages);
    let route = choose|route: Seq<IdModel>|
        is_route(graph.importers, narrow, route) && route.last() == id;
    assert forall|i: int| 0 <= i < route.len() - 1 implies wide(
        #[trigger] route[i],
        route[i + 1],
    ) by {
        assert(narrow(route[i], route[i + 1]));
    }
    assert(is_route(graph.importers, wide, route));
}

/// Where every package runs, a platform installs all that is reached and
/// skips nothing.
pub proof fn a_platform_that_suits_all_skips_nothing(
    graph: GraphModel,
    platform: PlatformModel,
    id: IdModel,
)
    requires
        forall|p: IdModel| #[trigger]
            graph.packages.contains_key(p) ==> support_admits(graph.packages[p].supports, platform),
    ensures
        !skipped_on(graph, platform, id),
        kept_on(graph, platform, id) <==> reached(
            graph.importers,
            every_edge(graph.packages),
            id,
        ),
{
    if kept_on(graph, platform, id) {
        platforms_only_narrow(graph, platform, id);
    }
    if reached(graph.importers, every_edge(graph.packages), id) {
        let narrow = followed_edge(graph.packages, platform);
        let wide = every_edge(graph.packages);
        let route = choose|route: Seq<IdModel>|
            is_route(graph.importers, wide, route) && route.last() == id;
        assert forall|i: int| 0 <= i < route.len() - 1 implies narrow(
            #[trigger] route[i],
            route[i + 1],
        ) by {
            assert(wide(route[i], route[i + 1]));
        }
        assert(is_route(graph.importers, narrow, route));
    }
}

} // verus!
