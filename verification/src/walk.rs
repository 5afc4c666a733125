//! Transitive dependency resolution.
//!
//! The walk takes edges oldest first and decides everything: which version
//! answers a range, which edge is recorded where, which failure is reported.
//! What it reads is a memo of the registry's answers, each under the request
//! it answers, so how the memo was filled cannot reach the graph.

use vstd::prelude::*;
use vstd::string::*;
use crate::graph::{
    Declared, DeclaredModel, Dependency, DependencyModel, GraphModel, Importer, ImporterModel, Kind,
    PackageModel, Resolution, ResolutionModel, ResolvedGraph, ResolvedPackage,
};
use crate::importer::{local_path, path_between, ImporterPath};
use crate::integrity::{Integrity, IntegrityModel};
use crate::lock_laws::is_recordable;
use crate::order::{Duplicate, Key, Order};
use crate::package_id::{plain_id, IdModel, PackageId};
use crate::peer_laws::graphs_are_finite;
use crate::platform::{PlatformSupport, SupportModel};
use crate::range::{range_parses, Range};
use crate::record_laws::{
    are_importers, is_resolution, is_usual, resolutions_can_be_recorded,
    what_resolves_is_a_resolution,
};
use crate::registry::{
    dist_integrity, is_writable, metadata_bins, packuments_are_writable, result_view, Answer,
    Freshness, MetadataModel, Packument, PackumentModel, RegistryClient, RegistryFault, RequestModel,
};
use crate::sorted::{in_order, in_order_lists, take_one_more, SortedMap, SortedSet};
use crate::specifier::{
    asked_reading, choose_version, chosen, declared_edges, declared_peers, edges_of, peers_of, Asked,
    AskedModel, Edge, EdgeModel, ResolveError, ResolveFault, WORKSPACE_PROTOCOL,
};
use crate::text::{after_opening, opens_with, text_before};

verus! {

/// One question for the registry: which package, and how current the answer
/// has to be. Two freshnesses are two questions, because a release published
/// inside the cache's window is in one answer and not in the other.
#[derive(Debug)]
pub struct Request {
    pub name: String,
    pub must_be_current: bool,
}

impl DeepView for Request {
    type V = RequestModel;

    open spec fn deep_view(&self) -> RequestModel {
        RequestModel { name: self.name@, must_be_current: self.must_be_current }
    }
}

impl Duplicate for Request {
    fn duplicate(&self) -> (copy: Self) {
        Request { name: self.name.clone(), must_be_current: self.must_be_current }
    }
}

/// Questions are ordered by name, and for one name that which takes a copy
/// comes first.
impl Key for Request {
    open spec fn before(a: RequestModel, b: RequestModel) -> bool {
        if a.name != b.name {
            text_before(a.name, b.name)
        } else {
            !a.must_be_current && b.must_be_current
        }
    }

    proof fn before_irreflexive(a: RequestModel) {
    }

    proof fn before_transitive(a: RequestModel, b: RequestModel, c: RequestModel) {
        if a.name != b.name && b.name != c.name {
            String::before_transitive(a.name, b.name, c.name);
            String::before_irreflexive(a.name);
        }
    }

    proof fn before_total(a: RequestModel, b: RequestModel) {
        String::before_total(a.name, b.name);
    }

    fn order(&self, other: &Self) -> (order: Order) {
        match self.name.order(&other.name) {
            Order::Same => if self.must_be_current == other.must_be_current {
                Order::Same
            } else if other.must_be_current {
                Order::Before
            } else {
                Order::After
            },
            other => other,
        }
    }
}

impl Request {
    /// The question about a package at a freshness.
    pub fn new(name: &str, needed: Freshness) -> (request: Self)
        ensures
            request.deep_view() == (RequestModel {
                name: name@,
                must_be_current: needed is MustBeCurrent,
            }),
    {
        Request { name: name.to_owned(), must_be_current: matches!(needed, Freshness::MustBeCurrent) }
    }
}

/// The question that a package and a range come down to. A range may be
/// answered from a copy; a dist-tag names whatever the registry means by it
/// today.
pub open spec fn request_for(asked: AskedModel) -> RequestModel {
    RequestModel { name: asked.name, must_be_current: !range_parses(asked.range) }
}

/// How current an answer a range needs.
pub fn freshness_for(range: &str) -> (needed: Freshness)
    ensures
        needed is MustBeCurrent <==> !range_parses(range@),
{
    match Range::parse(range) {
        Ok(_) => Freshness::MayBeCached,
        Err(_) => Freshness::MustBeCurrent,
    }
}

/// Who asked for an edge.
#[derive(Debug)]
pub enum Dependent {
    /// A project, and which of its sections asked.
    Importer { path: ImporterPath, kind: Kind },
    /// A package, and whether it asked in its optional section.
    Package { id: PackageId, optional: bool },
}

/// What a [`Dependent`] means.
pub enum DependentModel {
    Importer { path: Seq<char>, kind: Kind },
    Package { id: IdModel, optional: bool },
}

impl DeepView for Dependent {
    type V = DependentModel;

    open spec fn deep_view(&self) -> DependentModel {
        match self {
            Dependent::Importer { path, kind } => DependentModel::Importer {
                path: path.deep_view(),
                kind: *kind,
            },
            Dependent::Package { id, optional } => DependentModel::Package {
                id: id.deep_view(),
                optional: *optional,
            },
        }
    }
}

/// One edge waiting to be resolved.
#[derive(Debug)]
pub struct Pending {
    pub dependent: Dependent,
    /// The name the dependency is declared under.
    pub name: String,
    /// What the manifest or the packument said, verbatim.
    pub specifier: String,
    /// What to ask the registry.
    pub asked: Asked,
}

/// What a [`Pending`] means.
pub struct PendingModel {
    pub dependent: DependentModel,
    pub name: Seq<char>,
    pub specifier: Seq<char>,
    pub asked: AskedModel,
}

impl DeepView for Pending {
    type V = PendingModel;

    open spec fn deep_view(&self) -> PendingModel {
        PendingModel {
            dependent: self.dependent.deep_view(),
            name: self.name@,
            specifier: self.specifier@,
            asked: self.asked.deep_view(),
        }
    }
}

/// A half-built graph, and the edges still to be visited, oldest first.
pub struct WalkModel {
    pub packages: Map<IdModel, PackageModel>,
    pub importers: Map<Seq<char>, ImporterModel>,
    pub work: Seq<PendingModel>,
}

/// What a project declares, by project and by name.
pub type Roots = Map<Seq<char>, Map<Seq<char>, DeclaredModel>>;

/// What a walk has recorded of one project so far.
pub open spec fn importer_in(walk: WalkModel, path: Seq<char>) -> ImporterModel {
    if walk.importers.contains_key(path) {
        walk.importers[path]
    } else {
        Map::empty()
    }
}

/// One declaration taken into account. A `workspace:` specifier names a
/// member, and is settled at once; everything else is work.
pub open spec fn seeded_with(
    members: Map<Seq<char>, Seq<char>>,
    path: Seq<char>,
    name: Seq<char>,
    declared: DeclaredModel,
    walk: WalkModel,
) -> Result<WalkModel, ResolveFault> {
    let DeclaredModel { specifier, kind } = declared;
    if !opens_with(specifier, WORKSPACE_PROTOCOL@) {
        match asked_reading(name, specifier) {
            Ok(asked) => Ok(
                WalkModel {
                    work: walk.work.push(
                        PendingModel {
                            dependent: DependentModel::Importer { path, kind },
                            name,
                            specifier,
                            asked,
                        },
                    ),
                    ..walk
                },
            ),
            Err(fault) => Err(fault),
        }
    } else if members.contains_key(name) {
        let dependency = DependencyModel {
            specifier,
            kind,
            resolution: ResolutionModel::Local(path_between(path, members[name])),
        };
        Ok(
            WalkModel {
                importers: walk.importers.insert(
                    path,
                    importer_in(walk, path).insert(name, dependency),
                ),
                ..walk
            },
        )
    } else {
        Err(
            ResolveFault::NoSuchMember {
                name,
                specifier,
                members: in_order::<String>(members.dom()),
            },
        )
    }
}

/// Some of one project's declarations taken into account, in order.
pub open spec fn seeded_by_names(
    members: Map<Seq<char>, Seq<char>>,
    path: Seq<char>,
    declared: Map<Seq<char>, DeclaredModel>,
    names: Seq<Seq<char>>,
    walk: WalkModel,
) -> Result<WalkModel, ResolveFault>
    decreases names.len(),
{
    if names.len() == 0 {
        Ok(walk)
    } else {
        match seeded_by_names(members, path, declared, names.drop_last(), walk) {
            Ok(before) => seeded_with(members, path, names.last(), declared[names.last()], before),
            Err(fault) => Err(fault),
        }
    }
}

/// Some projects taken into account, in order.
pub open spec fn seeded_by_paths(
    members: Map<Seq<char>, Seq<char>>,
    roots: Roots,
    paths: Seq<Seq<char>>,
    walk: WalkModel,
) -> Result<WalkModel, ResolveFault>
    decreases paths.len(),
{
    if paths.len() == 0 {
        Ok(walk)
    } else {
        match seeded_by_paths(members, roots, paths.drop_last(), walk) {
            Ok(before) => seeded_by_names(
                members,
                paths.last(),
                roots[paths.last()],
                in_order::<String>(roots[paths.last()].dom()),
                before,
            ),
            Err(fault) => Err(fault),
        }
    }
}

/// A walk before anything is taken into account: every project is there, and
/// none has a dependency yet.
pub open spec fn blank_walk(roots: Roots) -> WalkModel {
    WalkModel {
        packages: Map::empty(),
        importers: roots.map_values(|declared: Map<Seq<char>, DeclaredModel>| Map::empty()),
        work: seq![],
    }
}

/// Where a walk starts from what projects declare.
pub open spec fn seeded_walk(roots: Roots, members: Map<Seq<char>, Seq<char>>) -> Result<
    WalkModel,
    ResolveFault,
> {
    seeded_by_paths(members, roots, in_order::<ImporterPath>(roots.dom()), blank_walk(roots))
}

/// A walk with one resolved edge recorded on whoever asked for it.
pub open spec fn recorded(walk: WalkModel, pending: PendingModel, id: IdModel) -> WalkModel {
    match pending.dependent {
        DependentModel::Package { id: parent, optional } => if walk.packages.contains_key(parent) {
            let package = walk.packages[parent];
            let grown = PackageModel {
                dependencies: package.dependencies.insert(pending.name, id),
                optional_dependencies: if optional {
                    package.optional_dependencies.insert(pending.name)
                } else {
                    package.optional_dependencies
                },
                ..package
            };
            WalkModel { packages: walk.packages.insert(parent, grown), ..walk }
        } else {
            walk
        },
        DependentModel::Importer { path, kind } => {
            let dependency = DependencyModel {
                specifier: pending.specifier,
                kind,
                resolution: ResolutionModel::Registry(id),
            };
            WalkModel {
                importers: walk.importers.insert(
                    path,
                    importer_in(walk, path).insert(pending.name, dependency),
                ),
                ..walk
            }
        },
    }
}

/// The work that some of a package's edges amount to.
pub open spec fn pendings_of(id: IdModel, edges: Seq<EdgeModel>) -> Result<
    Seq<PendingModel>,
    ResolveFault,
>
    decreases edges.len(),
{
    if edges.len() == 0 {
        Ok(seq![])
    } else {
        match pendings_of(id, edges.drop_last()) {
            Ok(before) => match asked_reading(edges.last().name, edges.last().specifier) {
                Ok(asked) => Ok(
                    before.push(
                        PendingModel {
                            dependent: DependentModel::Package {
                                id,
                                optional: edges.last().optional,
                            },
                            name: edges.last().name,
                            specifier: edges.last().specifier,
                            asked,
                        },
                    ),
                ),
                Err(fault) => Err(fault),
            },
            Err(fault) => Err(fault),
        }
    }
}

/// The node that a published version becomes, before any of its edges is
/// resolved.
pub open spec fn node_of(
    id: IdModel,
    metadata: MetadataModel,
    integrity: IntegrityModel,
) -> PackageModel {
    PackageModel {
        id,
        resolved: metadata.dist.tarball,
        integrity,
        dependencies: Map::empty(),
        optional_dependencies: Set::empty(),
        supports: SupportModel { os: metadata.os, cpu: metadata.cpu },
        bins: metadata_bins(metadata),
        declared_peers: peers_of(metadata),
        peers: Map::empty(),
    }
}

/// One edge visited, under the registry's answer: a version is selected, the
/// edge recorded, and a node that is new is added with its own edges queued.
pub open spec fn visited(walk: WalkModel, pending: PendingModel, answer: Answer) -> Result<
    WalkModel,
    ResolveFault,
> {
    match answer {
        Err(fault) => Err(ResolveFault::Registry(fault)),
        Ok(packument) => match chosen(packument, pending.asked.name, pending.asked.range) {
            Err(fault) => Err(fault),
            Ok(version) => {
                let id = plain_id(pending.asked.name, version);
                let walk = recorded(walk, pending, id);
                let metadata = packument.versions[version];
                if walk.packages.contains_key(id) {
                    Ok(walk)
                } else {
                    match dist_integrity(metadata.dist) {
                        Err(source) => Err(
                            ResolveFault::Integrity { name: id.name, version, source },
                        ),
                        Ok(integrity) => match pendings_of(id, edges_of(metadata)) {
                            Err(fault) => Err(fault),
                            Ok(found) => Ok(
                                WalkModel {
                                    packages: walk.packages.insert(
                                        id,
                                        node_of(id, metadata, integrity),
                                    ),
                                    work: walk.work + found,
                                    ..walk
                                },
                            ),
                        },
                    }
                }
            },
        },
    }
}

/// The registry's answers, each under the request it answers.
pub type Book = Map<RequestModel, Answer>;

/// How a walk ends when it reads a book of answers, if so many steps are
/// enough and no answer is missing.
pub open spec fn walked(book: Book, walk: WalkModel, steps: nat) -> Option<
    Result<WalkModel, ResolveFault>,
>
    decreases steps,
{
    if walk.work.len() == 0 {
        Some(Ok(walk))
    } else if steps == 0 || !book.contains_key(request_for(walk.work[0].asked)) {
        None
    } else {
        let pending = walk.work[0];
        let rest = WalkModel { work: walk.work.drop_first(), ..walk };
        match visited(rest, pending, book[request_for(pending.asked)]) {
            Ok(next) => walked(book, next, (steps - 1) as nat),
            Err(fault) => Some(Err(fault)),
        }
    }
}

/// The graph that a finished walk has built.
pub open spec fn graph_of(walk: WalkModel) -> GraphModel {
    GraphModel { importers: walk.importers, packages: walk.packages }
}

/// Is this what resolving comes to, under a book of answers?
pub open spec fn resolves_to(
    book: Book,
    roots: Roots,
    members: Map<Seq<char>, Seq<char>>,
    outcome: Result<GraphModel, ResolveFault>,
) -> bool {
    match seeded_walk(roots, members) {
        Err(fault) => outcome == Err::<GraphModel, ResolveFault>(fault),
        Ok(seed) => exists|steps: nat|
            match #[trigger] walked(book, seed, steps) {
                Some(Ok(walk)) => outcome == Ok::<GraphModel, ResolveFault>(graph_of(walk)),
                Some(Err(fault)) => outcome == Err::<GraphModel, ResolveFault>(fault),
                None => false,
            },
    }
}

/// Is every answer in a book one that can be written down?
pub open spec fn is_written(book: Book) -> bool {
    forall|request: RequestModel| #[trigger]
        book.contains_key(request) && book[request] is Ok ==> is_writable(book[request]->Ok_0)
}

/// Is every answer in a book one that can be written down, and one that a
/// client may give or that was remembered from before?
pub open spec fn answered<R: RegistryClient>(
    registry: R,
    remembered: Map<RequestModel, PackumentModel>,
    book: Book,
) -> bool {
    &&& is_written(book)
    &&& forall|request: RequestModel| #[trigger]
        book.contains_key(request) ==> {
            ||| registry.may_answer(request, book[request])
            ||| remembered.contains_key(request) && book[request] == Ok::<
                PackumentModel,
                RegistryFault,
            >(remembered[request])
        }
}

/// Does a book hold every answer that was remembered?
pub open spec fn recalls(book: Book, remembered: Map<RequestModel, PackumentModel>) -> bool {
    forall|request: RequestModel| #[trigger]
        remembered.contains_key(request) ==> book.contains_key(request) && book[request] == Ok::<
            PackumentModel,
            RegistryFault,
        >(remembered[request])
}

/// Is there nothing for a walk to ask about: could it not start, or does it
/// start with no work?
pub open spec fn asks_nothing(roots: Roots, members: Map<Seq<char>, Seq<char>>) -> bool {
    match seeded_walk(roots, members) {
        Ok(seed) => seed.work.len() == 0,
        Err(_) => true,
    }
}

/// More steps than are needed change nothing, and neither do answers that
/// nobody reads.
pub proof fn walks_agree(a: Book, b: Book, walk: WalkModel, m: nat, n: nat)
    requires
        a.submap_of(b),
        walked(a, walk, m) is Some,
        walked(b, walk, n) is Some,
    ensures
        walked(a, walk, m) == walked(b, walk, n),
    decreases m,
{
    if walk.work.len() > 0 {
        let pending = walk.work[0];
        let rest = WalkModel { work: walk.work.drop_first(), ..walk };
        let request = request_for(pending.asked);
        assert(a.contains_key(request));
        assert(b.contains_key(request) && a[request] == b[request]);
        match visited(rest, pending, a[request]) {
            Ok(next) => {
                walks_agree(a, b, next, (m - 1) as nat, (n - 1) as nat);
            },
            Err(fault) => {},
        }
    }
}

/// The same answers give the same graph: a resolution is a function of what
/// was declared and of what the registry said, and what else was asked along
/// the way cannot disturb it.
pub proof fn same_answers_same_graph(
    a: Book,
    b: Book,
    roots: Roots,
    members: Map<Seq<char>, Seq<char>>,
    left: Result<GraphModel, ResolveFault>,
    right: Result<GraphModel, ResolveFault>,
)
    requires
        a.submap_of(b),
        resolves_to(a, roots, members, left),
        resolves_to(b, roots, members, right),
    ensures
        left == right,
{
    match seeded_walk(roots, members) {
        Err(fault) => {},
        Ok(seed) => {
            let m = choose|steps: nat|
                match #[trigger] walked(a, seed, steps) {
                    Some(Ok(walk)) => left == Ok::<GraphModel, ResolveFault>(graph_of(walk)),
                    Some(Err(fault)) => left == Err::<GraphModel, ResolveFault>(fault),
                    None => false,
                };
            let n = choose|steps: nat|
                match #[trigger] walked(b, seed, steps) {
                    Some(Ok(walk)) => right == Ok::<GraphModel, ResolveFault>(graph_of(walk)),
                    Some(Err(fault)) => right == Err::<GraphModel, ResolveFault>(fault),
                    None => false,
                };
            walks_agree(a, b, seed, m, n);
        },
    }
}

/// The registry's answers that are at hand.
#[derive(Debug)]
pub struct Memo {
    packuments: SortedMap<Request, Packument>,
}

impl DeepView for Memo {
    type V = Map<RequestModel, PackumentModel>;

    closed spec fn deep_view(&self) -> Map<RequestModel, PackumentModel> {
        self.packuments.deep_view()
    }
}

impl Memo {
    /// A memo that holds nothing.
    pub fn new() -> (memo: Self)
        ensures
            memo.deep_view() == Map::<RequestModel, PackumentModel>::empty(),
    {
        Memo { packuments: SortedMap::new() }
    }

    /// The answer to one request, if it is at hand.
    pub fn get(&self, request: &Request) -> (found: Option<&Packument>)
        ensures
            match found {
                Some(packument) => self.deep_view().contains_key(request.deep_view())
                    && packument.deep_view() == self.deep_view()[request.deep_view()],
                None => !self.deep_view().contains_key(request.deep_view()),
            },
    {
        self.packuments.get(request)
    }

    /// Everything that is at hand can be written down.
    proof fn is_writable(&self)
        ensures
            forall|request: RequestModel| #[trigger]
                self.deep_view().contains_key(request) ==> is_writable(self.deep_view()[request]),
    {
        self.packuments.is_finite();
        assert forall|request: RequestModel| #[trigger] self.deep_view().contains_key(
            request,
        ) implies is_writable(self.deep_view()[request]) by {
            packuments_are_writable(&self.packuments.held_under(request));
        }
    }

    /// Keep the answer to one request. It answers that request and no other.
    pub fn remember(&mut self, request: Request, packument: Packument)
        ensures
            final(self).deep_view() == old(self).deep_view().insert(
                request.deep_view(),
                packument.deep_view(),
            ),
    {
        self.packuments.insert(request, packument);
    }

    /// Have the answer to one request at hand, asking the registry only if it
    /// is not. A failure leaves nothing behind.
    pub fn obtain<R: RegistryClient>(
        &mut self,
        registry: &mut R,
        name: &str,
        needed: Freshness,
    ) -> (obtained: Result<(), crate::registry::RegistryError>)
        ensures
            ({
                let request = RequestModel {
                    name: name@,
                    must_be_current: needed is MustBeCurrent,
                };
                if old(self).deep_view().contains_key(request) {
                    obtained is Ok && final(self).deep_view() == old(self).deep_view()
                } else {
                    match obtained {
                        Ok(_) => {
                            &&& final(self).deep_view().contains_key(request)
                            &&& final(self).deep_view() == old(self).deep_view().insert(
                                request,
                                final(self).deep_view()[request],
                            )
                            &&& old(registry).may_answer(
                                request,
                                Ok(final(self).deep_view()[request]),
                            )
                        },
                        Err(error) => {
                            &&& final(self).deep_view() == old(self).deep_view()
                            &&& old(registry).may_answer(request, Err(error.deep_view()))
                        },
                    }
                }
            }),
            forall|r: RequestModel, a: Answer| #[trigger]
                final(registry).may_answer(r, a) ==> old(registry).may_answer(r, a),
    {
        let request = Request::new(name, needed);
        if self.get(&request).is_some() {
            return Ok(());
        }
        match registry.packument(name, needed) {
            Ok(packument) => {
                self.remember(request, packument);
                Ok(())
            },
            Err(error) => Err(error),
        }
    }
}

/// A walk in progress.
#[derive(Debug)]
pub struct Walk {
    packages: SortedMap<PackageId, ResolvedPackage>,
    importers: SortedMap<ImporterPath, Importer>,
    work: std::collections::VecDeque<Pending>,
}

impl DeepView for Walk {
    type V = WalkModel;

    closed spec fn deep_view(&self) -> WalkModel {
        WalkModel {
            packages: self.packages.deep_view(),
            importers: self.importers.deep_view(),
            work: self.work.deep_view(),
        }
    }
}

impl Walk {
    /// Record a project's dependency.
    fn depend(
        importers: &mut SortedMap<ImporterPath, Importer>,
        path: &ImporterPath,
        name: String,
        dependency: Dependency,
    )
        ensures
            final(importers).deep_view() == old(importers).deep_view().insert(
                path.deep_view(),
                (if old(importers).deep_view().contains_key(path.deep_view()) {
                    old(importers).deep_view()[path.deep_view()]
                } else {
                    Map::empty()
                }).insert(name@, dependency.deep_view()),
            ),
    {
        let mut importer = match importers.take(path) {
            Some(importer) => importer,
            None => Importer::empty(),
        };
        importer.dependencies.insert(name, dependency);
        let ghost grown = importer.deep_view();
        let ghost without = importers.deep_view();
        importers.insert(path.duplicate(), importer);
        assert(importers.deep_view() =~= old(importers).deep_view().insert(
            path.deep_view(),
            grown,
        ));
    }

    fn seed_one(
        self,
        members: &SortedMap<String, ImporterPath>,
        path: &ImporterPath,
        name: &String,
        declared: &Declared,
    ) -> (seeded: Result<Self, ResolveError>)
        ensures
            result_view(seeded) == seeded_with(
                members.deep_view(),
                path.deep_view(),
                name@,
                declared.deep_view(),
                self.deep_view(),
            ),
    {
        let Walk { packages, mut importers, mut work } = self;
        if after_opening(declared.specifier.as_str(), WORKSPACE_PROTOCOL).is_none() {
            let asked = match Asked::read(name.as_str(), declared.specifier.as_str()) {
                Ok(asked) => asked,
                Err(error) => {
                    return Err(error);
                },
            };
            let pending = Pending {
                dependent: Dependent::Importer { path: path.duplicate(), kind: declared.kind },
                name: name.clone(),
                specifier: declared.specifier.clone(),
                asked,
            };
            let ghost added = pending.deep_view();
            let ghost before = work.deep_view();
            work.push_back(pending);
            assert(work.deep_view() =~= before.push(added));
            return Ok(Walk { packages, importers, work });
        }
        let member = match members.get(name) {
            Some(member) => member,
            None => {
                return Err(
                    ResolveError::NoSuchMember {
                        name: name.clone(),
                        specifier: declared.specifier.clone(),
                        members: members.list_keys(),
                    },
                );
            },
        };
        Walk::depend(
            &mut importers,
            path,
            name.clone(),
            Dependency {
                specifier: declared.specifier.clone(),
                kind: declared.kind,
                resolution: Resolution::Local(local_path(path, member)),
            },
        );
        Ok(Walk { packages, importers, work })
    }

    /// Start a walk from every project's declared ranges. Workspace members
    /// are settled here: there is no version to select.
    pub fn seeded(
        roots: &SortedMap<ImporterPath, SortedMap<String, Declared>>,
        members: &SortedMap<String, ImporterPath>,
    ) -> (seeded: Result<Self, ResolveError>)
        ensures
            result_view(seeded) == seeded_walk(roots.deep_view(), members.deep_view()),
    {
        let ghost all = roots.deep_view();
        let ghost people = members.deep_view();
        let n: usize = roots.len();
        let ghost paths = roots.keys();
        let ghost blank = blank_walk(all);
        let mut importers: SortedMap<ImporterPath, Importer> = SortedMap::new();
        assert(blank.importers.restrict(paths.take(0).to_set()) =~= Map::<
            Seq<char>,
            ImporterModel,
        >::empty());
        let mut i: usize = 0;
        while i < n
            invariant
                i <= n == paths.len(),
                paths == roots.keys(),
                all == roots.deep_view(),
                blank == blank_walk(all),
                importers.deep_view() == blank.importers.restrict(paths.take(i as int).to_set()),
            decreases n - i,
        {
            importers.insert(roots.key_at(i).duplicate(), Importer::empty());
            proof {
                take_one_more(paths, i as int);
                assert(importers.deep_view() =~= blank.importers.restrict(
                    paths.take(i + 1).to_set(),
                ));
            }
            i = i + 1;
        }
        assert(paths.take(n as int) =~= paths);
        assert(blank.importers.restrict(paths.to_set()) =~= blank.importers);
        let mut walk = Walk {
            packages: SortedMap::new(),
            importers,
            work: std::collections::VecDeque::new(),
        };
        assert(walk.deep_view().work =~= blank.work);
        let mut k: usize = 0;
        while k < n
            invariant
                k <= n == paths.len(),
                paths == roots.keys(),
                paths == in_order::<ImporterPath>(all.dom()),
                all == roots.deep_view(),
                people == members.deep_view(),
                blank == blank_walk(all),
                seeded_by_paths(people, all, paths.take(k as int), blank) == Ok::<
                    WalkModel,
                    ResolveFault,
                >(walk.deep_view()),
                paths.take(n as int) == paths,
            decreases n - k,
        {
            let path = roots.key_at(k);
            let declared = roots.value_at(k);
            let ghost here = declared.deep_view();
            let m: usize = declared.len();
            let ghost names = declared.keys();
            let ghost before = walk.deep_view();
            assert(paths.take(k + 1).drop_last() =~= paths.take(k as int));
            let mut j: usize = 0;
            while j < m
                invariant
                    j <= m == names.len(),
                    names == declared.keys(),
                    names == in_order::<String>(here.dom()),
                    here == declared.deep_view(),
                    people == members.deep_view(),
                    k < n == paths.len(),
                    paths == in_order::<ImporterPath>(all.dom()),
                    all.contains_key(paths[k as int]),
                    here == all[paths[k as int]],
                    path.deep_view() == paths[k as int],
                    blank == blank_walk(all),
                    all == roots.deep_view(),
                    paths.take(k + 1).drop_last() == paths.take(k as int),
                    seeded_by_paths(people, all, paths.take(k as int), blank) == Ok::<
                        WalkModel,
                        ResolveFault,
                    >(before),
                    seeded_by_names(
                        people,
                        path.deep_view(),
                        here,
                        names.take(j as int),
                        before,
                    ) == Ok::<WalkModel, ResolveFault>(walk.deep_view()),
                decreases m - j,
            {
                assert(names.take(j + 1).drop_last() =~= names.take(j as int));
                match walk.seed_one(members, path, declared.key_at(j), declared.value_at(j)) {
                    Ok(next) => {
                        walk = next;
                    },
                    Err(error) => {
                        proof {
                            names_fail(
                                people,
                                path.deep_view(),
                                here,
                                names,
                                before,
                                j + 1,
                                error.deep_view(),
                            );
                            assert(seeded_by_paths(people, all, paths.take(k + 1), blank) == Err::<
                                WalkModel,
                                ResolveFault,
                            >(error.deep_view()));
                            paths_fail(people, all, paths, blank, k + 1, error.deep_view());
                        }
                        return Err(error);
                    },
                }
                j = j + 1;
            }
            assert(names.take(m as int) =~= names);
            k = k + 1;
        }
        Ok(walk)
    }
}

proof fn names_fail(
    members: Map<Seq<char>, Seq<char>>,
    path: Seq<char>,
    declared: Map<Seq<char>, DeclaredModel>,
    names: Seq<Seq<char>>,
    walk: WalkModel,
    i: int,
    fault: ResolveFault,
)
    requires
        0 <= i <= names.len(),
        seeded_by_names(members, path, declared, names.take(i), walk) == Err::<
            WalkModel,
            ResolveFault,
        >(fault),
    ensures
        seeded_by_names(members, path, declared, names, walk) == Err::<WalkModel, ResolveFault>(
            fault,
        ),
    decreases names.len() - i,
{
    if i < names.len() {
        assert(names.take(i + 1).drop_last() =~= names.take(i));
        names_fail(members, path, declared, names, walk, i + 1, fault);
    } else {
        assert(names.take(i) =~= names);
    }
}

proof fn paths_fail(
    members: Map<Seq<char>, Seq<char>>,
    roots: Roots,
    paths: Seq<Seq<char>>,
    walk: WalkModel,
    i: int,
    fault: ResolveFault,
)
    requires
        0 <= i <= paths.len(),
        seeded_by_paths(members, roots, paths.take(i), walk) == Err::<WalkModel, ResolveFault>(
            fault,
        ),
    ensures
        seeded_by_paths(members, roots, paths, walk) == Err::<WalkModel, ResolveFault>(fault),
    decreases paths.len() - i,
{
    if i < paths.len() {
        assert(paths.take(i + 1).drop_last() =~= paths.take(i));
        paths_fail(members, roots, paths, walk, i + 1, fault);
    } else {
        assert(paths.take(i) =~= paths);
    }
}

/// The work that a package's edges amount to.
fn pendings_from(id: &PackageId, edges: Vec<Edge>) -> (pendings: Result<Vec<Pending>, ResolveError>)
    ensures
        match pendings {
            Ok(found) => pendings_of(id.deep_view(), edges.deep_view()) == Ok::<
                Seq<PendingModel>,
                ResolveFault,
            >(found.deep_view()),
            Err(error) => pendings_of(id.deep_view(), edges.deep_view()) == Err::<
                Seq<PendingModel>,
                ResolveFault,
            >(error.deep_view()),
        },
{
    let ghost all = edges.deep_view();
    let mut found: Vec<Pending> = Vec::new();
    assert(found.deep_view() =~= seq![]);
    let mut i: usize = 0;
    while i < edges.len()
        invariant
            i <= edges@.len(),
            all == edges.deep_view(),
            pendings_of(id.deep_view(), all.take(i as int)) == Ok::<
                Seq<PendingModel>,
                ResolveFault,
            >(found.deep_view()),
        decreases edges.len() - i,
    {
        let edge = &edges[i];
        let ghost before = found.deep_view();
        assert(all.take(i + 1).drop_last() =~= all.take(i as int));
        assert(all.take(i + 1).last() == edge.deep_view());
        let asked = match Asked::read(edge.name.as_str(), edge.specifier.as_str()) {
            Ok(asked) => asked,
            Err(error) => {
                proof {
                    edges_fail(id.deep_view(), all, i + 1, error.deep_view());
                }
                return Err(error);
            },
        };
        let pending = Pending {
            dependent: Dependent::Package { id: id.duplicate(), optional: edge.optional },
            name: edge.name.clone(),
            specifier: edge.specifier.clone(),
            asked,
        };
        let ghost added = pending.deep_view();
        found.push(pending);
        assert(found.deep_view() =~= before.push(added));
        i = i + 1;
    }
    assert(all.take(all.len() as int) =~= all);
    Ok(found)
}

proof fn edges_fail(id: IdModel, edges: Seq<EdgeModel>, i: int, fault: ResolveFault)
    requires
        0 <= i <= edges.len(),
        pendings_of(id, edges.take(i)) == Err::<Seq<PendingModel>, ResolveFault>(fault),
    ensures
        pendings_of(id, edges) == Err::<Seq<PendingModel>, ResolveFault>(fault),
    decreases edges.len() - i,
{
    if i < edges.len() {
        assert(edges.take(i + 1).drop_last() =~= edges.take(i));
        edges_fail(id, edges, i + 1, fault);
    } else {
        assert(edges.take(i) =~= edges);
    }
}

impl Walk {
    /// The next edge to visit, taken off the work.
    pub fn next(self) -> (next: (Self, Option<Pending>))
        ensures
            match next.1 {
                Some(pending) => {
                    &&& self.deep_view().work.len() > 0
                    &&& pending.deep_view() == self.deep_view().work[0]
                    &&& next.0.deep_view() == (WalkModel {
                        work: self.deep_view().work.drop_first(),
                        ..self.deep_view()
                    })
                },
                None => self.deep_view().work.len() == 0 && next.0.deep_view()
                    == self.deep_view(),
            },
    {
        let Walk { packages, importers, mut work } = self;
        let ghost before = work.deep_view();
        match work.pop_front() {
            Some(pending) => {
                assert(before[0] == pending.deep_view());
                assert(work.deep_view() =~= before.drop_first());
                (Walk { packages, importers, work }, Some(pending))
            },
            None => {
                assert(work.deep_view() =~= before);
                (Walk { packages, importers, work }, None)
            },
        }
    }

    /// Record a resolved edge on whoever asked for it.
    fn record(self, pending: Pending, id: &PackageId) -> (walk: Self)
        ensures
            walk.deep_view() == recorded(self.deep_view(), pending.deep_view(), id.deep_view()),
    {
        let Walk { mut packages, mut importers, work } = self;
        let ghost before = packages.deep_view();
        let Pending { dependent, name, specifier, asked: _ } = pending;
        match dependent {
            Dependent::Package { id: parent, optional } => {
                match packages.take(&parent) {
                    Some(mut package) => {
                        if optional {
                            package.optional_dependencies.insert(name.clone());
                        }
                        package.dependencies.insert(name, id.duplicate());
                        let ghost grown = package.deep_view();
                        let ghost key = parent.deep_view();
                        packages.insert(parent, package);
                        assert(packages.deep_view() =~= before.insert(key, grown));
                    },
                    None => {
                        assert(packages.deep_view() =~= before);
                    },
                }
            },
            Dependent::Importer { path, kind } => {
                Walk::depend(
                    &mut importers,
                    &path,
                    name,
                    Dependency { specifier, kind, resolution: Resolution::Registry(id.duplicate()) },
                );
            },
        }
        Walk { packages, importers, work }
    }

    /// Visit one edge: record it under the version that was selected for it,
    /// and if the node is new, queue what it depends on.
    ///
    /// That only a new node queues anything is what makes a cycle end.
    pub fn visit(self, pending: Pending, packument: &Packument, version: &str) -> (walk: Result<
        Self,
        ResolveError,
    >)
        requires
            chosen(
                packument.deep_view(),
                pending.deep_view().asked.name,
                pending.deep_view().asked.range,
            ) == Ok::<Seq<char>, ResolveFault>(version@),
            packument.versions.deep_view().contains_key(version@),
        ensures
            result_view(walk) == visited(
                self.deep_view(),
                pending.deep_view(),
                Ok(packument.deep_view()),
            ),
    {
        let id = PackageId::plain(pending.asked.name.as_str(), version);
        let walk = self.record(pending, &id);
        if walk.packages.contains(&id) {
            return Ok(walk);
        }
        let metadata = match packument.versions.named(version) {
            Some(metadata) => metadata,
            None => {
                return Ok(walk);
            },
        };
        let integrity = match metadata.dist.integrity() {
            Ok(integrity) => integrity,
            Err(source) => {
                return Err(
                    ResolveError::Integrity {
                        name: id.name.clone(),
                        version: id.version.clone(),
                        source,
                    },
                );
            },
        };
        let mut found = match pendings_from(&id, declared_edges(metadata)) {
            Ok(found) => found,
            Err(error) => {
                return Err(error);
            },
        };
        let Walk { mut packages, importers, mut work } = walk;
        let ghost held = work.deep_view();
        let ghost added = found.deep_view();
        let mut queue: std::collections::VecDeque<Pending> = std::collections::VecDeque::new();
        while found.len() > 0
            invariant
                queue.deep_view() == added.skip(found@.len() as int),
                found.deep_view() == added.take(found@.len() as int),
                found@.len() <= added.len(),
            decreases found.len(),
        {
            let ghost later = queue.deep_view();
            let ghost earlier = found.deep_view();
            match found.pop() {
                Some(pending) => {
                    let ghost one = pending.deep_view();
                    queue.push_front(pending);
                    assert(earlier.last() == one);
                    assert(found.deep_view() =~= earlier.drop_last());
                    assert(queue.deep_view() =~= seq![one] + later);
                    assert(queue.deep_view() =~= added.skip(found@.len() as int));
                    assert(found.deep_view() =~= added.take(found@.len() as int));
                },
                None => {},
            }
        }
        assert(queue.deep_view() =~= added);
        work.append(&mut queue);
        assert(work.deep_view() =~= held + added);
        let package = ResolvedPackage {
            id: id.duplicate(),
            resolved: metadata.dist.tarball.clone(),
            integrity,
            dependencies: SortedMap::new(),
            optional_dependencies: SortedSet::new(),
            supports: PlatformSupport {
                os: metadata.os.duplicate(),
                cpu: metadata.cpu.duplicate(),
            },
            bins: metadata.bins(),
            declared_peers: declared_peers(metadata),
            peers: SortedMap::new(),
        };
        packages.insert(id, package);
        Ok(Walk { packages, importers, work })
    }

    /// How many packages the walk has found.
    fn size(&self) -> (n: usize)
        ensures
            n == self.deep_view().packages.dom().len(),
            self.deep_view().packages.dom().finite(),
    {
        self.packages.len()
    }

    /// The graph that a finished walk has built.
    pub fn into_graph(self) -> (graph: ResolvedGraph)
        ensures
            graph.deep_view() == graph_of(self.deep_view()),
    {
        ResolvedGraph { importers: self.importers, packages: self.packages }
    }

    /// Walk until nothing is left to visit, one edge at a time, oldest first.
    fn run<R: RegistryClient>(self, known: Memo, registry: &mut R) -> (outcome: Result<
        Self,
        ResolveError,
    >)
        ensures
            exists|book: Book, steps: nat| #[trigger]
                walked(book, self.deep_view(), steps) == Some(result_view(outcome)) && answered(
                    *old(registry),
                    known.deep_view(),
                    book,
                ) && recalls(book, known.deep_view()),
            self.deep_view().work.len() == 0 ==> *final(registry) == *old(registry),
    {
        let ghost seed = self.deep_view();
        let ghost start = *registry;
        let ghost remembered = known.deep_view();
        let ghost mut book: Book = Map::new(
            |r: RequestModel| remembered.contains_key(r),
            |r: RequestModel| Ok(remembered[r]),
        );
        let ghost mut taken: nat = 0;
        proof {
            known.is_writable();
        }
        let mut memo = known;
        let mut walk = self;
        let mut selections: SortedMap<(String, String), String> = SortedMap::new();
        let mut size: usize = walk.size();
        loop
            invariant
                answered(start, remembered, book),
                recalls(book, remembered),
                seed.work.len() == 0 ==> walk.deep_view() == seed && *registry == start,
                forall|r: RequestModel, a: Answer| #[trigger]
                    registry.may_answer(r, a) ==> start.may_answer(r, a),
                forall|r: RequestModel| #[trigger]
                    memo.deep_view().contains_key(r) ==> book.contains_key(r) && book[r] == Ok::<
                        PackumentModel,
                        RegistryFault,
                    >(memo.deep_view()[r]),
                forall|r: RequestModel| #[trigger]
                    book.contains_key(r) ==> memo.deep_view().contains_key(r),
                forall|b: Book, steps: nat|
                    book.submap_of(b) ==> walked(b, seed, steps + taken) == #[trigger] walked(
                        b,
                        walk.deep_view(),
                        steps,
                    ),
                forall|name: Seq<char>, range: Seq<char>| #[trigger]
                    selections.deep_view().contains_key((name, range)) ==> {
                        let request = request_for(AskedModel { name, range });
                        &&& memo.deep_view().contains_key(request)
                        &&& chosen(memo.deep_view()[request], name, range) == Ok::<
                            Seq<char>,
                            ResolveFault,
                        >(selections.deep_view()[(name, range)])
                        &&& memo.deep_view()[request].versions.contains_key(
                            selections.deep_view()[(name, range)],
                        )
                    },
                size == walk.deep_view().packages.dom().len(),
                walk.deep_view().packages.dom().finite(),
                start == *old(registry),
                seed == self.deep_view(),
                remembered == known.deep_view(),
            decreases usize::MAX - size, walk.deep_view().work.len(),
        {
            let ghost here = walk.deep_view();
            let ghost size0 = size;
            let (rest, next) = walk.next();
            let pending = match next {
                Some(pending) => pending,
                None => {
                    proof {
                        assert(walked(book, here, 0) == Some(
                            Ok::<WalkModel, ResolveFault>(here),
                        ));
                        assert(walked(book, seed, 0 + taken) == walked(book, here, 0));
                    }
                    return Ok(rest);
                },
            };
            let ghost edge = pending.deep_view();
            let ghost request = request_for(edge.asked);
            let ghost memo0 = memo.deep_view();
            let needed = freshness_for(pending.asked.range.as_str());
            let obtained = memo.obtain(registry, pending.asked.name.as_str(), needed);
            match obtained {
                Ok(_) => {},
                Err(error) => {
                    proof {
                        let b = book.insert(request, Err(error.deep_view()));
                        assert(!book.contains_key(request));
                        assert(book.submap_of(b));
                        assert(answered(start, remembered, b));
                        assert(walked(b, here, 1) == Some(
                            Err::<WalkModel, ResolveFault>(
                                ResolveFault::Registry(error.deep_view()),
                            ),
                        ));
                        assert(walked(b, seed, 1 + taken) == walked(b, here, 1));
                    }
                    return Err(ResolveError::Registry(error));
                },
            }
            proof {
                memo.is_writable();
                let old_book = book;
                let answer: Answer = Ok(memo.deep_view()[request]);
                if !memo0.contains_key(request) {
                    book = book.insert(request, answer);
                    assert(old_book.submap_of(book));
                    assert forall|b: Book, steps: nat| book.submap_of(b) implies walked(
                        b,
                        seed,
                        steps + taken,
                    ) == #[trigger] walked(b, here, steps) by {
                        assert(old_book.submap_of(b)) by {
                            assert forall|r: RequestModel| #[trigger]
                                old_book.contains_key(r) implies b.contains_key(r) && b[r]
                                == old_book[r] by {
                                assert(book.contains_key(r));
                            }
                        }
                    }
                }
                assert(book.contains_key(request) && book[request] == answer);
            }
            let key = (pending.asked.name.clone(), pending.asked.range.clone());
            let asked_request = Request::new(pending.asked.name.as_str(), needed);
            let packument = match memo.get(&asked_request) {
                Some(packument) => packument,
                None => {
                    assert(false);
                    return Ok(rest);
                },
            };
            let version = match selections.get(&key) {
                Some(version) => version.clone(),
                None => match choose_version(packument, key.0.as_str(), key.1.as_str()) {
                    Ok(version) => version,
                    Err(error) => {
                        proof {
                            assert(walked(book, here, 1) == Some(
                                Err::<WalkModel, ResolveFault>(error.deep_view()),
                            ));
                            assert(walked(book, seed, 1 + taken) == walked(book, here, 1));
                        }
                        return Err(error);
                    },
                },
            };
            let ghost before_visit = rest.deep_view();
            let visited_walk = match rest.visit(pending, packument, version.as_str()) {
                Ok(next) => next,
                Err(error) => {
                    proof {
                        assert(walked(book, here, 1) == Some(
                            Err::<WalkModel, ResolveFault>(error.deep_view()),
                        ));
                        assert(walked(book, seed, 1 + taken) == walked(book, here, 1));
                    }
                    return Err(error);
                },
            };
            selections.insert(key, version);
            walk = visited_walk;
            size = walk.size();
            proof {
                visits_progress(before_visit, edge, book[request]);
                let there = walk.deep_view();
                assert forall|b: Book, steps: nat| book.submap_of(b) implies walked(
                    b,
                    seed,
                    steps + (taken + 1),
                ) == #[trigger] walked(b, there, steps) by {
                    assert(b.contains_key(request) && b[request] == book[request]);
                    assert(walked(b, here, steps + 1) == walked(b, there, steps));
                    assert(walked(b, seed, (steps + 1) + taken) == walked(b, here, steps + 1));
                }
                taken = taken + 1;
            }
        }
    }
}

/// A visit never loses a package, and where it adds none it adds no work.
proof fn visits_progress(walk: WalkModel, pending: PendingModel, answer: Answer)
    requires
        walk.packages.dom().finite(),
        visited(walk, pending, answer) is Ok,
    ensures
        ({
            let next = visited(walk, pending, answer)->Ok_0;
            &&& next.packages.dom().finite()
            &&& next.packages.dom().len() > walk.packages.dom().len() || (
            next.packages.dom().len() == walk.packages.dom().len() && next.work == walk.work)
        }),
{
    let packument = answer->Ok_0;
    let version = chosen(packument, pending.asked.name, pending.asked.range)->Ok_0;
    let id = plain_id(pending.asked.name, version);
    let after = recorded(walk, pending, id);
    assert(after.packages.dom() =~= walk.packages.dom());
}

/// A version that was selected on the way, and what it would take to download
/// it. Nothing here is a claim that the finished graph wants it.
#[derive(Debug)]
pub struct Candidate {
    pub id: PackageId,
    pub resolved: String,
    pub integrity: Integrity,
    pub supports: PlatformSupport,
}

/// What a [`Candidate`] means.
pub struct CandidateModel {
    pub id: IdModel,
    pub resolved: Seq<char>,
    pub integrity: IntegrityModel,
    pub supports: SupportModel,
}

impl DeepView for Candidate {
    type V = CandidateModel;

    open spec fn deep_view(&self) -> CandidateModel {
        CandidateModel {
            id: self.id.deep_view(),
            resolved: self.resolved@,
            integrity: self.integrity.deep_view(),
            supports: self.supports.deep_view(),
        }
    }
}

/// The download that an answered question makes possible, if the selected
/// version says what its bytes must hash to.
pub open spec fn candidate_of(packument: PackumentModel, asked: AskedModel) -> Option<
    CandidateModel,
> {
    match chosen(packument, asked.name, asked.range) {
        Ok(version) => {
            let metadata = packument.versions[version];
            match dist_integrity(metadata.dist) {
                Ok(integrity) => Some(
                    CandidateModel {
                        id: plain_id(asked.name, version),
                        resolved: metadata.dist.tarball,
                        integrity,
                        supports: SupportModel { os: metadata.os, cpu: metadata.cpu },
                    },
                ),
                Err(_) => None,
            }
        },
        Err(_) => None,
    }
}

/// The questions that some edges raise, those that cannot be read left out.
pub open spec fn questions_of(edges: Seq<EdgeModel>) -> Seq<AskedModel>
    decreases edges.len(),
{
    if edges.len() == 0 {
        seq![]
    } else {
        let before = questions_of(edges.drop_last());
        match asked_reading(edges.last().name, edges.last().specifier) {
            Ok(asked) => before.push(asked),
            Err(_) => before,
        }
    }
}

/// The questions that an answered question raises in turn.
pub open spec fn questions_after(packument: PackumentModel, asked: AskedModel) -> Seq<AskedModel> {
    match chosen(packument, asked.name, asked.range) {
        Ok(version) => questions_of(edges_of(packument.versions[version])),
        Err(_) => seq![],
    }
}

/// What an answered question makes possible: a download to start, and the
/// next questions to ask.
pub fn scout(packument: &Packument, asked: &Asked) -> (found: (Option<Candidate>, Vec<Asked>))
    ensures
        found.0.deep_view() == candidate_of(packument.deep_view(), asked.deep_view()),
        found.1.deep_view() == questions_after(packument.deep_view(), asked.deep_view()),
{
    let mut next: Vec<Asked> = Vec::new();
    assert(next.deep_view() =~= seq![]);
    let version = match choose_version(packument, asked.name.as_str(), asked.range.as_str()) {
        Ok(version) => version,
        Err(_) => {
            return (None, next);
        },
    };
    let metadata = match packument.versions.get(&version) {
        Some(metadata) => metadata,
        None => {
            return (None, next);
        },
    };
    let candidate = match metadata.dist.integrity() {
        Ok(integrity) => Some(
            Candidate {
                id: PackageId::plain(asked.name.as_str(), version.as_str()),
                resolved: metadata.dist.tarball.clone(),
                integrity,
                supports: PlatformSupport {
                    os: metadata.os.duplicate(),
                    cpu: metadata.cpu.duplicate(),
                },
            },
        ),
        Err(_) => None,
    };
    let edges = declared_edges(metadata);
    let ghost all = edges.deep_view();
    let mut i: usize = 0;
    while i < edges.len()
        invariant
            i <= edges@.len(),
            all == edges.deep_view(),
            next.deep_view() == questions_of(all.take(i as int)),
        decreases edges.len() - i,
    {
        let edge = &edges[i];
        let ghost before = next.deep_view();
        assert(all.take(i + 1).drop_last() =~= all.take(i as int));
        assert(all.take(i + 1).last() == edge.deep_view());
        match Asked::read(edge.name.as_str(), edge.specifier.as_str()) {
            Ok(question) => {
                let ghost added = question.deep_view();
                next.push(question);
                assert(next.deep_view() =~= before.push(added));
            },
            Err(_) => {},
        }
        i = i + 1;
    }
    assert(all.take(all.len() as int) =~= all);
    (candidate, next)
}

/// Told about each version that is selected on the way, as it is selected.
///
/// It is told and cannot answer, so nothing it does can reach a selection.
pub trait Watcher: Sized {
    /// Everything it was told, in order.
    spec fn heard(&self) -> Seq<CandidateModel>;

    fn tell(&mut self, candidate: Candidate)
        ensures
            final(self).heard() == old(self).heard().push(candidate.deep_view()),
    ;
}

/// A watcher that keeps what it is told.
#[derive(Debug)]
pub struct Heard {
    pub candidates: Vec<Candidate>,
}

impl Watcher for Heard {
    open spec fn heard(&self) -> Seq<CandidateModel> {
        self.candidates.deep_view()
    }

    fn tell(&mut self, candidate: Candidate) {
        self.candidates.push(candidate);
        assert(self.candidates.deep_view() =~= old(self).candidates.deep_view().push(
            candidate.deep_view(),
        ));
    }
}

/// Is this the download that some answer of a client makes possible?
pub open spec fn comes_from<R: RegistryClient>(registry: R, candidate: CandidateModel) -> bool {
    exists|asked: AskedModel, packument: PackumentModel| #[trigger]
        candidate_of(packument, asked) == Some(candidate) && registry.may_answer(
            request_for(asked),
            Ok(packument),
        )
}

/// Is everything that was told after some point a download that the client's
/// answers make possible, with nothing before that point changed?
pub open spec fn told_truly<R: RegistryClient>(
    registry: R,
    before: Seq<CandidateModel>,
    after: Seq<CandidateModel>,
) -> bool {
    &&& before.len() <= after.len()
    &&& after.take(before.len() as int) == before
    &&& forall|i: int| before.len() <= i < after.len() ==> comes_from(registry, #[trigger] after[i])
}

/// A question as a pair of what it names and what it asks of it.
pub open spec fn question_key(asked: AskedModel) -> (Seq<char>, Seq<char>) {
    (asked.name, asked.range)
}

/// Was a question followed up: is its answer at hand, was the download that
/// the answer makes possible told, and is every question that the answer
/// raises among those to be followed up?
pub open spec fn is_followed(
    memo: Map<RequestModel, PackumentModel>,
    scouted: Set<(Seq<char>, Seq<char>)>,
    told: Seq<CandidateModel>,
    asked: AskedModel,
) -> bool {
    let packument = memo[request_for(asked)];
    &&& memo.contains_key(request_for(asked))
    &&& candidate_of(packument, asked) is Some ==> told.contains(candidate_of(packument, asked)->0)
    &&& forall|k: int|
        0 <= k < questions_after(packument, asked).len() ==> scouted.contains(
            question_key(#[trigger] questions_after(packument, asked)[k]),
        )
}

/// Was all that some work leads to followed up?
pub open spec fn covers(
    scouted: Set<(Seq<char>, Seq<char>)>,
    memo: Map<RequestModel, PackumentModel>,
    told: Seq<CandidateModel>,
    work: Seq<PendingModel>,
) -> bool {
    &&& forall|i: int| 0 <= i < work.len() ==> scouted.contains(question_key((#[trigger] work[i]).asked))
    &&& forall|name: Seq<char>, range: Seq<char>| #[trigger]
        scouted.contains((name, range)) ==> is_followed(
            memo,
            scouted,
            told,
            AskedModel { name, range },
        )
}

/// What it takes to download a package of a graph.
pub open spec fn download_of(id: IdModel, package: PackageModel) -> CandidateModel {
    CandidateModel {
        id,
        resolved: package.resolved,
        integrity: package.integrity,
        supports: package.supports,
    }
}

/// Was every package told of?
pub open spec fn all_told(packages: Map<IdModel, PackageModel>, told: Seq<CandidateModel>) -> bool {
    forall|id: IdModel| #[trigger]
        packages.contains_key(id) ==> told.contains(download_of(id, packages[id]))
}

proof fn telling_keeps(told: Seq<CandidateModel>, more: CandidateModel)
    ensures
        told.push(more).contains(more),
        forall|c: CandidateModel| #[trigger] told.contains(c) ==> told.push(more).contains(c),
{
    assert(told.push(more)[told.len() as int] == more);
    assert forall|c: CandidateModel| #[trigger] told.contains(c) implies told.push(more).contains(
        c,
    ) by {
        let k = told.index_of(c);
        assert(told.push(more)[k] == c);
    }
}

/// Work that edges amount to asks the questions that they raise.
proof fn work_asks_what_edges_raise(id: IdModel, edges: Seq<EdgeModel>)
    requires
        pendings_of(id, edges) is Ok,
    ensures
        pendings_of(id, edges)->Ok_0.len() == questions_of(edges).len(),
        forall|i: int|
            0 <= i < questions_of(edges).len() ==> (#[trigger] pendings_of(id, edges)->Ok_0[i]).asked
                == questions_of(edges)[i],
    decreases edges.len(),
{
    if edges.len() > 0 {
        work_asks_what_edges_raise(id, edges.drop_last());
    }
}

proof fn visits_stay_told(
    scouted: Set<(Seq<char>, Seq<char>)>,
    memo: Map<RequestModel, PackumentModel>,
    told: Seq<CandidateModel>,
    walk: WalkModel,
    pending: PendingModel,
)
    requires
        covers(scouted, memo, told, walk.work),
        scouted.contains(question_key(pending.asked)),
        all_told(walk.packages, told),
        visited(walk, pending, Ok(memo[request_for(pending.asked)])) is Ok,
    ensures
        ({
            let next = visited(walk, pending, Ok(memo[request_for(pending.asked)]))->Ok_0;
            covers(scouted, memo, told, next.work) && all_told(next.packages, told)
        }),
{
    let asked = pending.asked;
    let packument = memo[request_for(asked)];
    let version = chosen(packument, asked.name, asked.range)->Ok_0;
    let id = plain_id(asked.name, version);
    let after = recorded(walk, pending, id);
    let next = visited(walk, pending, Ok(packument))->Ok_0;
    assert(is_followed(memo, scouted, told, AskedModel { name: asked.name, range: asked.range }));
    assert(asked == (AskedModel { name: asked.name, range: asked.range }));
    assert forall|x: IdModel| #[trigger] after.packages.contains_key(x) implies told.contains(
        download_of(x, after.packages[x]),
    ) by {
        assert(walk.packages.contains_key(x));
        assert(download_of(x, after.packages[x]) == download_of(x, walk.packages[x]));
    }
    if !after.packages.contains_key(id) {
        let metadata = packument.versions[version];
        let integrity = dist_integrity(metadata.dist)->Ok_0;
        let edges = edges_of(metadata);
        let found = pendings_of(id, edges)->Ok_0;
        work_asks_what_edges_raise(id, edges);
        assert(download_of(id, node_of(id, metadata, integrity)) == candidate_of(
            packument,
            asked,
        )->0);
        assert(next.work == walk.work + found);
        assert forall|i: int| 0 <= i < next.work.len() implies scouted.contains(
            question_key((#[trigger] next.work[i]).asked),
        ) by {
            if i < walk.work.len() {
                assert(next.work[i] == walk.work[i]);
            } else {
                let k = i - walk.work.len();
                assert(next.work[i] == found[k]);
                assert(questions_after(packument, asked)[k] == found[k].asked);
            }
        }
        assert forall|x: IdModel| #[trigger] next.packages.contains_key(x) implies told.contains(
            download_of(x, next.packages[x]),
        ) by {
            if x != id {
                assert(after.packages.contains_key(x));
            }
        }
    }
}

/// A walk that reads what was followed up finds nothing that was not told.
proof fn walks_stay_told(
    book: Book,
    scouted: Set<(Seq<char>, Seq<char>)>,
    memo: Map<RequestModel, PackumentModel>,
    told: Seq<CandidateModel>,
    walk: WalkModel,
    steps: nat,
)
    requires
        recalls(book, memo),
        covers(scouted, memo, told, walk.work),
        all_told(walk.packages, told),
        walked(book, walk, steps) is Some,
        walked(book, walk, steps)->0 is Ok,
    ensures
        all_told(((walked(book, walk, steps)->0)->Ok_0).packages, told),
    decreases steps,
{
    if walk.work.len() > 0 {
        let pending = walk.work[0];
        let rest = WalkModel { work: walk.work.drop_first(), ..walk };
        let request = request_for(pending.asked);
        assert(scouted.contains(question_key(pending.asked)));
        assert(is_followed(
            memo,
            scouted,
            told,
            AskedModel { name: pending.asked.name, range: pending.asked.range },
        ));
        assert(pending.asked == (AskedModel {
            name: pending.asked.name,
            range: pending.asked.range,
        }));
        assert(memo.contains_key(request));
        assert(covers(scouted, memo, told, rest.work)) by {
            assert forall|i: int| 0 <= i < rest.work.len() implies scouted.contains(
                question_key((#[trigger] rest.work[i]).asked),
            ) by {
                assert(rest.work[i] == walk.work[i + 1]);
            }
        }
        visits_stay_told(scouted, memo, told, rest, pending);
        let next = visited(rest, pending, book[request])->Ok_0;
        walks_stay_told(book, scouted, memo, told, next, (steps - 1) as nat);
    }
}

impl Walk {
    /// Ask ahead for what the walk will need, telling the watcher of each
    /// version selected on the way.
    ///
    /// It decides nothing: it leaves answers behind, each under its own
    /// request. A failure is dropped, because the walk asks again and reports
    /// it, and ends the run, because the walk will stop there or sooner.
    /// Without one, all that the walk leads to is followed up.
    fn prefetch<R: RegistryClient, W: Watcher>(&self, registry: &mut R, watch: &mut W) -> (memo: Memo)
        ensures
            forall|r: RequestModel| #[trigger]
                memo.deep_view().contains_key(r) ==> old(registry).may_answer(
                    r,
                    Ok(memo.deep_view()[r]),
                ),
            forall|r: RequestModel, a: Answer| #[trigger]
                final(registry).may_answer(r, a) ==> old(registry).may_answer(r, a),
            told_truly(*old(registry), old(watch).heard(), final(watch).heard()),
            (exists|r: RequestModel, fault: RegistryFault| #[trigger]
                old(registry).may_answer(r, Err(fault)) && !memo.deep_view().contains_key(r))
                || exists|scouted: Set<(Seq<char>, Seq<char>)>| #[trigger]
                covers(
                    scouted,
                    memo.deep_view(),
                    final(watch).heard().skip(old(watch).heard().len() as int),
                    self.deep_view().work,
                ),
            self.deep_view().work.len() == 0 ==> *final(registry) == *old(registry),
    {
        let mut memo = Memo::new();
        let mut scouted: SortedSet<(String, String)> = SortedSet::new();
        let mut stack: Vec<Asked> = Vec::new();
        let ghost work = self.deep_view().work;
        assert(stack.deep_view() =~= seq![]);
        let mut i: usize = 0;
        while i < self.work.len()
            invariant
                i <= self.work@.len(),
                work == self.work.deep_view(),
                work.len() == self.work@.len(),
                work.len() == 0 ==> stack@.len() == 0,
                forall|k: int|
                    0 <= k < i ==> scouted.deep_view().contains(
                        question_key((#[trigger] work[k]).asked),
                    ),
                forall|name: Seq<char>, range: Seq<char>| #[trigger]
                    scouted.deep_view().contains((name, range)) ==> stack.deep_view().contains(
                        AskedModel { name, range },
                    ),
            decreases self.work.len() - i,
        {
            let asked = &self.work[i].asked;
            let ghost here = asked.deep_view();
            assert(work[i as int].asked == here);
            let key = (asked.name.clone(), asked.range.clone());
            assert(key.deep_view() == question_key(here));
            let ghost before = stack.deep_view();
            if scouted.insert(key) {
                let copy = asked.duplicate();
                stack.push(copy);
                assert(stack.deep_view() =~= before.push(here));
                proof {
                    stacking_keeps(before, here);
                }
            }
            i = i + 1;
        }
        let ghost start = *registry;
        let ghost before = watch.heard();
        let ghost base_len = before.len() as int;
        assert(before.take(base_len) =~= before);
        let mut count: usize = scouted.len();
        while stack.len() > 0
            invariant
                start == *old(registry),
                before == old(watch).heard(),
                base_len == before.len(),
                count == scouted.deep_view().len(),
                scouted.deep_view().finite(),
                work == self.deep_view().work,
                work.len() == 0 ==> stack@.len() == 0 && *registry == start,
                forall|k: int|
                    0 <= k < work.len() ==> scouted.deep_view().contains(
                        question_key((#[trigger] work[k]).asked),
                    ),
                forall|name: Seq<char>, range: Seq<char>| #[trigger]
                    scouted.deep_view().contains((name, range)) ==> is_followed(
                        memo.deep_view(),
                        scouted.deep_view(),
                        watch.heard().skip(base_len),
                        AskedModel { name, range },
                    ) || stack.deep_view().contains(AskedModel { name, range }),
                forall|r: RequestModel| #[trigger]
                    memo.deep_view().contains_key(r) ==> start.may_answer(
                        r,
                        Ok(memo.deep_view()[r]),
                    ),
                forall|r: RequestModel, a: Answer| #[trigger]
                    registry.may_answer(r, a) ==> start.may_answer(r, a),
                told_truly(start, before, watch.heard()),
            decreases usize::MAX - count, stack.len(),
        {
            let ghost stack0 = stack.deep_view();
            let asked = match stack.pop() {
                Some(asked) => asked,
                None => {
                    assert(false);
                    return memo;
                },
            };
            let ghost here = asked.deep_view();
            assert(stack0 =~= stack.deep_view().push(here));
            let needed = freshness_for(asked.range.as_str());
            let ghost request = request_for(here);
            let ghost memo0 = memo.deep_view();
            let ghost scouted0 = scouted.deep_view();
            let ghost told0 = watch.heard().skip(base_len);
            match memo.obtain(registry, asked.name.as_str(), needed) {
                Ok(_) => {},
                Err(error) => {
                    assert(start.may_answer(request, Err(error.deep_view())));
                    return memo;
                },
            }
            let question = Request::new(asked.name.as_str(), needed);
            let packument = match memo.get(&question) {
                Some(packument) => packument,
                None => {
                    assert(false);
                    return memo;
                },
            };
            let ghost answer = packument.deep_view();
            assert(memo.deep_view()[request] == answer);
            let (candidate, mut next) = scout(packument, &asked);
            match candidate {
                Some(candidate) => {
                    let ghost told = candidate.deep_view();
                    let ghost heard = watch.heard();
                    proof {
                        assert(candidate_of(packument.deep_view(), asked.deep_view()) == Some(told));
                        assert(comes_from(start, told));
                    }
                    watch.tell(candidate);
                    proof {
                        let now = watch.heard();
                        assert(now.take(before.len() as int) =~= heard.take(before.len() as int));
                        assert forall|k: int| before.len() <= k < now.len() implies comes_from(
                            start,
                            #[trigger] now[k],
                        ) by {
                            if k < heard.len() {
                                assert(comes_from(start, heard[k]));
                            }
                        }
                        assert(now.skip(base_len) =~= told0.push(told));
                        telling_keeps(told0, told);
                    }
                },
                None => {},
            }
            let ghost told1 = watch.heard().skip(base_len);
            let ghost memo1 = memo.deep_view();
            assert forall|name: Seq<char>, range: Seq<char>| #[trigger]
                scouted0.contains((name, range)) implies is_followed(
                memo1,
                scouted0,
                told1,
                AskedModel { name, range },
            ) || stack.deep_view().contains(AskedModel { name, range }) || here == (AskedModel {
                name,
                range,
            }) by {
                let q = AskedModel { name, range };
                if is_followed(memo0, scouted0, told0, q) {
                    assert(memo0.contains_key(request_for(q)));
                    assert(memo1[request_for(q)] == memo0[request_for(q)]);
                    assert(is_followed(memo1, scouted0, told1, q));
                } else {
                    let k = stack0.index_of(q);
                    if k < stack.deep_view().len() {
                        assert(stack.deep_view()[k] == q);
                    }
                }
            }
            let ghost base = count;
            let ghost deep = stack@.len();
            let ghost raised = questions_after(answer, here);
            assert(next.deep_view() == raised);
            let mut k: usize = 0;
            while k < next.len()
                invariant
                    k <= next@.len(),
                    next.deep_view() == raised,
                    raised.len() == next@.len(),
                    scouted.deep_view().finite(),
                    scouted.deep_view().len() <= usize::MAX,
                    scouted.deep_view().len() > base || (scouted.deep_view().len() == base
                        && stack@.len() == deep),
                    scouted0.subset_of(scouted.deep_view()),
                    forall|j: int|
                        0 <= j < k ==> scouted.deep_view().contains(
                            question_key(#[trigger] raised[j]),
                        ),
                    forall|name: Seq<char>, range: Seq<char>| #[trigger]
                        scouted.deep_view().contains((name, range)) ==> is_followed(
                            memo1,
                            scouted0,
                            told1,
                            AskedModel { name, range },
                        ) || stack.deep_view().contains(AskedModel { name, range }) || here == (
                        AskedModel { name, range }),
                decreases next.len() - k,
            {
                let question = &next[k];
                let ghost one = question.deep_view();
                assert(raised[k as int] == one);
                let held: usize = scouted.len();
                let ghost earlier = stack.deep_view();
                let key = (question.name.clone(), question.range.clone());
                assert(key.deep_view() == question_key(one));
                if scouted.insert(key) {
                    let copy = question.duplicate();
                    stack.push(copy);
                    assert(stack.deep_view() =~= earlier.push(one));
                    proof {
                        stacking_keeps(earlier, one);
                    }
                }
                let grown: usize = scouted.len();
                k = k + 1;
            }
            count = scouted.len();
            proof {
                let all = scouted.deep_view();
                assert(is_followed(memo1, all, told1, here));
                assert forall|name: Seq<char>, range: Seq<char>| #[trigger]
                    all.contains((name, range)) implies is_followed(
                    memo1,
                    all,
                    told1,
                    AskedModel { name, range },
                ) || stack.deep_view().contains(AskedModel { name, range }) by {
                    let q = AskedModel { name, range };
                    if is_followed(memo1, scouted0, told1, q) {
                        assert(is_followed(memo1, all, told1, q));
                    }
                }
            }
        }
        proof {
            assert(stack.deep_view().len() == 0);
            assert(covers(
                scouted.deep_view(),
                memo.deep_view(),
                watch.heard().skip(base_len),
                work,
            ));
        }
        memo
    }
}

proof fn stacking_keeps(stack: Seq<AskedModel>, more: AskedModel)
    ensures
        stack.push(more).contains(more),
        forall|q: AskedModel| #[trigger] stack.contains(q) ==> stack.push(more).contains(q),
{
    assert(stack.push(more)[stack.len() as int] == more);
    assert forall|q: AskedModel| #[trigger] stack.contains(q) implies stack.push(more).contains(
        q,
    ) by {
        let k = stack.index_of(q);
        assert(stack.push(more)[k] == q);
    }
}

/// Resolve what projects declare, reading the answers at hand and asking the
/// registry for the rest.
pub fn resolve_remembering<R: RegistryClient>(
    registry: &mut R,
    memo: Memo,
    roots: &SortedMap<ImporterPath, SortedMap<String, Declared>>,
    members: &SortedMap<String, ImporterPath>,
) -> (graph: Result<ResolvedGraph, ResolveError>)
    ensures
        exists|book: Book| #[trigger]
            answered(*old(registry), memo.deep_view(), book) && recalls(book, memo.deep_view())
                && resolves_to(
                book,
                roots.deep_view(),
                members.deep_view(),
                result_view(graph),
            ),
        asks_nothing(roots.deep_view(), members.deep_view()) ==> *final(registry) == *old(registry),
        graph is Ok ==> is_resolution((graph->Ok_0).deep_view(), members.deep_view()),
        graph is Ok && are_importers(members.deep_view()) && is_usual((graph->Ok_0).deep_view())
            ==> is_recordable((graph->Ok_0).deep_view()),
{
    let walk = match Walk::seeded(roots, members) {
        Ok(walk) => walk,
        Err(error) => {
            let ghost remembered = memo.deep_view();
            let ghost book: Book = Map::new(
                |r: RequestModel| remembered.contains_key(r),
                |r: RequestModel| Ok(remembered[r]),
            );
            proof {
                memo.is_writable();
            }
            assert(answered(*old(registry), remembered, book));
            return Err(error);
        },
    };
    let ghost seed = walk.deep_view();
    let outcome = walk.run(memo, registry);
    let ghost ended = result_view(outcome);
    let ghost (book, steps) = choose|book: Book, steps: nat| #[trigger]
        walked(book, seed, steps) == Some(ended) && answered(
            *old(registry),
            memo.deep_view(),
            book,
        ) && recalls(book, memo.deep_view());
    assert(walked(book, seed, steps) == Some(ended));
    match outcome {
        Ok(walk) => {
            let graph = walk.into_graph();
            assert(resolves_to(
                book,
                roots.deep_view(),
                members.deep_view(),
                Ok::<GraphModel, ResolveFault>(graph.deep_view()),
            ));
            proof {
                let model = graph.deep_view();
                roots_are_finite(roots);
                graphs_are_finite(&graph);
                what_resolves_is_a_resolution(book, roots.deep_view(), members.deep_view(), model);
                if are_importers(members.deep_view()) && is_usual(model) {
                    resolutions_can_be_recorded(model, members.deep_view());
                }
            }
            Ok(graph)
        },
        Err(error) => {
            assert(resolves_to(
                book,
                roots.deep_view(),
                members.deep_view(),
                Err::<GraphModel, ResolveFault>(error.deep_view()),
            ));
            Err(error)
        },
    }
}

/// Walk the dependency graph from every project's declared ranges.
///
/// One walk covers the whole workspace, so two projects asking for the same
/// range select once. They are not forced into agreement: projects wanting
/// incompatible versions each get their own node. For names and versions of
/// the usual shape, a lockfile holds what this comes to.
pub fn resolve<R: RegistryClient>(
    registry: &mut R,
    roots: &SortedMap<ImporterPath, SortedMap<String, Declared>>,
    members: &SortedMap<String, ImporterPath>,
) -> (graph: Result<ResolvedGraph, ResolveError>)
    ensures
        exists|book: Book| #[trigger]
            answered(*old(registry), Map::empty(), book) && resolves_to(
                book,
                roots.deep_view(),
                members.deep_view(),
                result_view(graph),
            ),
        asks_nothing(roots.deep_view(), members.deep_view()) ==> *final(registry) == *old(registry),
        graph is Ok ==> is_resolution((graph->Ok_0).deep_view(), members.deep_view()),
        graph is Ok && are_importers(members.deep_view()) && is_usual((graph->Ok_0).deep_view())
            ==> is_recordable((graph->Ok_0).deep_view()),
{
    resolve_remembering(registry, Memo::new(), roots, members)
}

/// What projects declare can be written down.
pub proof fn roots_are_finite(roots: &SortedMap<ImporterPath, SortedMap<String, Declared>>)
    ensures
        roots.deep_view().dom().finite(),
        forall|path: Seq<char>| #[trigger]
            roots.deep_view().contains_key(path) ==> roots.deep_view()[path].dom().finite(),
{
    roots.is_finite();
    assert forall|path: Seq<char>| #[trigger] roots.deep_view().contains_key(path) implies
        roots.deep_view()[path].dom().finite() by {
        roots.held_under(path).is_finite();
    }
}

/// Is every answer that was given ahead of time one that a client may give,
/// and is what the resolution read of them what was answered?
pub open spec fn asked_ahead<R: RegistryClient>(registry: R, ahead: Book, book: Book) -> bool {
    forall|request: RequestModel| #[trigger]
        ahead.contains_key(request) ==> {
            &&& registry.may_answer(request, ahead[request])
            &&& ahead[request] is Ok ==> book.contains_key(request) && book[request]
                == ahead[request]
        }
}

/// Did no request in a book fail?
pub open spec fn none_failed(book: Book) -> bool {
    forall|request: RequestModel| #[trigger] book.contains_key(request) ==> book[request] is Ok
}

/// [`resolve`], telling the watcher of each version selected on the way, a
/// whole resolution before the graph is known.
///
/// What is resolved is described exactly as for [`resolve`]: no watcher can
/// make a difference to it. Where no request that was made ahead failed, the
/// watcher was told of every package of the graph.
pub fn resolve_watching<R: RegistryClient, W: Watcher>(
    registry: &mut R,
    roots: &SortedMap<ImporterPath, SortedMap<String, Declared>>,
    members: &SortedMap<String, ImporterPath>,
    watch: &mut W,
) -> (graph: Result<ResolvedGraph, ResolveError>)
    ensures
        exists|book: Book, ahead: Book|
            #![trigger answered(*old(registry), Map::empty(), book), none_failed(ahead)]
            answered(*old(registry), Map::empty(), book) && resolves_to(
                book,
                roots.deep_view(),
                members.deep_view(),
                result_view(graph),
            ) && asked_ahead(*old(registry), ahead, book) && (graph is Ok && none_failed(ahead)
                ==> all_told(
                (graph->Ok_0).deep_view().packages,
                final(watch).heard().skip(old(watch).heard().len() as int),
            )),
        told_truly(*old(registry), old(watch).heard(), final(watch).heard()),
        asks_nothing(roots.deep_view(), members.deep_view()) ==> *final(registry) == *old(registry),
        graph is Ok ==> is_resolution((graph->Ok_0).deep_view(), members.deep_view()),
        graph is Ok && are_importers(members.deep_view()) && is_usual((graph->Ok_0).deep_view())
            ==> is_recordable((graph->Ok_0).deep_view()),
{
    let walk = match Walk::seeded(roots, members) {
        Ok(walk) => walk,
        Err(error) => {
            let ghost none: Book = Map::empty();
            assert(answered(*old(registry), Map::empty(), none));
            assert(asked_ahead(*old(registry), none, none));
            assert(none_failed(none));
            assert(watch.heard().take(watch.heard().len() as int) =~= watch.heard());
            return Err(error);
        },
    };
    let ghost start = *registry;
    let ghost seed = walk.deep_view();
    let memo = walk.prefetch(registry, watch);
    let ghost after = *registry;
    let ghost remembered = memo.deep_view();
    let ghost told = watch.heard().skip(old(watch).heard().len() as int);
    let graph = resolve_remembering(registry, memo, roots, members);
    proof {
        let book = choose|book: Book| #[trigger]
            answered(after, remembered, book) && recalls(book, remembered) && resolves_to(
                book,
                roots.deep_view(),
                members.deep_view(),
                result_view(graph),
            );
        assert(answered(start, Map::empty(), book));
        let read: Book = Map::new(
            |r: RequestModel| remembered.contains_key(r),
            |r: RequestModel| Ok(remembered[r]),
        );
        assert(asked_ahead(start, read, book));
        if exists|scouted: Set<(Seq<char>, Seq<char>)>| #[trigger]
            covers(scouted, remembered, told, seed.work) {
            let scouted = choose|scouted: Set<(Seq<char>, Seq<char>)>| #[trigger]
                covers(scouted, remembered, told, seed.work);
            assert(none_failed(read));
            if graph is Ok {
                let steps = choose|steps: nat|
                    match #[trigger] walked(book, seed, steps) {
                        Some(Ok(walk)) => result_view(graph) == Ok::<GraphModel, ResolveFault>(
                            graph_of(walk),
                        ),
                        Some(Err(fault)) => result_view(graph) == Err::<GraphModel, ResolveFault>(
                            fault,
                        ),
                        None => false,
                    };
                walks_start_empty(roots.deep_view(), members.deep_view());
                walks_stay_told(book, scouted, remembered, told, seed, steps);
            }
        } else {
            let (r, fault) = choose|r: RequestModel, fault: RegistryFault| #[trigger]
                start.may_answer(r, Err(fault)) && !remembered.contains_key(r);
            let ahead = read.insert(r, Err(fault));
            assert(asked_ahead(start, ahead, book));
            assert(ahead.contains_key(r) && !(ahead[r] is Ok));
            assert(!none_failed(ahead));
        }
    }
    graph
}

/// A walk starts with no package.
proof fn walks_start_empty(roots: Roots, members: Map<Seq<char>, Seq<char>>)
    requires
        seeded_walk(roots, members) is Ok,
    ensures
        (seeded_walk(roots, members)->Ok_0).packages == Map::<IdModel, PackageModel>::empty(),
{
    paths_add_no_package(roots, members, in_order::<ImporterPath>(roots.dom()));
}

proof fn paths_add_no_package(
    roots: Roots,
    members: Map<Seq<char>, Seq<char>>,
    paths: Seq<Seq<char>>,
)
    requires
        seeded_by_paths(members, roots, paths, blank_walk(roots)) is Ok,
    ensures
        (seeded_by_paths(members, roots, paths, blank_walk(roots))->Ok_0).packages == Map::<
            IdModel,
            PackageModel,
        >::empty(),
    decreases paths.len(),
{
    if paths.len() > 0 {
        paths_add_no_package(roots, members, paths.drop_last());
        names_add_no_package(
            members,
            paths.last(),
            roots[paths.last()],
            in_order::<String>(roots[paths.last()].dom()),
            seeded_by_paths(members, roots, paths.drop_last(), blank_walk(roots))->Ok_0,
        );
    }
}

proof fn names_add_no_package(
    members: Map<Seq<char>, Seq<char>>,
    path: Seq<char>,
    declared: Map<Seq<char>, DeclaredModel>,
    names: Seq<Seq<char>>,
    walk: WalkModel,
)
    requires
        seeded_by_names(members, path, declared, names, walk) is Ok,
    ensures
        (seeded_by_names(members, path, declared, names, walk)->Ok_0).packages == walk.packages,
    decreases names.len(),
{
    if names.len() > 0 {
        names_add_no_package(members, path, declared, names.drop_last(), walk);
    }
}

/// Projects that declare nothing leave nothing to ask about.
pub proof fn empty_projects_ask_nothing(roots: Roots, members: Map<Seq<char>, Seq<char>>)
    requires
        roots.dom().finite(),
        forall|path: Seq<char>| #[trigger]
            roots.contains_key(path) ==> roots[path] == Map::<Seq<char>, DeclaredModel>::empty(),
    ensures
        asks_nothing(roots, members),
{
    let paths = in_order::<ImporterPath>(roots.dom());
    in_order_lists::<ImporterPath>(roots.dom());
    assert forall|i: int| 0 <= i < paths.len() implies roots.contains_key(#[trigger] paths[i]) by {
        assert(paths.to_set().contains(paths[i]));
    }
    empty_paths_add_nothing(roots, members, paths);
}

proof fn empty_paths_add_nothing(
    roots: Roots,
    members: Map<Seq<char>, Seq<char>>,
    paths: Seq<Seq<char>>,
)
    requires
        forall|path: Seq<char>| #[trigger]
            roots.contains_key(path) ==> roots[path] == Map::<Seq<char>, DeclaredModel>::empty(),
        forall|i: int| 0 <= i < paths.len() ==> roots.contains_key(#[trigger] paths[i]),
    ensures
        seeded_by_paths(members, roots, paths, blank_walk(roots)) == Ok::<WalkModel, ResolveFault>(
            blank_walk(roots),
        ),
    decreases paths.len(),
{
    if paths.len() > 0 {
        let rest = paths.drop_last();
        assert forall|i: int| 0 <= i < rest.len() implies roots.contains_key(#[trigger] rest[i]) by {
            assert(rest[i] == paths[i]);
        }
        empty_paths_add_nothing(roots, members, rest);
        assert(roots.contains_key(paths[paths.len() - 1]));
        let none = Map::<Seq<char>, DeclaredModel>::empty();
        assert(none.dom() =~= Set::<Seq<char>>::empty());
        in_order_lists::<String>(none.dom());
        assert(in_order::<String>(none.dom()).len() == 0);
    }
}

} // verus!
