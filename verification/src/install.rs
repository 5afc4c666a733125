//! What it takes for a workspace to match what its manifests declare: which
//! projects the lockfile still answers for, and what is refused before
//! anything is touched.

use vstd::prelude::*;
use vstd::string::*;
use crate::archive::{ArchiveError, ArchiveFault};
use crate::cli::{VersionAsked, VersionSpec};
use crate::graph::{
    as_declared, Declared, DeclaredModel, DependencyModel, GraphModel, Importer, ImporterModel,
    Kind, Resolution, ResolutionModel, ResolvedGraph,
};
use crate::importer::ImporterPath;
use crate::integrity::{IntegrityError, IntegrityFault};
use crate::linker::LinkError;
use crate::lockfile::{LockfileError, LockfileFault};
use crate::manifest::{section_for, section_name, ManifestError, ManifestFault};
use crate::order::Duplicate;
use crate::range::{range_admits, range_parses, version_parses, Range, Version};
use crate::registry::{RegistryError, RegistryFault};
use crate::sorted::{
    first_of, first_stays, in_order, in_order_lists, nothing_found, take_one_more, SortedMap,
};
use crate::specifier::{ResolveError, ResolveFault};
use crate::store::StoreError;
use crate::text::same;
use crate::walk::Roots;

verus! {

/// Why an install stopped.
#[derive(Debug)]
#[allow(inconsistent_fields)]
pub enum InstallError {
    Manifest(ManifestError),
    Registry(RegistryError),
    Resolve(ResolveError),
    /// What is wrong with the lockfile at a path.
    Lockfile { path: String, source: LockfileError },
    /// A tarball is not what it was said to be.
    Integrity { name: String, version: String, source: IntegrityError },
    Store(StoreError),
    Link(LinkError),
    Archive(ArchiveError),
    /// The registry reports another hash than the lockfile records.
    LockedIntegrityMismatch { name: String, version: String, locked: String, reported: String },
    /// The request rules nothing out.
    UnconstrainedRange { name: String, requested: String },
    /// The request is for a project that the workspace does not have.
    UnknownImporter { importer: String, members: Vec<String> },
    /// There is no lockfile to install from.
    ProductionLockfileMissing { path: String },
    /// The lockfile and a manifest disagree on a dependency.
    ProductionLockfileStale { importer: String, name: String, declared: String, locked: String },
    /// The lockfile records a project that the workspace does not have.
    ProductionLockfileImporterGone { importer: String },
}

/// What an [`InstallError`] says, as far as it is decided without touching a
/// disk.
#[allow(inconsistent_fields)]
pub enum InstallFault {
    Manifest(ManifestFault),
    Registry(RegistryFault),
    Resolve(ResolveFault),
    Lockfile { path: Seq<char>, source: LockfileFault },
    Integrity { name: Seq<char>, version: Seq<char>, source: IntegrityFault },
    Store(StoreError),
    Link(LinkError),
    Archive(ArchiveFault),
    LockedIntegrityMismatch {
        name: Seq<char>,
        version: Seq<char>,
        locked: Seq<char>,
        reported: Seq<char>,
    },
    UnconstrainedRange { name: Seq<char>, requested: Seq<char> },
    UnknownImporter { importer: Seq<char>, members: Seq<Seq<char>> },
    ProductionLockfileMissing { path: Seq<char> },
    ProductionLockfileStale {
        importer: Seq<char>,
        name: Seq<char>,
        declared: Seq<char>,
        locked: Seq<char>,
    },
    ProductionLockfileImporterGone { importer: Seq<char> },
}

impl DeepView for InstallError {
    type V = InstallFault;

    open spec fn deep_view(&self) -> InstallFault {
        match self {
            InstallError::Manifest(error) => InstallFault::Manifest(error.deep_view()),
            InstallError::Registry(error) => InstallFault::Registry(error.deep_view()),
            InstallError::Resolve(error) => InstallFault::Resolve(error.deep_view()),
            InstallError::Lockfile { path, source } => InstallFault::Lockfile {
                path: path@,
                source: source.deep_view(),
            },
            InstallError::Integrity { name, version, source } => InstallFault::Integrity {
                name: name@,
                version: version@,
                source: source.deep_view(),
            },
            InstallError::Store(error) => InstallFault::Store(*error),
            InstallError::Link(error) => InstallFault::Link(*error),
            InstallError::Archive(error) => InstallFault::Archive(error.deep_view()),
            InstallError::LockedIntegrityMismatch { name, version, locked, reported } => {
                InstallFault::LockedIntegrityMismatch {
                    name: name@,
                    version: version@,
                    locked: locked@,
                    reported: reported@,
                }
            },
            InstallError::UnconstrainedRange { name, requested } => {
                InstallFault::UnconstrainedRange { name: name@, requested: requested@ }
            },
            InstallError::UnknownImporter { importer, members } => InstallFault::UnknownImporter {
                importer: importer@,
                members: members.deep_view(),
            },
            InstallError::ProductionLockfileMissing { path } => {
                InstallFault::ProductionLockfileMissing { path: path@ }
            },
            InstallError::ProductionLockfileStale { importer, name, declared, locked } => {
                InstallFault::ProductionLockfileStale {
                    importer: importer@,
                    name: name@,
                    declared: declared@,
                    locked: locked@,
                }
            },
            InstallError::ProductionLockfileImporterGone { importer } => {
                InstallFault::ProductionLockfileImporterGone { importer: importer@ }
            },
        }
    }
}

/// What a sync is for.
#[derive(Debug, Clone, Copy, PartialEq, Eq, Structural)]
pub enum Mode {
    /// Every kind of dependency, of every project. What is stale is resolved,
    /// and the lockfile is written.
    Develop,
    /// Production dependencies only, from a lockfile that already matches
    /// every manifest. Never writes one.
    Production,
}

impl Default for Mode {
    fn default() -> (mode: Self)
        ensures
            mode == Mode::Develop,
    {
        Mode::Develop
    }
}

/// A package that is linked.
#[derive(Debug)]
pub struct Installed {
    pub name: String,
    pub version: String,
}

/// What an [`Installed`] means.
pub struct InstalledModel {
    pub name: Seq<char>,
    pub version: Seq<char>,
}

impl DeepView for Installed {
    type V = InstalledModel;

    open spec fn deep_view(&self) -> InstalledModel {
        InstalledModel { name: self.name@, version: self.version@ }
    }
}

/// A package that this machine did not take.
#[derive(Debug)]
pub struct Skipped {
    pub name: String,
    pub version: String,
}

impl DeepView for Skipped {
    type V = InstalledModel;

    open spec fn deep_view(&self) -> InstalledModel {
        InstalledModel { name: self.name@, version: self.version@ }
    }
}

/// One dependency to add to what the manifests declare.
#[derive(Debug)]
pub struct Request {
    pub importer: ImporterPath,
    pub name: String,
    /// Kept as it was asked, and not as the text that is sent: a bare request
    /// always asks the registry, even where a manifest declares the tag that
    /// it stands for.
    pub seed: VersionSpec,
    /// The section to record it under, if one was named.
    pub kind: Option<Kind>,
}

/// What a [`Request`] means.
pub struct AskedFor {
    pub importer: Seq<char>,
    pub name: Seq<char>,
    pub seed: VersionAsked,
    pub kind: Option<Kind>,
}

impl DeepView for Request {
    type V = AskedFor;

    open spec fn deep_view(&self) -> AskedFor {
        AskedFor {
            importer: self.importer.deep_view(),
            name: self.name@,
            seed: self.seed.deep_view(),
            kind: self.kind,
        }
    }
}

/// What an optional request means.
pub open spec fn request_view(request: Option<&Request>) -> Option<AskedFor> {
    match request {
        Some(request) => Some(request.deep_view()),
        None => None,
    }
}

/// What a manifest should record for a request.
#[derive(Debug)]
pub struct Recorded {
    pub name: String,
    /// What to write: the range that was asked for, or a pin.
    pub specifier: String,
    /// The version that it resolved to.
    pub version: String,
    /// The section to write it to.
    pub kind: Kind,
}

/// What a [`Recorded`] means.
pub struct RecordedModel {
    pub name: Seq<char>,
    pub specifier: Seq<char>,
    pub version: Seq<char>,
    pub kind: Kind,
}

impl DeepView for Recorded {
    type V = RecordedModel;

    open spec fn deep_view(&self) -> RecordedModel {
        RecordedModel {
            name: self.name@,
            specifier: self.specifier@,
            version: self.version@,
            kind: self.kind,
        }
    }
}

/// Is a request a range that rules nothing out?
pub open spec fn is_unconstrained(seed: Seq<char>) -> bool {
    &&& range_parses(seed)
    &&& range_admits(seed, "0.0.0"@)
    &&& range_admits(seed, "9007199254740991.9007199254740991.9007199254740991"@)
}

/// The request, when it is a range that rules nothing out.
pub fn unconstrained_range<'a>(seed: &'a str) -> (unconstrained: Option<&'a str>)
    ensures
        match unconstrained {
            Some(text) => is_unconstrained(seed@) && text@ == seed@,
            None => !is_unconstrained(seed@),
        },
{
    match Range::parse(seed) {
        Ok(range) => if range.admits_everything() {
            Some(seed)
        } else {
            None
        },
        Err(_) => None,
    }
}

/// Is a request a range, and not just one version?
pub open spec fn is_declared_range(seed: Seq<char>) -> bool {
    range_parses(seed) && !version_parses(seed)
}

/// The range that was asked for, when what was asked for was a range. A bare
/// version is excluded, though it is a range too: recorded as one, every pin
/// would look like a constraint. A tag is excluded because it does not parse.
pub fn declared_range<'a>(seed: &'a str) -> (range: Option<&'a str>)
    ensures
        match range {
            Some(text) => is_declared_range(seed@) && text@ == seed@,
            None => !is_declared_range(seed@),
        },
{
    let is_range = match Range::parse(seed) {
        Ok(_) => true,
        Err(_) => false,
    };
    let is_version = match Version::parse(seed) {
        Ok(_) => true,
        Err(_) => false,
    };
    if is_range && !is_version {
        Some(seed)
    } else {
        None
    }
}

/// Does what was recorded answer a request, in the version and in the section
/// that it asks for?
pub open spec fn satisfies_request(recorded: ImporterModel, request: AskedFor) -> bool {
    &&& recorded.contains_key(request.name)
    &&& request.kind is None || request.kind == Some(recorded[request.name].kind)
    &&& match request.seed {
        VersionAsked::Latest => false,
        VersionAsked::Exact(requested) => {
            ||| recorded[request.name].specifier == requested
            ||| match recorded[request.name].resolution {
                ResolutionModel::Registry(id) => id.version == requested,
                ResolutionModel::Local(_) => false,
            }
        },
    }
}

/// Is a request already answered by what was recorded? What a tag means only
/// the registry can say.
pub fn already_satisfies(recorded: &Importer, request: &Request) -> (yes: bool)
    ensures
        yes == satisfies_request(recorded.deep_view(), request.deep_view()),
{
    let dependency = match recorded.dependencies.get(&request.name) {
        Some(dependency) => dependency,
        None => {
            return false;
        },
    };
    if let Some(kind) = request.kind {
        if kind != dependency.kind {
            return false;
        }
    }
    match &request.seed {
        VersionSpec::Latest => false,
        VersionSpec::Exact(requested) => {
            same(dependency.specifier.as_str(), requested.as_str()) || match &dependency.resolution {
                Resolution::Registry(id) => same(id.version.as_str(), requested.as_str()),
                Resolution::Local(_) => false,
            }
        },
    }
}

/// A specifier and the section it is in. A dependency moved between sections
/// at an unchanged specifier is an edit, and has to read as one.
pub open spec fn described(specifier: Seq<char>, kind: Kind) -> Seq<char> {
    "`"@ + specifier + "` in "@ + section_name(kind)
}

/// A specifier and the section it is in.
pub fn describe_declared(specifier: &str, kind: Kind) -> (text: String)
    ensures
        text@ == described(specifier@, kind),
{
    let mut text = "`".to_owned();
    text.append(specifier);
    text.append("` in ");
    text.append(section_for(kind));
    text
}

/// How what is declared under a name disagrees with what is recorded.
pub open spec fn mismatch_at(
    path: Seq<char>,
    recorded: ImporterModel,
    declares: Map<Seq<char>, DeclaredModel>,
) -> spec_fn(Seq<char>) -> Option<InstallFault> {
    |name: Seq<char>|
        {
            let declared = declares[name];
            if recorded.contains_key(name) && recorded[name].specifier == declared.specifier
                && recorded[name].kind == declared.kind {
                None
            } else {
                Some(
                    InstallFault::ProductionLockfileStale {
                        importer: path,
                        name,
                        declared: described(declared.specifier, declared.kind),
                        locked: if recorded.contains_key(name) {
                            described(recorded[name].specifier, recorded[name].kind)
                        } else {
                            "nothing"@
                        },
                    },
                )
            }
        }
}

/// How what is recorded under a name is not declared.
pub open spec fn leftover_at(
    path: Seq<char>,
    recorded: ImporterModel,
    declares: Map<Seq<char>, DeclaredModel>,
) -> spec_fn(Seq<char>) -> Option<InstallFault> {
    |name: Seq<char>|
        {
            if declares.contains_key(name) {
                None
            } else {
                Some(
                    InstallFault::ProductionLockfileStale {
                        importer: path,
                        name,
                        declared: "nothing"@,
                        locked: described(recorded[name].specifier, recorded[name].kind),
                    },
                )
            }
        }
}

/// What a lockfile records of a project, which is nothing if it is not in it.
pub open spec fn recorded_in(locked: GraphModel, path: Seq<char>) -> ImporterModel {
    if locked.importers.contains_key(path) {
        locked.importers[path]
    } else {
        Map::empty()
    }
}

/// How a lockfile disagrees with what one project declares: first over what is
/// declared, then over what is recorded.
pub open spec fn importer_disagreement(
    locked: GraphModel,
    declared: Roots,
) -> spec_fn(Seq<char>) -> Option<InstallFault> {
    |path: Seq<char>|
        {
            let recorded = recorded_in(locked, path);
            let declares = declared[path];
            match first_of(
                in_order::<String>(declares.dom()),
                mismatch_at(path, recorded, declares),
            ) {
                Some(fault) => Some(fault),
                None => first_of(
                    in_order::<String>(recorded.dom()),
                    leftover_at(path, recorded, declares),
                ),
            }
        }
}

/// How a project that a lockfile records is gone.
pub open spec fn importer_gone(declared: Roots) -> spec_fn(Seq<char>) -> Option<InstallFault> {
    |path: Seq<char>|
        {
            if declared.contains_key(path) {
                None
            } else {
                Some(InstallFault::ProductionLockfileImporterGone { importer: path })
            }
        }
}

/// The first place where a lockfile and the manifests disagree.
pub open spec fn disagreement(locked: GraphModel, declared: Roots) -> Option<InstallFault> {
    match first_of(
        in_order::<ImporterPath>(declared.dom()),
        importer_disagreement(locked, declared),
    ) {
        Some(fault) => Some(fault),
        None => first_of(
            in_order::<ImporterPath>(locked.importers.dom()),
            importer_gone(declared),
        ),
    }
}

/// Does a lockfile record exactly what each project declares?
pub open spec fn agrees(locked: GraphModel, declared: Roots) -> bool {
    forall|path: Seq<char>| #[trigger]
        declared.contains_key(path) ==> as_declared(recorded_in(locked, path)) == declared[path]
}

/// What nothing mismatches and nothing is left over of is recorded exactly.
pub proof fn no_fault_is_agreement(
    path: Seq<char>,
    recorded: ImporterModel,
    declares: Map<Seq<char>, DeclaredModel>,
)
    requires
        declares.dom().finite(),
        recorded.dom().finite(),
        first_of(in_order::<String>(declares.dom()), mismatch_at(path, recorded, declares)) is None,
        first_of(in_order::<String>(recorded.dom()), leftover_at(path, recorded, declares)) is None,
    ensures
        as_declared(recorded) == declares,
{
    let names = in_order::<String>(declares.dom());
    let others = in_order::<String>(recorded.dom());
    in_order_lists::<String>(declares.dom());
    in_order_lists::<String>(recorded.dom());
    assert forall|name: Seq<char>| declares.contains_key(name) implies recorded.contains_key(name)
        && recorded[name].specifier == declares[name].specifier && recorded[name].kind
        == declares[name].kind by {
        assert(names.to_set().contains(name));
        let k = names.index_of(name);
        nothing_found(names, mismatch_at(path, recorded, declares), k);
    }
    assert forall|name: Seq<char>| recorded.contains_key(name) implies declares.contains_key(
        name,
    ) by {
        assert(others.to_set().contains(name));
        let k = others.index_of(name);
        nothing_found(others, leftover_at(path, recorded, declares), k);
    }
    assert(as_declared(recorded) =~= declares);
}

fn disagrees_on(
    path: &ImporterPath,
    recorded: &Importer,
    declares: &SortedMap<String, Declared>,
) -> (error: Option<InstallError>)
    ensures
        ({
            let fault = match first_of(
                in_order::<String>(declares.deep_view().dom()),
                mismatch_at(path.deep_view(), recorded.deep_view(), declares.deep_view()),
            ) {
                Some(fault) => Some(fault),
                None => first_of(
                    in_order::<String>(recorded.deep_view().dom()),
                    leftover_at(path.deep_view(), recorded.deep_view(), declares.deep_view()),
                ),
            };
            match error {
                Some(error) => fault == Some(error.deep_view()),
                None => fault is None,
            }
        }),
        error is None ==> as_declared(recorded.deep_view()) == declares.deep_view(),
{
    let ghost has_recorded = recorded.deep_view();
    let ghost does_declare = declares.deep_view();
    let ghost mismatch = mismatch_at(path.deep_view(), has_recorded, does_declare);
    let ghost leftover = leftover_at(path.deep_view(), has_recorded, does_declare);
    let n: usize = declares.len();
    let ghost names = declares.keys();
    let mut i: usize = 0;
    while i < n
        invariant
            i <= n == names.len(),
            names == declares.keys(),
            names == in_order::<String>(does_declare.dom()),
            has_recorded == recorded.deep_view(),
            does_declare == declares.deep_view(),
            mismatch == mismatch_at(path.deep_view(), has_recorded, does_declare),
            first_of(names.take(i as int), mismatch) is None,
        decreases n - i,
    {
        let name = declares.key_at(i);
        let declared = declares.value_at(i);
        assert(names.take(i + 1).drop_last() =~= names.take(i as int));
        assert(names.take(i + 1).last() == name@);
        let locked = match recorded.dependencies.get(name) {
            Some(dependency) => {
                if same(dependency.specifier.as_str(), declared.specifier.as_str())
                    && dependency.kind == declared.kind {
                    None
                } else {
                    Some(describe_declared(dependency.specifier.as_str(), dependency.kind))
                }
            },
            None => Some("nothing".to_owned()),
        };
        if let Some(locked) = locked {
            proof {
                first_stays(names, mismatch, i + 1);
            }
            return Some(
                InstallError::ProductionLockfileStale {
                    importer: path.as_str().to_owned(),
                    name: name.clone(),
                    declared: describe_declared(declared.specifier.as_str(), declared.kind),
                    locked,
                },
            );
        }
        i = i + 1;
    }
    assert(names.take(n as int) =~= names);
    let m: usize = recorded.dependencies.len();
    let ghost others = recorded.dependencies.keys();
    let mut j: usize = 0;
    while j < m
        invariant
            j <= m == others.len(),
            others == recorded.dependencies.keys(),
            others == in_order::<String>(has_recorded.dom()),
            has_recorded == recorded.deep_view(),
            does_declare == declares.deep_view(),
            first_of(in_order::<String>(does_declare.dom()), mismatch) is None,
            mismatch == mismatch_at(path.deep_view(), has_recorded, does_declare),
            leftover == leftover_at(path.deep_view(), has_recorded, does_declare),
            first_of(others.take(j as int), leftover) is None,
        decreases m - j,
    {
        let name = recorded.dependencies.key_at(j);
        let dependency = recorded.dependencies.value_at(j);
        assert(others.take(j + 1).drop_last() =~= others.take(j as int));
        assert(others.take(j + 1).last() == name@);
        if !declares.contains(name) {
            proof {
                first_stays(others, leftover, j + 1);
            }
            return Some(
                InstallError::ProductionLockfileStale {
                    importer: path.as_str().to_owned(),
                    name: name.clone(),
                    declared: "nothing".to_owned(),
                    locked: describe_declared(dependency.specifier.as_str(), dependency.kind),
                },
            );
        }
        j = j + 1;
    }
    assert(others.take(m as int) =~= others);
    proof {
        no_fault_is_agreement(path.deep_view(), has_recorded, does_declare);
    }
    None
}

/// The first place where a lockfile and the manifests disagree, as the error
/// to stop with. It names one dependency, with both values, so that there is
/// something to act on.
pub fn first_disagreement(
    locked: &ResolvedGraph,
    declared: &SortedMap<ImporterPath, SortedMap<String, Declared>>,
) -> (error: Option<InstallError>)
    ensures
        match error {
            Some(error) => disagreement(locked.deep_view(), declared.deep_view()) == Some(
                error.deep_view(),
            ),
            None => disagreement(locked.deep_view(), declared.deep_view()) is None && agrees(
                locked.deep_view(),
                declared.deep_view(),
            ),
        },
{
    let ghost model = locked.deep_view();
    let ghost roots = declared.deep_view();
    let ghost test = importer_disagreement(model, roots);
    let empty = Importer::empty();
    let n: usize = declared.len();
    let ghost paths = declared.keys();
    let mut i: usize = 0;
    while i < n
        invariant
            i <= n == paths.len(),
            paths == declared.keys(),
            paths == in_order::<ImporterPath>(roots.dom()),
            model == locked.deep_view(),
            roots == declared.deep_view(),
            test == importer_disagreement(model, roots),
            empty.deep_view() == Map::<Seq<char>, DependencyModel>::empty(),
            first_of(paths.take(i as int), test) is None,
            forall|k: int|
                0 <= k < i ==> as_declared(recorded_in(model, #[trigger] paths[k]))
                    == roots[paths[k]],
        decreases n - i,
    {
        let path = declared.key_at(i);
        let declares = declared.value_at(i);
        assert(paths.take(i + 1).drop_last() =~= paths.take(i as int));
        assert(paths.take(i + 1).last() == path.deep_view());
        let recorded = match locked.importers.get(path) {
            Some(recorded) => recorded,
            None => &empty,
        };
        assert(recorded.deep_view() == recorded_in(model, path.deep_view()));
        if let Some(error) = disagrees_on(path, recorded, declares) {
            proof {
                first_stays(paths, test, i + 1);
            }
            return Some(error);
        }
        i = i + 1;
    }
    assert(paths.take(n as int) =~= paths);
    assert(agrees(model, roots)) by {
        assert forall|path: Seq<char>| #[trigger] roots.contains_key(path) implies as_declared(
            recorded_in(model, path),
        ) == roots[path] by {
            assert(paths.to_set().contains(path));
            let k = paths.index_of(path);
            assert(as_declared(recorded_in(model, paths[k])) == roots[paths[k]]);
        }
    }
    let ghost gone = importer_gone(roots);
    let m: usize = locked.importers.len();
    let ghost others = locked.importers.keys();
    let mut j: usize = 0;
    while j < m
        invariant
            j <= m == others.len(),
            others == locked.importers.keys(),
            others == in_order::<ImporterPath>(model.importers.dom()),
            model == locked.deep_view(),
            roots == declared.deep_view(),
            gone == importer_gone(roots),
            agrees(model, roots),
            first_of(
                in_order::<ImporterPath>(roots.dom()),
                importer_disagreement(model, roots),
            ) is None,
            first_of(others.take(j as int), gone) is None,
        decreases m - j,
    {
        let path = locked.importers.key_at(j);
        assert(others.take(j + 1).drop_last() =~= others.take(j as int));
        assert(others.take(j + 1).last() == path.deep_view());
        if !declared.contains(path) {
            proof {
                first_stays(others, gone, j + 1);
            }
            return Some(
                InstallError::ProductionLockfileImporterGone {
                    importer: path.as_str().to_owned(),
                },
            );
        }
        j = j + 1;
    }
    assert(others.take(m as int) =~= others);
    None
}

/// Does a lockfile still answer for a project: does it record exactly what the
/// manifest declares, and does it answer the request, if that is for it?
pub open spec fn is_reusable(
    locked: GraphModel,
    declared: Roots,
    request: Option<AskedFor>,
    path: Seq<char>,
) -> bool {
    &&& declared.contains_key(path)
    &&& locked.importers.contains_key(path)
    &&& as_declared(locked.importers[path]) == declared[path]
    &&& match request {
        Some(request) => request.importer == path ==> satisfies_request(
            locked.importers[path],
            request,
        ),
        None => true,
    }
}

/// The projects that a lockfile still answers for.
pub open spec fn reused_from(
    locked: Option<GraphModel>,
    declared: Roots,
    request: Option<AskedFor>,
) -> Map<Seq<char>, ImporterModel> {
    match locked {
        None => Map::empty(),
        Some(locked) => locked.importers.restrict(
            Set::new(|path: Seq<char>| is_reusable(locked, declared, request, path)),
        ),
    }
}

/// What an optional graph means.
pub open spec fn locked_view(locked: Option<&ResolvedGraph>) -> Option<GraphModel> {
    match locked {
        Some(locked) => Some(locked.deep_view()),
        None => None,
    }
}

/// The projects whose recorded specifiers still match their manifests. One
/// that matches is taken from the lockfile as it is.
pub fn reusable_importers(
    locked: Option<&ResolvedGraph>,
    declared: &SortedMap<ImporterPath, SortedMap<String, Declared>>,
    request: Option<&Request>,
) -> (reused: SortedMap<ImporterPath, Importer>)
    ensures
        reused.deep_view() == reused_from(
            locked_view(locked),
            declared.deep_view(),
            request_view(request),
        ),
{
    let mut reused: SortedMap<ImporterPath, Importer> = SortedMap::new();
    let locked = match locked {
        Some(locked) => locked,
        None => {
            return reused;
        },
    };
    let ghost model = locked.deep_view();
    let ghost roots = declared.deep_view();
    let ghost asked = request_view(request);
    let ghost goal = reused_from(Some(model), roots, asked);
    let n: usize = locked.importers.len();
    let ghost paths = locked.importers.keys();
    assert(goal.restrict(paths.take(0).to_set()) =~= Map::<Seq<char>, ImporterModel>::empty());
    let mut i: usize = 0;
    while i < n
        invariant
            i <= n == paths.len(),
            paths == locked.importers.keys(),
            model == locked.deep_view(),
            roots == declared.deep_view(),
            asked == request_view(request),
            goal == reused_from(Some(model), roots, asked),
            reused.deep_view() == goal.restrict(paths.take(i as int).to_set()),
        decreases n - i,
    {
        let path = locked.importers.key_at(i);
        let recorded = locked.importers.value_at(i);
        let matching = match declared.get(path) {
            Some(declares) => recorded.matches(declares),
            None => false,
        };
        let answered = match request {
            Some(request) => !same(request.importer.as_str(), path.as_str()) || already_satisfies(
                recorded,
                request,
            ),
            None => true,
        };
        assert((matching && answered) == is_reusable(model, roots, asked, path.deep_view()));
        if matching && answered {
            reused.insert(path.duplicate(), recorded.duplicate());
        }
        proof {
            take_one_more(paths, i as int);
            assert(reused.deep_view() =~= goal.restrict(paths.take(i + 1).to_set()));
        }
        i = i + 1;
    }
    assert(paths.take(n as int) =~= paths);
    assert(goal.restrict(paths.to_set()) =~= goal);
    reused
}

} // verus!
