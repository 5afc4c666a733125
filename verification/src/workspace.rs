//! Who the members of a workspace are, and which of them a directory belongs
//! to.

use vstd::prelude::*;
use vstd::string::*;
use crate::error::JerkyError;
use crate::globs::{glob_admits, is_hit, patterns_fault, MemberGlobs};
use crate::importer::{root_path, ImporterFault, ImporterPath, ImporterPathError};
use crate::linker::{begins, starts_with};
use crate::manifest::{patterns_in, text_under, Manifest, ManifestError, ManifestFault, ManifestModel};
use crate::order::Duplicate;
use crate::path::{components, join, put_after, steps};
use crate::sorted::{in_order, SortedMap};
use crate::text::same;

verus! {

/// Why there is no workspace to work with.
#[derive(Debug)]
#[allow(inconsistent_fields)]
pub enum WorkspaceError {
    Manifest(ManifestError),
    /// A pattern names a directory outside the workspace.
    EscapesRoot { pattern: String, source: ImporterPathError },
    /// A pattern is no glob.
    BadPattern { pattern: String },
    /// The patterns cannot be matched together.
    TooManyPatterns,
    /// Two members have one name.
    DuplicateName { name: String, first: String, second: String },
    Io { path: String, source: String },
}

/// What a [`WorkspaceError`] says.
#[allow(inconsistent_fields)]
pub enum WorkspaceFault {
    Manifest(ManifestFault),
    EscapesRoot { pattern: Seq<char>, source: ImporterFault },
    BadPattern { pattern: Seq<char> },
    TooManyPatterns,
    DuplicateName { name: Seq<char>, first: Seq<char>, second: Seq<char> },
    Io { path: Seq<char>, source: Seq<char> },
}

impl DeepView for WorkspaceError {
    type V = WorkspaceFault;

    open spec fn deep_view(&self) -> WorkspaceFault {
        match self {
            WorkspaceError::Manifest(error) => WorkspaceFault::Manifest(error.deep_view()),
            WorkspaceError::EscapesRoot { pattern, source } => WorkspaceFault::EscapesRoot {
                pattern: pattern@,
                source: source.deep_view(),
            },
            WorkspaceError::BadPattern { pattern } => WorkspaceFault::BadPattern {
                pattern: pattern@,
            },
            WorkspaceError::TooManyPatterns => WorkspaceFault::TooManyPatterns,
            WorkspaceError::DuplicateName { name, first, second } => WorkspaceFault::DuplicateName {
                name: name@,
                first: first@,
                second: second@,
            },
            WorkspaceError::Io { path, source } => WorkspaceFault::Io {
                path: path@,
                source: source@,
            },
        }
    }
}

/// Something worth saying that is not worth failing over.
#[derive(Debug)]
pub enum Warning {
    /// Almost always a typo, but a pattern may be for what is not there yet.
    PatternMatchedNothing(String),
}

/// What a [`Warning`] says.
pub enum WarningModel {
    PatternMatchedNothing(Seq<char>),
}

impl DeepView for Warning {
    type V = WarningModel;

    open spec fn deep_view(&self) -> WarningModel {
        match self {
            Warning::PatternMatchedNothing(pattern) => WarningModel::PatternMatchedNothing(
                pattern@,
            ),
        }
    }
}

/// One project in the workspace.
#[derive(Debug)]
pub struct Member {
    /// Where it is in the workspace.
    pub importer: ImporterPath,
    /// Its own directory.
    pub path: String,
    pub manifest: Manifest,
}

/// What a [`Member`] means.
pub struct MemberModel {
    pub importer: Seq<char>,
    pub path: Seq<char>,
    pub manifest: ManifestModel,
}

impl DeepView for Member {
    type V = MemberModel;

    open spec fn deep_view(&self) -> MemberModel {
        MemberModel {
            importer: self.importer.deep_view(),
            path: self.path@,
            manifest: self.manifest.deep_view(),
        }
    }
}

/// The name that a member's manifest gives it, if it gives one.
pub open spec fn name_of(member: MemberModel) -> Option<Seq<char>> {
    text_under(member.manifest.members, "name"@)
}

/// A directory that a pattern may match, and what reading its manifest came
/// to.
#[derive(Debug)]
pub struct Candidate {
    pub importer: ImporterPath,
    pub manifest: Result<Manifest, ManifestError>,
}

/// What a [`Candidate`] means.
pub struct CandidateModel {
    pub importer: Seq<char>,
    pub manifest: Result<ManifestModel, ManifestFault>,
}

impl DeepView for Candidate {
    type V = CandidateModel;

    open spec fn deep_view(&self) -> CandidateModel {
        CandidateModel {
            importer: self.importer.deep_view(),
            manifest: match self.manifest {
                Ok(manifest) => Ok(manifest.deep_view()),
                Err(error) => Err(error.deep_view()),
            },
        }
    }
}

/// Every project of a workspace.
#[derive(Debug)]
pub struct Workspace {
    root: String,
    members: SortedMap<ImporterPath, Member>,
    warnings: Vec<Warning>,
}

/// Members by where they are.
pub type MembersModel = Map<Seq<char>, MemberModel>;

/// What a [`Workspace`] means.
pub struct WorkspaceModel {
    pub root: Seq<char>,
    pub members: MembersModel,
    pub warnings: Seq<WarningModel>,
}

impl DeepView for Workspace {
    type V = WorkspaceModel;

    closed spec fn deep_view(&self) -> WorkspaceModel {
        WorkspaceModel {
            root: self.root@,
            members: self.members.deep_view(),
            warnings: self.warnings.deep_view(),
        }
    }
}

/// The root as a member. It is one whether or not it declares anything.
pub open spec fn root_member(root: Seq<char>, manifest: ManifestModel) -> MembersModel {
    Map::empty().insert(
        root_path(),
        MemberModel { importer: root_path(), path: root, manifest },
    )
}

/// The members among some directories, in order. A directory that a pattern
/// matches is a member if it has a manifest. One without a manifest is a
/// stray, and one whose manifest cannot be read is a failure.
pub open spec fn members_among(
    root: Seq<char>,
    manifest: ManifestModel,
    candidates: Seq<CandidateModel>,
) -> Result<MembersModel, ManifestFault>
    decreases candidates.len(),
{
    if candidates.len() == 0 {
        Ok(root_member(root, manifest))
    } else {
        let candidate = candidates.last();
        match members_among(root, manifest, candidates.drop_last()) {
            Err(fault) => Err(fault),
            Ok(before) => if is_hit(patterns_in(manifest.members), candidate.importer) {
                match candidate.manifest {
                    Ok(found) => Ok(
                        before.insert(
                            candidate.importer,
                            MemberModel {
                                importer: candidate.importer,
                                path: put_after(root, candidate.importer),
                                manifest: found,
                            },
                        ),
                    ),
                    Err(ManifestFault::NotFound(_)) => Ok(before),
                    Err(fault) => Err(fault),
                }
            } else {
                Ok(before)
            },
        }
    }
}

/// Does a pattern match a directory that has a manifest?
pub open spec fn finds_member(pattern: Seq<char>, candidates: Seq<CandidateModel>) -> bool {
    exists|i: int|
        0 <= i < candidates.len() && (#[trigger] candidates[i]).manifest is Ok && glob_admits(
            pattern,
            candidates[i].importer,
        )
}

/// A warning for each of some patterns that found no member.
pub open spec fn warnings_for(
    patterns: Seq<Seq<char>>,
    candidates: Seq<CandidateModel>,
) -> Seq<WarningModel>
    decreases patterns.len(),
{
    if patterns.len() == 0 {
        seq![]
    } else {
        let before = warnings_for(patterns.drop_last(), candidates);
        if finds_member(patterns.last(), candidates) {
            before
        } else {
            before.push(WarningModel::PatternMatchedNothing(patterns.last()))
        }
    }
}

/// Which of some members has a name, if one has.
pub open spec fn named_among(
    members: MembersModel,
    paths: Seq<Seq<char>>,
    name: Seq<char>,
) -> Option<Seq<char>>
    decreases paths.len(),
{
    if paths.len() == 0 {
        None
    } else {
        match named_among(members, paths.drop_last(), name) {
            Some(path) => Some(path),
            None => if name_of(members[paths.last()]) == Some(name) {
                Some(paths.last())
            } else {
                None
            },
        }
    }
}

/// The first of some members whose name another one before it has.
pub open spec fn duplicate_among(members: MembersModel, paths: Seq<Seq<char>>) -> Option<
    WorkspaceFault,
>
    decreases paths.len(),
{
    if paths.len() == 0 {
        None
    } else {
        match duplicate_among(members, paths.drop_last()) {
            Some(fault) => Some(fault),
            None => match name_of(members[paths.last()]) {
                None => None,
                Some(name) => match named_among(members, paths.drop_last(), name) {
                    None => None,
                    Some(first) => Some(
                        WorkspaceFault::DuplicateName { name, first, second: paths.last() },
                    ),
                },
            },
        }
    }
}

/// The workspace that a root manifest and the directories below it make.
pub open spec fn workspace_of(
    root: Seq<char>,
    manifest: ManifestModel,
    candidates: Seq<CandidateModel>,
) -> Result<WorkspaceModel, WorkspaceFault> {
    let patterns = patterns_in(manifest.members);
    match patterns_fault(patterns) {
        Some(fault) => Err(fault),
        None => match members_among(root, manifest, candidates) {
            Err(fault) => Err(WorkspaceFault::Manifest(fault)),
            Ok(members) => match duplicate_among(
                members,
                in_order::<ImporterPath>(members.dom()),
            ) {
                Some(fault) => Err(fault),
                None => Ok(
                    WorkspaceModel { root, members, warnings: warnings_for(patterns, candidates) },
                ),
            },
        },
    }
}

proof fn failure_persists(
    root: Seq<char>,
    manifest: ManifestModel,
    candidates: Seq<CandidateModel>,
    n: int,
)
    requires
        0 <= n <= candidates.len(),
        members_among(root, manifest, candidates.take(n)) is Err,
    ensures
        members_among(root, manifest, candidates) == members_among(
            root,
            manifest,
            candidates.take(n),
        ),
    decreases candidates.len() - n,
{
    if n < candidates.len() {
        assert(candidates.take(n + 1).drop_last() =~= candidates.take(n));
        failure_persists(root, manifest, candidates, n + 1);
    } else {
        assert(candidates.take(n) =~= candidates);
    }
}

proof fn duplicates_persist(members: MembersModel, paths: Seq<Seq<char>>, n: int)
    requires
        0 <= n <= paths.len(),
        duplicate_among(members, paths.take(n)) is Some,
    ensures
        duplicate_among(members, paths) == duplicate_among(members, paths.take(n)),
    decreases paths.len() - n,
{
    if n < paths.len() {
        assert(paths.take(n + 1).drop_last() =~= paths.take(n));
        duplicates_persist(members, paths, n + 1);
    } else {
        assert(paths.take(n) =~= paths);
    }
}

/// Mark what is hit.
fn mark(matched: &mut Vec<bool>, hits: &Vec<usize>)
    requires
        forall|k: int| 0 <= k < hits@.len() ==> #[trigger] hits@[k] < old(matched)@.len(),
    ensures
        final(matched)@.len() == old(matched)@.len(),
        forall|p: int|
            0 <= p < old(matched)@.len() ==> #[trigger] final(matched)@[p] == (old(matched)@[p]
                || hits@.contains(p as usize)),
{
    let ghost before = matched@;
    let n: usize = matched.len();
    let mut k: usize = 0;
    while k < hits.len()
        invariant
            k <= hits@.len(),
            matched@.len() == before.len() == n,
            forall|j: int| 0 <= j < hits@.len() ==> #[trigger] hits@[j] < before.len(),
            forall|p: int|
                0 <= p < before.len() ==> #[trigger] matched@[p] == (before[p] || hits@.take(
                    k as int,
                ).contains(p as usize)),
        decreases hits.len() - k,
    {
        let hit: usize = hits[k];
        matched.set(hit, true);
        proof {
            let now = hits@.take(k + 1);
            let then = hits@.take(k as int);
            assert(now =~= then.push(hit));
            assert(now[k as int] == hit);
            assert forall|p: int| 0 <= p < before.len() implies #[trigger] matched@[p] == (
            before[p] || now.contains(p as usize)) by {
                if then.contains(p as usize) {
                    let j = then.index_of(p as usize);
                    assert(now[j] == p as usize);
                }
                if now.contains(p as usize) && p as usize != hit {
                    let j = now.index_of(p as usize);
                    assert(then[j] == p as usize);
                }
            }
        }
        k = k + 1;
    }
    assert(hits@.take(hits@.len() as int) =~= hits@);
}

/// Two members claiming one package name is invalid. The error names both
/// directories, because those are what there is to go and fix.
pub fn check_for_duplicate_names(members: &SortedMap<ImporterPath, Member>) -> (checked: Result<
    (),
    WorkspaceError,
>)
    ensures
        match checked {
            Ok(_) => duplicate_among(
                members.deep_view(),
                in_order::<ImporterPath>(members.deep_view().dom()),
            ) is None,
            Err(error) => duplicate_among(
                members.deep_view(),
                in_order::<ImporterPath>(members.deep_view().dom()),
            ) == Some(error.deep_view()),
        },
{
    let ghost model = members.deep_view();
    let n: usize = members.len();
    let ghost paths = members.keys();
    let mut seen: SortedMap<String, String> = SortedMap::new();
    let mut i: usize = 0;
    while i < n
        invariant
            i <= n == paths.len(),
            paths == members.keys(),
            model == members.deep_view(),
            paths == in_order::<ImporterPath>(model.dom()),
            duplicate_among(model, paths.take(i as int)) is None,
            forall|name: Seq<char>| #[trigger]
                seen.deep_view().contains_key(name) <==> named_among(
                    model,
                    paths.take(i as int),
                    name,
                ) is Some,
            forall|name: Seq<char>| #[trigger]
                seen.deep_view().contains_key(name) ==> named_among(
                    model,
                    paths.take(i as int),
                    name,
                ) == Some(seen.deep_view()[name]),
        decreases n - i,
    {
        let importer = members.key_at(i);
        let member = members.value_at(i);
        assert(paths.take(i + 1).drop_last() =~= paths.take(i as int));
        assert(paths.take(i + 1).last() == paths[i as int]);
        match member.manifest.name() {
            Some(name) => {
                let key = name.to_owned();
                match seen.get(&key) {
                    Some(first) => {
                        proof {
                            duplicates_persist(model, paths, i + 1);
                        }
                        return Err(
                            WorkspaceError::DuplicateName {
                                name: key,
                                first: first.clone(),
                                second: importer.as_str().to_owned(),
                            },
                        );
                    },
                    None => {},
                }
                seen.insert(key, importer.as_str().to_owned());
            },
            None => {},
        }
        i = i + 1;
    }
    assert(paths.take(n as int) =~= paths);
    Ok(())
}

/// How deep a member's directory is, if it encloses another one.
pub open spec fn encloses(member: MemberModel, dir: Seq<char>) -> bool {
    starts_with(steps(dir), steps(member.path))
}

/// The deepest of some members that enclose a directory, if one does.
pub open spec fn nearest_among(
    members: MembersModel,
    paths: Seq<Seq<char>>,
    dir: Seq<char>,
) -> Option<MemberModel>
    decreases paths.len(),
{
    if paths.len() == 0 {
        None
    } else {
        let before = nearest_among(members, paths.drop_last(), dir);
        let member = members[paths.last()];
        match before {
            Some(nearest) if !encloses(member, dir) || steps(member.path).len() < steps(
                nearest.path,
            ).len() => before,
            _ => if encloses(member, dir) {
                Some(member)
            } else {
                None
            },
        }
    }
}

/// The member whose directory most closely encloses another one, if that is in
/// the workspace at all.
pub open spec fn nearest_member(workspace: WorkspaceModel, dir: Seq<char>) -> Option<MemberModel> {
    if starts_with(steps(dir), steps(workspace.root)) {
        nearest_among(
            workspace.members,
            in_order::<ImporterPath>(workspace.members.dom()),
            dir,
        )
    } else {
        None
    }
}

/// The member that has a name.
pub open spec fn member_named(workspace: WorkspaceModel, name: Seq<char>) -> Option<MemberModel> {
    match named_among(
        workspace.members,
        in_order::<ImporterPath>(workspace.members.dom()),
        name,
    ) {
        Some(path) => Some(workspace.members[path]),
        None => None,
    }
}

impl Workspace {
    /// The directory that holds the workspace's root manifest.
    pub fn root(&self) -> (root: &str)
        ensures
            root@ == self.deep_view().root,
    {
        self.root.as_str()
    }

    /// The projects, by where they are.
    pub fn members(&self) -> (members: &SortedMap<ImporterPath, Member>)
        ensures
            members.deep_view() == self.deep_view().members,
    {
        &self.members
    }

    /// What is worth saying about the patterns.
    pub fn warnings(&self) -> (warnings: &Vec<Warning>)
        ensures
            warnings.deep_view() == self.deep_view().warnings,
    {
        &self.warnings
    }

    /// The workspace that a root manifest and the directories below it make.
    pub fn discover(root: &str, manifest: Manifest, candidates: &Vec<Candidate>) -> (workspace:
        Result<Self, WorkspaceError>)
        ensures
            match workspace {
                Ok(workspace) => workspace_of(
                    root@,
                    manifest.deep_view(),
                    candidates.deep_view(),
                ) == Ok::<WorkspaceModel, WorkspaceFault>(workspace.deep_view()),
                Err(error) => workspace_of(root@, manifest.deep_view(), candidates.deep_view())
                    == Err::<WorkspaceModel, WorkspaceFault>(error.deep_view()),
            },
    {
        let ghost top = manifest.deep_view();
        let ghost all = candidates.deep_view();
        let patterns = manifest.workspaces();
        let ghost texts = patterns.deep_view();
        let globs = match MemberGlobs::compile(&patterns) {
            Ok(globs) => globs,
            Err(error) => {
                return Err(error);
            },
        };
        let mut members: SortedMap<ImporterPath, Member> = SortedMap::new();
        let own = Member { importer: ImporterPath::root(), path: root.to_owned(), manifest };
        members.insert(ImporterPath::root(), own);
        let mut matched: Vec<bool> = Vec::new();
        let mut p: usize = 0;
        while p < patterns.len()
            invariant
                p <= patterns@.len(),
                matched@.len() == p,
                forall|q: int| 0 <= q < p ==> !(#[trigger] matched@[q]),
            decreases patterns.len() - p,
        {
            matched.push(false);
            p = p + 1;
        }
        let mut i: usize = 0;
        while i < candidates.len()
            invariant
                i <= candidates@.len(),
                all == candidates.deep_view(),
                top == manifest.deep_view(),
                texts == patterns.deep_view(),
                texts == patterns_in(top.members),
                texts == globs.deep_view(),
                texts.len() == patterns@.len(),
                matched@.len() == texts.len(),
                patterns_fault(texts) is None,
                members_among(root@, top, all.take(i as int)) == Ok::<MembersModel, ManifestFault>(
                    members.deep_view(),
                ),
                forall|q: int|
                    0 <= q < texts.len() ==> #[trigger] matched@[q] == finds_member(
                        texts[q],
                        all.take(i as int),
                    ),
            decreases candidates.len() - i,
        {
            let candidate = &candidates[i];
            let ghost path = candidate.importer.deep_view();
            let ghost then = all.take(i as int);
            let ghost now = all.take(i + 1);
            assert(now.drop_last() =~= then);
            assert(now.last() == candidate.deep_view());
            let hits = globs.matches(candidate.importer.as_str());
            proof {
                assert forall|q: int| 0 <= q < texts.len() implies glob_admits(
                    #[trigger] texts[q],
                    path,
                ) == hits@.contains(q as usize) by {}
                if hits@.len() > 0 {
                    assert(hits@.contains(hits@[0]));
                    assert(glob_admits(texts[hits@[0] as int], path));
                }
                if is_hit(texts, path) {
                    let q = choose|q: int|
                        0 <= q < texts.len() && glob_admits(#[trigger] texts[q], path);
                    assert(hits@.contains(q as usize));
                }
                assert forall|k: int| 0 <= k < hits@.len() implies #[trigger] hits@[k]
                    < texts.len() by {
                    assert(hits@.contains(hits@[k]));
                }
                assert forall|q: int| 0 <= q < texts.len() implies finds_member(
                    #[trigger] texts[q],
                    now,
                ) == (finds_member(texts[q], then) || (candidate.manifest is Ok && glob_admits(
                    texts[q],
                    path,
                ))) by {
                    if finds_member(texts[q], then) {
                        let j = choose|j: int|
                            0 <= j < then.len() && (#[trigger] then[j]).manifest is Ok
                                && glob_admits(texts[q], then[j].importer);
                        assert(now[j] == then[j]);
                    }
                    if finds_member(texts[q], now) {
                        let j = choose|j: int|
                            0 <= j < now.len() && (#[trigger] now[j]).manifest is Ok
                                && glob_admits(texts[q], now[j].importer);
                        if j < then.len() {
                            assert(now[j] == then[j]);
                        }
                    }
                    if candidate.manifest is Ok && glob_admits(texts[q], path) {
                        assert(now[i as int].manifest is Ok);
                    }
                }
            }
            let ghost marked = matched@;
            if hits.len() > 0 {
                match &candidate.manifest {
                    Ok(found) => {
                        mark(&mut matched, &hits);
                        proof {
                            assert forall|q: int| 0 <= q < texts.len() implies #[trigger] matched@[q]
                                == finds_member(texts[q], now) by {
                                assert(matched@[q] == (marked[q] || hits@.contains(q as usize)));
                                assert(glob_admits(texts[q], path) == hits@.contains(q as usize));
                            }
                        }
                        let member = Member {
                            importer: candidate.importer.duplicate(),
                            path: join(root, candidate.importer.as_str()),
                            manifest: found.duplicate(),
                        };
                        members.insert(candidate.importer.duplicate(), member);
                    },
                    Err(ManifestError::NotFound(_)) => {},
                    Err(error) => {
                        let ghost fault = error.deep_view();
                        proof {
                            assert(candidate.deep_view().manifest == Err::<
                                ManifestModel,
                                ManifestFault,
                            >(fault));
                            assert(!(fault is NotFound));
                            assert(is_hit(texts, path));
                            assert(members_among(root@, top, now) == Err::<
                                MembersModel,
                                ManifestFault,
                            >(fault));
                            failure_persists(root@, top, all, i + 1);
                        }
                        return Err(WorkspaceError::Manifest(error.duplicate()));
                    },
                }
            } else {
                assert forall|q: int| 0 <= q < texts.len() implies #[trigger] matched@[q]
                    == finds_member(texts[q], now) by {
                    assert(!glob_admits(texts[q], path));
                }
            }
            i = i + 1;
        }
        assert(all.take(all.len() as int) =~= all);
        let mut warnings: Vec<Warning> = Vec::new();
        assert(warnings.deep_view() =~= seq![]);
        let mut w: usize = 0;
        while w < patterns.len()
            invariant
                w <= patterns@.len(),
                texts == patterns.deep_view(),
                matched@.len() == texts.len() == patterns@.len(),
                forall|q: int|
                    0 <= q < texts.len() ==> #[trigger] matched@[q] == finds_member(texts[q], all),
                warnings.deep_view() == warnings_for(texts.take(w as int), all),
            decreases patterns.len() - w,
        {
            let ghost before = warnings.deep_view();
            assert(texts.take(w + 1).drop_last() =~= texts.take(w as int));
            assert(texts.take(w + 1).last() == patterns@[w as int]@);
            if !matched[w] {
                warnings.push(Warning::PatternMatchedNothing(patterns[w].clone()));
                assert(warnings.deep_view() =~= before.push(
                    WarningModel::PatternMatchedNothing(texts[w as int]),
                ));
            }
            w = w + 1;
        }
        assert(texts.take(texts.len() as int) =~= texts);
        match check_for_duplicate_names(&members) {
            Ok(_) => Ok(Workspace { root: root.to_owned(), members, warnings }),
            Err(error) => Err(error),
        }
    }

    /// The member whose directory most closely encloses `dir`. A directory
    /// inside the workspace but inside no other member belongs to the root,
    /// and one outside it to none.
    pub fn member_for(&self, dir: &str) -> (member: Option<&Member>)
        ensures
            match member {
                Some(member) => nearest_member(self.deep_view(), dir@) == Some(member.deep_view()),
                None => nearest_member(self.deep_view(), dir@) is None,
            },
    {
        let place = components(dir);
        let top = components(self.root.as_str());
        if !begins(&place, &top) {
            return None;
        }
        let ghost model = self.members.deep_view();
        let n: usize = self.members.len();
        let ghost paths = self.members.keys();
        let mut nearest: Option<&Member> = None;
        let mut depth: usize = 0;
        let mut i: usize = 0;
        while i < n
            invariant
                i <= n == paths.len(),
                paths == self.members.keys(),
                model == self.members.deep_view(),
                place.deep_view() == steps(dir@),
                match nearest {
                    Some(member) => nearest_among(model, paths.take(i as int), dir@) == Some(
                        member.deep_view(),
                    ) && depth == steps(member.path@).len(),
                    None => nearest_among(model, paths.take(i as int), dir@) is None,
                },
            decreases n - i,
        {
            let member = self.members.value_at(i);
            assert(paths.take(i + 1).drop_last() =~= paths.take(i as int));
            assert(paths.take(i + 1).last() == paths[i as int]);
            let taken = components(member.path.as_str());
            if begins(&place, &taken) {
                if nearest.is_none() || taken.len() >= depth {
                    nearest = Some(member);
                    depth = taken.len();
                }
            }
            i = i + 1;
        }
        assert(paths.take(n as int) =~= paths);
        nearest
    }

    /// The member that has a name.
    pub fn member_by_name(&self, name: &str) -> (member: Option<&Member>)
        ensures
            match member {
                Some(member) => member_named(self.deep_view(), name@) == Some(member.deep_view()),
                None => member_named(self.deep_view(), name@) is None,
            },
    {
        let ghost model = self.members.deep_view();
        let n: usize = self.members.len();
        let ghost paths = self.members.keys();
        let mut i: usize = 0;
        while i < n
            invariant
                i <= n == paths.len(),
                paths == self.members.keys(),
                model == self.members.deep_view(),
                paths == in_order::<ImporterPath>(model.dom()),
                named_among(model, paths.take(i as int), name@) is None,
            decreases n - i,
        {
            let member = self.members.value_at(i);
            assert(paths.take(i + 1).drop_last() =~= paths.take(i as int));
            assert(paths.take(i + 1).last() == paths[i as int]);
            let named = match member.manifest.name() {
                Some(own) => same(own, name),
                None => false,
            };
            if named {
                proof {
                    first_name_stays(model, paths, name@, i + 1);
                }
                return Some(member);
            }
            i = i + 1;
        }
        assert(paths.take(n as int) =~= paths);
        None
    }

    /// The root that governs a directory: the nearest directory above it that
    /// declares a workspace and claims it as a member, or else the nearest one
    /// with a manifest of any kind.
    pub fn find_root(levels: &Vec<Level>) -> (root: Option<String>)
        ensures
            match root {
                Some(root) => governing(levels.deep_view()) == Some(root@),
                None => governing(levels.deep_view()) is None,
            },
    {
        let ghost all = levels.deep_view();
        let mut nearest: Option<String> = None;
        let mut i: usize = 0;
        while i < levels.len()
            invariant
                i <= levels@.len(),
                all == levels.deep_view(),
                claiming(all.take(i as int)) is None,
                match nearest {
                    Some(dir) => nearest_manifest(all.take(i as int)) == Some(dir@),
                    None => nearest_manifest(all.take(i as int)) is None,
                },
            decreases levels.len() - i,
        {
            let level = &levels[i];
            assert(all.take(i + 1).drop_last() =~= all.take(i as int));
            assert(all.take(i + 1).last() == level.deep_view());
            match level.manifest {
                Standing::Missing => {},
                Standing::Plain => {
                    if nearest.is_none() {
                        nearest = Some(level.dir.clone());
                    }
                },
                Standing::Declares { claims } => {
                    if claims {
                        proof {
                            claim_stays(all, i + 1);
                        }
                        return Some(level.dir.clone());
                    }
                    if nearest.is_none() {
                        nearest = Some(level.dir.clone());
                    }
                },
            }
            i = i + 1;
        }
        assert(all.take(all.len() as int) =~= all);
        nearest
    }
}

proof fn first_name_stays(
    members: MembersModel,
    paths: Seq<Seq<char>>,
    name: Seq<char>,
    n: int,
)
    requires
        0 <= n <= paths.len(),
        named_among(members, paths.take(n), name) is Some,
    ensures
        named_among(members, paths, name) == named_among(members, paths.take(n), name),
    decreases paths.len() - n,
{
    if n < paths.len() {
        assert(paths.take(n + 1).drop_last() =~= paths.take(n));
        first_name_stays(members, paths, name, n + 1);
    } else {
        assert(paths.take(n) =~= paths);
    }
}

/// What stands in a directory above another one.
#[derive(Debug, Clone, Copy, PartialEq, Eq, Structural)]
pub enum Standing {
    /// No manifest that can be read.
    Missing,
    /// A manifest that declares no workspace.
    Plain,
    /// A manifest that declares one, and whether that has the directory as a
    /// member.
    Declares { claims: bool },
}

/// A directory above another one.
#[derive(Debug)]
pub struct Level {
    pub dir: String,
    pub manifest: Standing,
}

/// What a [`Level`] means.
pub struct LevelModel {
    pub dir: Seq<char>,
    pub manifest: Standing,
}

impl DeepView for Level {
    type V = LevelModel;

    open spec fn deep_view(&self) -> LevelModel {
        LevelModel { dir: self.dir@, manifest: self.manifest }
    }
}

/// The first of some directories that claims what is below it.
pub open spec fn claiming(levels: Seq<LevelModel>) -> Option<Seq<char>>
    decreases levels.len(),
{
    if levels.len() == 0 {
        None
    } else {
        match claiming(levels.drop_last()) {
            Some(dir) => Some(dir),
            None => if levels.last().manifest == (Standing::Declares { claims: true }) {
                Some(levels.last().dir)
            } else {
                None
            },
        }
    }
}

/// The first of some directories that has a manifest.
pub open spec fn nearest_manifest(levels: Seq<LevelModel>) -> Option<Seq<char>>
    decreases levels.len(),
{
    if levels.len() == 0 {
        None
    } else {
        match nearest_manifest(levels.drop_last()) {
            Some(dir) => Some(dir),
            None => if levels.last().manifest == Standing::Missing {
                None
            } else {
                Some(levels.last().dir)
            },
        }
    }
}

/// The root that governs a directory, given what is above it, nearest first.
pub open spec fn governing(levels: Seq<LevelModel>) -> Option<Seq<char>> {
    match claiming(levels) {
        Some(dir) => Some(dir),
        None => nearest_manifest(levels),
    }
}

proof fn claim_stays(levels: Seq<LevelModel>, n: int)
    requires
        0 <= n <= levels.len(),
        claiming(levels.take(n)) is Some,
    ensures
        claiming(levels) == claiming(levels.take(n)),
    decreases levels.len() - n,
{
    if n < levels.len() {
        assert(levels.take(n + 1).drop_last() =~= levels.take(n));
        claim_stays(levels, n + 1);
    } else {
        assert(levels.take(n) =~= levels);
    }
}

/// Does a workspace contain a directory as one of its members, other than the
/// root? One that cannot be made sense of claims what it encloses, so that
/// what is wrong with it comes to light.
pub fn claims(discovered: &Result<Workspace, WorkspaceError>, dir: &str) -> (yes: bool)
    ensures
        yes == match discovered {
            Err(_) => true,
            Ok(workspace) => match nearest_member(workspace.deep_view(), dir@) {
                Some(member) => member.importer != root_path(),
                None => false,
            },
        },
{
    match discovered {
        Err(_) => true,
        Ok(workspace) => match workspace.member_for(dir) {
            Some(member) => !member.importer.is_root(),
            None => false,
        },
    }
}

/// Is standing in a directory ambiguous: does it belong to the root only for
/// want of another member, while there are others?
pub open spec fn is_lost(
    workspace: WorkspaceModel,
    member: MemberModel,
    resolved: Option<Seq<char>>,
) -> bool {
    &&& member.importer == root_path()
    &&& !(resolved is Some && steps(resolved->0) == steps(member.path))
    &&& workspace.members.dom().len() > 1
}

/// The project that a directory belongs to. `resolved` is the directory with
/// every link in it followed, where that could be done.
pub fn importer_for(workspace: &Workspace, dir: &str, resolved: Option<&str>) -> (importer: Result<
    ImporterPath,
    JerkyError,
>)
    ensures
        ({
            let place = match resolved {
                Some(resolved) => resolved@,
                None => dir@,
            };
            let at = match resolved {
                Some(resolved) => Some(resolved@),
                None => None,
            };
            let model = workspace.deep_view();
            match nearest_member(model, place) {
                None => match importer {
                    Err(JerkyError::NoManifestAnywhere(directory)) => directory@ == dir@,
                    _ => false,
                },
                Some(member) => if is_lost(model, member, at) {
                    match importer {
                        Err(JerkyError::NotInAMember { directory, members }) => directory@ == dir@
                            && members.deep_view() == in_order::<ImporterPath>(
                            model.members.dom(),
                        ),
                        _ => false,
                    }
                } else {
                    match importer {
                        Ok(importer) => importer.deep_view() == member.importer,
                        _ => false,
                    }
                },
            }
        }),
{
    let place = match resolved {
        Some(resolved) => resolved,
        None => dir,
    };
    let member = match workspace.member_for(place) {
        Some(member) => member,
        None => {
            return Err(JerkyError::NoManifestAnywhere(dir.to_owned()));
        },
    };
    let at_home = match resolved {
        Some(resolved) => {
            let here = components(resolved);
            let own = components(member.path.as_str());
            let equal = here.len() == own.len() && begins(&here, &own);
            proof {
                if here.deep_view() == own.deep_view() {
                    assert(here.deep_view().len() == here@.len());
                    assert(own.deep_view().len() == own@.len());
                }
                assert(here.deep_view().take(here@.len() as int) =~= here.deep_view());
            }
            equal
        },
        None => false,
    };
    let n: usize = workspace.members().len();
    if member.importer.is_root() && !at_home && n > 1 {
        return Err(
            JerkyError::NotInAMember {
                directory: dir.to_owned(),
                members: spell_importers(workspace),
            },
        );
    }
    Ok(member.importer.duplicate())
}

/// Every project of a workspace by where it is, in order.
pub fn spell_importers(workspace: &Workspace) -> (names: Vec<String>)
    ensures
        names.deep_view() == in_order::<ImporterPath>(workspace.deep_view().members.dom()),
{
    let members = workspace.members();
    let n: usize = members.len();
    let ghost paths = members.keys();
    let mut names: Vec<String> = Vec::new();
    assert(names.deep_view() =~= paths.take(0));
    let mut i: usize = 0;
    while i < n
        invariant
            i <= n == paths.len(),
            paths == members.keys(),
            names.deep_view() == paths.take(i as int),
        decreases n - i,
    {
        let ghost before = names.deep_view();
        let path = members.key_at(i).as_str().to_owned();
        let ghost text = path@;
        names.push(path);
        assert(names.deep_view() =~= before.push(text));
        assert(paths.take(i + 1) =~= paths.take(i as int).push(paths[i as int]));
        i = i + 1;
    }
    assert(paths.take(n as int) =~= paths);
    names
}

} // verus!
