//! What holds of every workspace.

use vstd::prelude::*;
use crate::globs::{
    children_among, child_of, glob_admits, is_pruned, patterns_fault, reaches_below,
    ChildModel, DirModel,
};
use crate::importer::{root_path, ImporterPath};
use crate::linker::starts_with;
use crate::manifest::{patterns_in, ManifestFault, ManifestModel};
use crate::path::{put_after, steps};
use crate::sorted::{in_order, in_order_lists};
use crate::workspace::{
    claiming, duplicate_among, encloses, finds_member, member_named, members_among, name_of,
    named_among, nearest_among, nearest_manifest, nearest_member, warnings_for, workspace_of,
    CandidateModel, Level, LevelModel, MembersModel, Standing, WarningModel, Workspace,
    WorkspaceFault, WorkspaceModel,
};

verus! {

proof fn root_stays(root: Seq<char>, manifest: ManifestModel, candidates: Seq<CandidateModel>)
    ensures
        match members_among(root, manifest, candidates) {
            Ok(members) => members.contains_key(root_path()) && members.dom().finite(),
            Err(_) => true,
        },
    decreases candidates.len(),
{
    if candidates.len() > 0 {
        root_stays(root, manifest, candidates.drop_last());
    }
}

/// The root is a member of every workspace, whether or not any pattern matches
/// anything.
pub proof fn the_root_is_a_member(
    root: Seq<char>,
    manifest: ManifestModel,
    candidates: Seq<CandidateModel>,
)
    requires
        workspace_of(root, manifest, candidates) is Ok,
    ensures
        (workspace_of(root, manifest, candidates)->Ok_0).members.contains_key(root_path()),
{
    root_stays(root, manifest, candidates);
}

proof fn named_if_there(
    members: MembersModel,
    paths: Seq<Seq<char>>,
    name: Seq<char>,
    i: int,
)
    requires
        0 <= i < paths.len(),
        name_of(members[paths[i]]) == Some(name),
    ensures
        named_among(members, paths, name) is Some,
    decreases paths.len(),
{
    if i < paths.len() - 1 {
        assert(paths.drop_last()[i] == paths[i]);
        named_if_there(members, paths.drop_last(), name, i);
    }
}

proof fn duplicates_are_found(members: MembersModel, paths: Seq<Seq<char>>, i: int, j: int)
    requires
        0 <= i < j < paths.len(),
        name_of(members[paths[i]]) is Some,
        name_of(members[paths[i]]) == name_of(members[paths[j]]),
    ensures
        duplicate_among(members, paths) is Some,
    decreases paths.len(),
{
    let shorter = paths.drop_last();
    assert(shorter[i] == paths[i]);
    if j < shorter.len() {
        assert(shorter[j] == paths[j]);
        duplicates_are_found(members, shorter, i, j);
    } else {
        let name = name_of(members[paths[i]])->0;
        named_if_there(members, shorter, name, i);
    }
}

/// No two members of a workspace have one name, so that a name says which
/// member is meant.
pub proof fn names_are_unique(
    root: Seq<char>,
    manifest: ManifestModel,
    candidates: Seq<CandidateModel>,
    a: Seq<char>,
    b: Seq<char>,
)
    requires
        workspace_of(root, manifest, candidates) is Ok,
        ({
            let members = (workspace_of(root, manifest, candidates)->Ok_0).members;
            &&& members.contains_key(a)
            &&& members.contains_key(b)
            &&& name_of(members[a]) is Some
            &&& name_of(members[a]) == name_of(members[b])
        }),
    ensures
        a == b,
{
    let members = (workspace_of(root, manifest, candidates)->Ok_0).members;
    root_stays(root, manifest, candidates);
    let paths = in_order::<ImporterPath>(members.dom());
    in_order_lists::<ImporterPath>(members.dom());
    assert(paths.to_set().contains(a) && paths.to_set().contains(b));
    let i = paths.index_of(a);
    let j = paths.index_of(b);
    if i < j {
        duplicates_are_found(members, paths, i, j);
    } else if j < i {
        duplicates_are_found(members, paths, j, i);
    }
}

proof fn nearest_is_deepest(
    members: MembersModel,
    paths: Seq<Seq<char>>,
    dir: Seq<char>,
    i: int,
)
    requires
        0 <= i < paths.len(),
        encloses(members[paths[i]], dir),
    ensures
        match nearest_among(members, paths, dir) {
            Some(nearest) => encloses(nearest, dir) && steps(members[paths[i]].path).len() <= steps(
                nearest.path,
            ).len(),
            None => false,
        },
    decreases paths.len(),
{
    let shorter = paths.drop_last();
    if i < shorter.len() {
        assert(shorter[i] == paths[i]);
        nearest_is_deepest(members, shorter, dir, i);
    } else {
        nearest_encloses(members, shorter, dir);
    }
}

proof fn nearest_encloses(members: MembersModel, paths: Seq<Seq<char>>, dir: Seq<char>)
    ensures
        match nearest_among(members, paths, dir) {
            Some(nearest) => encloses(nearest, dir),
            None => true,
        },
    decreases paths.len(),
{
    if paths.len() > 0 {
        nearest_encloses(members, paths.drop_last(), dir);
    }
}

/// A directory inside a workspace belongs to a member that encloses it, and no
/// member that encloses it is nearer.
pub proof fn directories_belong_to_the_nearest_member(
    workspace: WorkspaceModel,
    dir: Seq<char>,
    path: Seq<char>,
)
    requires
        workspace.members.dom().finite(),
        starts_with(steps(dir), steps(workspace.root)),
        workspace.members.contains_key(path),
        encloses(workspace.members[path], dir),
    ensures
        match nearest_member(workspace, dir) {
            Some(nearest) => encloses(nearest, dir) && steps(workspace.members[path].path).len()
                <= steps(nearest.path).len(),
            None => false,
        },
{
    let paths = in_order::<ImporterPath>(workspace.members.dom());
    in_order_lists::<ImporterPath>(workspace.members.dom());
    assert(paths.to_set().contains(path));
    let i = paths.index_of(path);
    nearest_is_deepest(workspace.members, paths, dir, i);
}

/// What is looked at below a directory is a directory in its own right that is
/// not passed over: installed packages are never members.
pub proof fn installed_packages_are_passed_over(
    patterns: Seq<Seq<char>>,
    relative: Seq<char>,
    entries: Seq<DirModel>,
    k: int,
)
    requires
        0 <= k < children_among(patterns, relative, entries).len(),
    ensures
        exists|i: int|
            0 <= i < entries.len() && (#[trigger] entries[i]).is_dir && !is_pruned(entries[i].name)
                && children_among(patterns, relative, entries)[k] == child_of(
                patterns,
                relative,
                entries[i].name,
            ),
    decreases entries.len(),
{
    let shorter = entries.drop_last();
    let before = children_among(patterns, relative, shorter);
    if k < before.len() {
        installed_packages_are_passed_over(patterns, relative, shorter, k);
        let i = choose|i: int|
            0 <= i < shorter.len() && (#[trigger] shorter[i]).is_dir && !is_pruned(shorter[i].name)
                && before[k] == child_of(patterns, relative, shorter[i].name);
        assert(entries[i] == shorter[i]);
    } else {
        assert(entries[entries.len() - 1].is_dir);
    }
}

/// Is a candidate a member: one with a manifest that some pattern matches?
pub open spec fn is_called_in(manifest: ManifestModel, candidate: CandidateModel) -> bool {
    candidate.manifest is Ok && exists|i: int|
        0 <= i < patterns_in(manifest.members).len() && glob_admits(
            #[trigger] patterns_in(manifest.members)[i],
            candidate.importer,
        )
}

proof fn members_are_called_in(
    root: Seq<char>,
    manifest: ManifestModel,
    candidates: Seq<CandidateModel>,
)
    requires
        members_among(root, manifest, candidates) is Ok,
    ensures
        ({
            let members = members_among(root, manifest, candidates)->Ok_0;
            &&& forall|i: int|
                0 <= i < candidates.len() && is_called_in(manifest, #[trigger] candidates[i])
                    ==> members.contains_key(candidates[i].importer)
            &&& forall|path: Seq<char>| #[trigger]
                members.contains_key(path) ==> members[path].importer == path && {
                    ||| path == root_path() && members[path].path == root && members[path].manifest
                        == manifest
                    ||| members[path].path == put_after(root, path) && exists|i: int|
                        0 <= i < candidates.len() && is_called_in(manifest, #[trigger] candidates[i])
                            && candidates[i].importer == path && candidates[i].manifest == Ok::<
                            ManifestModel,
                            ManifestFault,
                        >(members[path].manifest)
                }
        }),
    decreases candidates.len(),
{
    if candidates.len() > 0 {
        let shorter = candidates.drop_last();
        members_are_called_in(root, manifest, shorter);
        let n = candidates.len() - 1;
        let before = members_among(root, manifest, shorter)->Ok_0;
        let members = members_among(root, manifest, candidates)->Ok_0;
        assert forall|i: int|
            0 <= i < candidates.len() && is_called_in(
                manifest,
                #[trigger] candidates[i],
            ) implies members.contains_key(candidates[i].importer) by {
            if i < n {
                assert(shorter[i] == candidates[i]);
            }
        }
        assert forall|path: Seq<char>| #[trigger]
            members.contains_key(path) implies members[path].importer == path && {
            ||| path == root_path() && members[path].path == root && members[path].manifest
                == manifest
            ||| members[path].path == put_after(root, path) && exists|i: int|
                0 <= i < candidates.len() && is_called_in(manifest, #[trigger] candidates[i])
                    && candidates[i].importer == path && candidates[i].manifest == Ok::<
                    ManifestModel,
                    ManifestFault,
                >(members[path].manifest)
        } by {
            if is_called_in(manifest, candidates[n]) && candidates[n].importer == path {
                assert(is_called_in(manifest, candidates[n]));
            } else {
                assert(before.contains_key(path));
                assert(before[path] == members[path]);
                if !(path == root_path() && members[path].path == root && members[path].manifest
                    == manifest) {
                    let i = choose|i: int|
                        0 <= i < shorter.len() && is_called_in(manifest, #[trigger] shorter[i])
                            && shorter[i].importer == path && shorter[i].manifest == Ok::<
                            ManifestModel,
                            ManifestFault,
                        >(before[path].manifest);
                    assert(candidates[i] == shorter[i]);
                }
            }
        }
    }
}

/// The members of a workspace are its root and exactly the directories with a
/// manifest that some pattern matches, each with its own manifest and in its
/// own place.
pub proof fn members_are_what_is_matched(
    root: Seq<char>,
    manifest: ManifestModel,
    candidates: Seq<CandidateModel>,
    path: Seq<char>,
)
    requires
        workspace_of(root, manifest, candidates) is Ok,
        path != root_path(),
    ensures
        ({
            let members = (workspace_of(root, manifest, candidates)->Ok_0).members;
            &&& members.contains_key(path) <==> exists|i: int|
                0 <= i < candidates.len() && is_called_in(manifest, #[trigger] candidates[i])
                    && candidates[i].importer == path
            &&& members.contains_key(path) ==> members[path].importer == path && members[path].path
                == put_after(root, path) && exists|i: int|
                0 <= i < candidates.len() && (#[trigger] candidates[i]).importer == path
                    && candidates[i].manifest == Ok::<ManifestModel, ManifestFault>(
                    members[path].manifest,
                )
        }),
{
    members_are_called_in(root, manifest, candidates);
}

proof fn faults_come_from_candidates(
    root: Seq<char>,
    manifest: ManifestModel,
    candidates: Seq<CandidateModel>,
)
    ensures
        members_among(root, manifest, candidates) is Err <==> exists|i: int|
            0 <= i < candidates.len() && #[trigger] is_unreadable(manifest, candidates[i]),
    decreases candidates.len(),
{
    if candidates.len() > 0 {
        let shorter = candidates.drop_last();
        let n = candidates.len() - 1;
        faults_come_from_candidates(root, manifest, shorter);
        if members_among(root, manifest, shorter) is Err {
            let i = choose|i: int|
                0 <= i < shorter.len() && #[trigger] is_unreadable(manifest, shorter[i]);
            assert(is_unreadable(manifest, candidates[i]));
        }
        if exists|i: int|
            0 <= i < candidates.len() && #[trigger] is_unreadable(manifest, candidates[i]) {
            let i = choose|i: int|
                0 <= i < candidates.len() && #[trigger] is_unreadable(manifest, candidates[i]);
            if i < n {
                assert(is_unreadable(manifest, shorter[i]));
            }
        }
        if members_among(root, manifest, candidates) is Err && members_among(
            root,
            manifest,
            shorter,
        ) is Ok {
            assert(is_unreadable(manifest, candidates[n]));
        }
    }
}

/// Does a pattern match a directory whose manifest is there and cannot be
/// read?
pub open spec fn is_unreadable(manifest: ManifestModel, candidate: CandidateModel) -> bool {
    &&& candidate.manifest is Err
    &&& !(candidate.manifest->Err_0 is NotFound)
    &&& exists|i: int|
        0 <= i < patterns_in(manifest.members).len() && glob_admits(
            #[trigger] patterns_in(manifest.members)[i],
            candidate.importer,
        )
}

/// A workspace is refused over its members exactly where a member's manifest
/// is there and cannot be read. A directory without one is passed over.
pub proof fn unreadable_members_are_refused(
    root: Seq<char>,
    manifest: ManifestModel,
    candidates: Seq<CandidateModel>,
)
    requires
        patterns_fault(patterns_in(manifest.members)) is None,
    ensures
        (workspace_of(root, manifest, candidates) is Err && workspace_of(
            root,
            manifest,
            candidates,
        )->Err_0 is Manifest) <==> exists|i: int|
            0 <= i < candidates.len() && #[trigger] is_unreadable(manifest, candidates[i]),
{
    faults_come_from_candidates(root, manifest, candidates);
    if let Ok(members) = members_among(root, manifest, candidates) {
        duplicates_are_duplicates(members, in_order::<ImporterPath>(members.dom()));
    }
}

proof fn named_is_named(members: MembersModel, paths: Seq<Seq<char>>, name: Seq<char>)
    ensures
        match named_among(members, paths, name) {
            Some(path) => paths.contains(path) && name_of(members[path]) == Some(name),
            None => forall|i: int|
                0 <= i < paths.len() ==> name_of(members[#[trigger] paths[i]]) != Some(name),
        },
    decreases paths.len(),
{
    if paths.len() > 0 {
        let shorter = paths.drop_last();
        let n = paths.len() - 1;
        named_is_named(members, shorter, name);
        match named_among(members, shorter, name) {
            Some(path) => {
                let i = shorter.index_of(path);
                assert(paths[i] == path);
            },
            None => {
                assert forall|i: int| 0 <= i < n implies name_of(members[#[trigger] paths[i]])
                    != Some(name) by {
                    assert(shorter[i] == paths[i]);
                }
                assert(paths[n] == paths.last());
            },
        }
    }
}

proof fn duplicates_are_duplicates(members: MembersModel, paths: Seq<Seq<char>>)
    ensures
        match duplicate_among(members, paths) {
            Some(WorkspaceFault::DuplicateName { name, first, second }) => exists|i: int, j: int|
                0 <= i < j < paths.len() && #[trigger] paths[i] == first && #[trigger] paths[j]
                    == second && name_of(members[first]) == Some(name) && name_of(members[second])
                    == Some(name),
            Some(_) => false,
            None => true,
        },
    decreases paths.len(),
{
    if paths.len() > 0 {
        let shorter = paths.drop_last();
        let n = paths.len() - 1;
        duplicates_are_duplicates(members, shorter);
        match duplicate_among(members, shorter) {
            Some(WorkspaceFault::DuplicateName { name, first, second }) => {
                let (i, j) = choose|i: int, j: int|
                    0 <= i < j < shorter.len() && #[trigger] shorter[i] == first
                        && #[trigger] shorter[j] == second && name_of(members[first]) == Some(name)
                        && name_of(members[second]) == Some(name);
                assert(paths[i] == first && paths[j] == second);
            },
            _ => match name_of(members[paths.last()]) {
                Some(name) => {
                    named_is_named(members, shorter, name);
                    match named_among(members, shorter, name) {
                        Some(first) => {
                            let i = shorter.index_of(first);
                            assert(paths[i] == first && paths[n] == paths.last());
                        },
                        None => {},
                    }
                },
                None => {},
            },
        }
    }
}

/// A workspace is refused over a name only where two members have it, and says
/// which two.
pub proof fn duplicates_are_real(
    root: Seq<char>,
    manifest: ManifestModel,
    candidates: Seq<CandidateModel>,
    name: Seq<char>,
    first: Seq<char>,
    second: Seq<char>,
)
    requires
        workspace_of(root, manifest, candidates) == Err::<WorkspaceModel, WorkspaceFault>(
            WorkspaceFault::DuplicateName { name, first, second },
        ),
        patterns_fault(patterns_in(manifest.members)) is None,
    ensures
        ({
            let members = members_among(root, manifest, candidates)->Ok_0;
            &&& members.contains_key(first) && members.contains_key(second) && first != second
            &&& name_of(members[first]) == Some(name) && name_of(members[second]) == Some(name)
        }),
{
    let members = members_among(root, manifest, candidates)->Ok_0;
    root_stays(root, manifest, candidates);
    let paths = in_order::<ImporterPath>(members.dom());
    in_order_lists::<ImporterPath>(members.dom());
    duplicates_are_duplicates(members, paths);
    let (i, j) = choose|i: int, j: int|
        0 <= i < j < paths.len() && #[trigger] paths[i] == first && #[trigger] paths[j] == second
            && name_of(members[first]) == Some(name) && name_of(members[second]) == Some(name);
    assert(paths.to_set().contains(paths[i]) && paths.to_set().contains(paths[j]));
}

/// A member is found by its name: whoever has the name is who is found, and
/// nobody is found only where nobody has it.
pub proof fn names_find_their_member(workspace: WorkspaceModel, name: Seq<char>, path: Seq<char>)
    requires
        workspace.members.dom().finite(),
        workspace.members.contains_key(path),
    ensures
        match member_named(workspace, name) {
            Some(member) => name_of(member) == Some(name) && exists|at: Seq<char>| #[trigger]
                workspace.members.contains_key(at) && workspace.members[at] == member,
            None => name_of(workspace.members[path]) != Some(name),
        },
{
    let paths = in_order::<ImporterPath>(workspace.members.dom());
    in_order_lists::<ImporterPath>(workspace.members.dom());
    named_is_named(workspace.members, paths, name);
    assert(paths.to_set().contains(path));
    let i = paths.index_of(path);
    assert(paths[i] == path);
    match named_among(workspace.members, paths, name) {
        Some(at) => {
            assert(paths.to_set().contains(at));
            assert(workspace.members.contains_key(at));
        },
        None => {},
    }
}

proof fn warnings_are(patterns: Seq<Seq<char>>, candidates: Seq<CandidateModel>, pattern: Seq<char>)
    ensures
        warnings_for(patterns, candidates).contains(WarningModel::PatternMatchedNothing(pattern))
            <==> patterns.contains(pattern) && !finds_member(pattern, candidates),
    decreases patterns.len(),
{
    let warning = WarningModel::PatternMatchedNothing(pattern);
    let all = warnings_for(patterns, candidates);
    if patterns.len() > 0 {
        let shorter = patterns.drop_last();
        let n = patterns.len() - 1;
        let before = warnings_for(shorter, candidates);
        warnings_are(shorter, candidates, pattern);
        if before.contains(warning) {
            let i = before.index_of(warning);
            assert(all[i] == warning);
            let k = shorter.index_of(pattern);
            assert(patterns[k] == pattern);
        }
        if all.contains(warning) && !before.contains(warning) {
            let i = all.index_of(warning);
            if i < before.len() {
                assert(before[i] == warning);
            }
            assert(patterns[n] == pattern);
        }
        if patterns.contains(pattern) && !finds_member(pattern, candidates) {
            let k = patterns.index_of(pattern);
            if k < n {
                assert(shorter[k] == pattern);
                assert(shorter.contains(pattern));
            } else {
                assert(all[before.len() as int] == warning);
            }
        }
    }
}

/// A pattern is warned about exactly where it matches no directory that has a
/// manifest.
pub proof fn idle_patterns_are_warned_about(
    root: Seq<char>,
    manifest: ManifestModel,
    candidates: Seq<CandidateModel>,
    pattern: Seq<char>,
)
    requires
        workspace_of(root, manifest, candidates) is Ok,
    ensures
        (workspace_of(root, manifest, candidates)->Ok_0).warnings.contains(
            WarningModel::PatternMatchedNothing(pattern),
        ) <==> patterns_in(manifest.members).contains(pattern) && forall|i: int|
            0 <= i < candidates.len() && (#[trigger] candidates[i]).manifest is Ok ==> !glob_admits(
                pattern,
                candidates[i].importer,
            ),
{
    warnings_are(patterns_in(manifest.members), candidates, pattern);
}

proof fn claiming_is_first(levels: Seq<LevelModel>)
    ensures
        match claiming(levels) {
            Some(dir) => exists|i: int|
                0 <= i < levels.len() && #[trigger] levels[i].dir == dir && levels[i].manifest == (
                Standing::Declares { claims: true }) && forall|j: int|
                    0 <= j < i ==> #[trigger] levels[j].manifest != (Standing::Declares {
                        claims: true,
                    }),
            None => forall|i: int|
                0 <= i < levels.len() ==> #[trigger] levels[i].manifest != (Standing::Declares {
                    claims: true,
                }),
        },
        match nearest_manifest(levels) {
            Some(dir) => exists|i: int|
                0 <= i < levels.len() && #[trigger] levels[i].dir == dir && levels[i].manifest
                    != Standing::Missing && forall|j: int|
                    0 <= j < i ==> #[trigger] levels[j].manifest == Standing::Missing,
            None => forall|i: int|
                0 <= i < levels.len() ==> #[trigger] levels[i].manifest == Standing::Missing,
        },
    decreases levels.len(),
{
    if levels.len() > 0 {
        let shorter = levels.drop_last();
        let n = levels.len() - 1;
        claiming_is_first(shorter);
        assert(levels[n] == levels.last());
        assert forall|i: int| 0 <= i < n implies shorter[i] == levels[i] by {}
        match claiming(shorter) {
            Some(dir) => {
                let i = choose|i: int|
                    0 <= i < shorter.len() && #[trigger] shorter[i].dir == dir
                        && shorter[i].manifest == (Standing::Declares { claims: true }) && forall|
                        j: int,
                    |
                        0 <= j < i ==> #[trigger] shorter[j].manifest != (Standing::Declares {
                            claims: true,
                        });
                assert(levels[i].dir == dir);
                assert forall|j: int| 0 <= j < i implies #[trigger] levels[j].manifest != (
                Standing::Declares { claims: true }) by {
                    assert(shorter[j].manifest == levels[j].manifest);
                }
            },
            None => {
                assert forall|j: int| 0 <= j < n implies #[trigger] levels[j].manifest != (
                Standing::Declares { claims: true }) by {
                    assert(shorter[j].manifest == levels[j].manifest);
                }
                assert(levels[n].dir == levels.last().dir);
            },
        }
        match nearest_manifest(shorter) {
            Some(dir) => {
                let i = choose|i: int|
                    0 <= i < shorter.len() && #[trigger] shorter[i].dir == dir
                        && shorter[i].manifest != Standing::Missing && forall|j: int|
                        0 <= j < i ==> #[trigger] shorter[j].manifest == Standing::Missing;
                assert(levels[i].dir == dir);
                assert forall|j: int| 0 <= j < i implies #[trigger] levels[j].manifest
                    == Standing::Missing by {
                    assert(shorter[j].manifest == levels[j].manifest);
                }
            },
            None => {
                assert forall|j: int| 0 <= j < n implies #[trigger] levels[j].manifest
                    == Standing::Missing by {
                    assert(shorter[j].manifest == levels[j].manifest);
                }
                assert(levels[n].dir == levels.last().dir);
            },
        }
    }
}

/// A directory is governed by the nearest workspace above it that has it as a
/// member, however many manifests stand in between, and where there is none,
/// by the nearest manifest. Only where there is no manifest at all is it
/// governed by nothing.
pub proof fn the_nearest_claim_governs(levels: &Vec<Level>, root: Option<String>)
    requires
        call_ensures(Workspace::find_root, (levels,), root),
    ensures
        ({
            let all = levels.deep_view();
            let claims = |i: int| all[i].manifest == (Standing::Declares { claims: true });
            match root {
                Some(dir) => {
                    ||| exists|i: int|
                        0 <= i < all.len() && #[trigger] all[i].dir == dir@ && claims(i) && forall|
                            j: int,
                        | 0 <= j < i ==> !#[trigger] claims(j)
                    ||| (forall|j: int| 0 <= j < all.len() ==> !#[trigger] claims(j)) && exists|
                        i: int,
                    |
                        0 <= i < all.len() && #[trigger] all[i].dir == dir@ && all[i].manifest
                            != Standing::Missing && forall|j: int|
                            0 <= j < i ==> #[trigger] all[j].manifest == Standing::Missing
                },
                None => forall|i: int|
                    0 <= i < all.len() ==> #[trigger] all[i].manifest == Standing::Missing,
            }
        }),
{
    let all = levels.deep_view();
    claiming_is_first(all);
    let claims = |i: int| all[i].manifest == (Standing::Declares { claims: true });
    match claiming(all) {
        Some(dir) => {
            let i = choose|i: int|
                0 <= i < all.len() && #[trigger] all[i].dir == dir && all[i].manifest == (
                Standing::Declares { claims: true }) && forall|j: int|
                    0 <= j < i ==> #[trigger] all[j].manifest != (Standing::Declares {
                        claims: true,
                    });
            assert(all[i].dir == dir && claims(i));
            assert forall|j: int| 0 <= j < i implies !#[trigger] claims(j) by {
                assert(all[j].manifest != (Standing::Declares { claims: true }));
            }
        },
        None => {
            assert forall|j: int| 0 <= j < all.len() implies !#[trigger] claims(j) by {
                assert(all[j].manifest != (Standing::Declares { claims: true }));
            }
        },
    }
}

/// Every directory that is not passed over is looked at, in order, and nothing
/// else is: each counts where some pattern matches it, and is looked into
/// where some pattern reaches below it.
pub proof fn every_directory_is_looked_at(
    patterns: Seq<Seq<char>>,
    relative: Seq<char>,
    a: Seq<DirModel>,
    b: Seq<DirModel>,
    entry: DirModel,
)
    ensures
        children_among(patterns, relative, a + b) == children_among(patterns, relative, a)
            + children_among(patterns, relative, b),
        children_among(patterns, relative, seq![entry]) == if entry.is_dir && entry.name
            != "node_modules"@ && entry.name != ".git"@ {
            seq![
                ChildModel {
                    relative: put_after(relative, entry.name),
                    matched: exists|i: int|
                        0 <= i < patterns.len() && glob_admits(
                            #[trigger] patterns[i],
                            put_after(relative, entry.name),
                        ),
                    descend: reaches_below(patterns, steps(put_after(relative, entry.name)).len()),
                },
            ]
        } else {
            seq![]
        },
    decreases b.len(),
{
    reveal_with_fuel(children_among, 2);
    if b.len() == 0 {
        assert(a + b =~= a);
        assert(children_among(patterns, relative, a) + seq![] =~= children_among(
            patterns,
            relative,
            a,
        ));
    } else {
        every_directory_is_looked_at(patterns, relative, a, b.drop_last(), entry);
        assert((a + b).drop_last() =~= a + b.drop_last());
        assert(children_among(patterns, relative, a + b) =~= children_among(patterns, relative, a)
            + children_among(patterns, relative, b));
    }
    let one = seq![entry];
    assert(one.drop_last() =~= seq![]);
    assert(children_among(patterns, relative, one.drop_last()) =~= seq![]);
    assert(children_among(patterns, relative, one) =~= if !entry.is_dir || is_pruned(entry.name) {
        seq![]
    } else {
        seq![child_of(patterns, relative, entry.name)]
    });
}

} // verus!
