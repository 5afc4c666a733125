//! What each of the smaller decisions comes to.

use vstd::prelude::*;
use crate::cli::{CliError, Command, Intent};
use crate::directory::{create_level, AfterMkdir, Mkdir};
use crate::error::JerkyError;
use crate::graph::Kind;
use crate::http::{from_metadata_body, from_transport, missing_version, Retry};
use crate::importer::{root_path, ImporterPath};
use crate::init::init;
use crate::install::{declared_range, Mode};
use crate::integrity::{Algo, Integrity, IntegrityError};
use crate::linker::{link_file, populate_virtual_store, populated, HardLink, LinkError, Populate};
use crate::manifest::{Manifest, ManifestError};
use crate::path::{last_name, put_after, steps};
use crate::pool::{crawl_width, drain_width, lowest_failure};
use crate::range::{range_parses, version_parses};
use crate::registry::{packument_of, Fetched, Packument, RegistryError};
use crate::workspace::{importer_for, nearest_member, Workspace};

verus! {

/// An entry of the virtual store is built exactly where it is not there, and
/// either way it is in its place below `.jerky`.
pub proof fn entries_are_built_where_they_are_missing(
    node_modules: &str,
    dir_name: &str,
    pkg_name: &str,
    present: bool,
    populate: Populate,
)
    requires
        call_ensures(populate_virtual_store, (node_modules, dir_name, pkg_name, present), populate),
    ensures
        ({
            let place = put_after(put_after(node_modules@, ".jerky"@), dir_name@);
            &&& populate is Present <==> present
            &&& match populate {
                Populate::Present(at) => at@ == place,
                Populate::Build { package, target } => target@ == place && package@ == put_after(
                    "node_modules"@,
                    pkg_name@,
                ),
            }
        }),
{
}

/// An entry that could not be moved to its place is a failure only where nobody
/// else put one there meanwhile.
pub proof fn lost_races_are_no_failures(
    staged: &str,
    target: &str,
    failure: Option<String>,
    present: bool,
    outcome: Result<String, LinkError>,
)
    requires
        call_ensures(populated, (staged, target, failure, present), outcome),
    ensures
        outcome is Err <==> failure is Some && !present,
        outcome is Ok ==> (outcome->Ok_0)@ == target@,
{
}

/// A file is copied exactly where it could not be linked for lying on another
/// device. Any other failure to link it is one.
pub proof fn files_are_copied_across_devices(
    src: &str,
    dst: &str,
    outcome: HardLink,
    copy: Result<bool, LinkError>,
)
    requires
        call_ensures(link_file, (src, dst, outcome), copy),
    ensures
        copy is Err <==> outcome is Failed,
        copy is Ok ==> (copy->Ok_0 <==> outcome is CrossDevice),
{
}

/// The mode of a directory is set exactly where it was just made. One that was
/// there is left as it is, and anything else that is there is a failure.
pub proof fn only_new_directories_get_a_mode(made: Mkdir, next: AfterMkdir)
    requires
        call_ensures(create_level, (made,), next),
    ensures
        next is SetMode <==> made is Made,
        next is Leave <==> made is Taken && made->is_dir,
        next is Fail <==> made is Failed || (made is Taken && !made->is_dir),
{
}

/// There are never more workers than items, and a crawl has at least one.
pub proof fn workers_are_bounded(workers: usize, items: usize, drain: usize, crawl: usize)
    requires
        call_ensures(drain_width, (workers, items), drain),
        call_ensures(crawl_width, (workers,), crawl),
    ensures
        drain <= workers && drain <= items && (drain == workers || drain == items),
        crawl >= 1 && (workers >= 1 ==> crawl == workers),
{
}

/// Of some failures the lowest is told, whatever order they came in.
pub proof fn the_lowest_failure_is_told(
    failed: &Vec<usize>,
    other: &Vec<usize>,
    lowest: Option<usize>,
    same: Option<usize>,
)
    requires
        call_ensures(lowest_failure, (failed,), lowest),
        call_ensures(lowest_failure, (other,), same),
        failed@.to_set() == other@.to_set(),
    ensures
        lowest == same,
        lowest is None <==> failed@.len() == 0,
        lowest is Some ==> failed@.contains(lowest->0),
{
    if failed@.len() > 0 {
        assert(failed@.to_set().contains(failed@[0]));
        assert(other@.to_set().contains(failed@[0]));
    }
    if other@.len() > 0 {
        assert(other@.to_set().contains(other@[0]));
        assert(failed@.to_set().contains(other@[0]));
    }
    if lowest is Some && same is Some {
        assert(failed@.to_set().contains(lowest->0));
        assert(other@.to_set().contains(lowest->0));
        assert(other@.to_set().contains(same->0));
        assert(failed@.to_set().contains(same->0));
        let i = failed@.index_of(same->0);
        let j = other@.index_of(lowest->0);
        assert(failed@[i] == same->0);
        assert(other@[j] == lowest->0);
    }
}

/// What was asked for without a condition is answered with what is sent. To be
/// told that nothing changed is no answer to that.
pub proof fn unconditional_answers_are_bodies(
    name: &str,
    fetched: Result<Fetched, RegistryError>,
    packument: Result<Packument, RegistryError>,
)
    requires
        call_ensures(packument_of, (name, fetched), packument),
    ensures
        packument is Ok <==> fetched is Ok && (fetched->Ok_0).deep_view() is Body,
        packument is Ok ==> (packument->Ok_0).deep_view() == (
        fetched->Ok_0).deep_view()->Body_packument,
        fetched is Err ==> packument is Err && (packument->Err_0).deep_view() == (
        fetched->Err_0).deep_view(),
{
}

/// A failure on the way is tried again, whether or not it was for want of time,
/// and so is a body that breaks off or makes no sense.
pub proof fn failures_on_the_way_are_tried_again(
    url: &str,
    timed_out: bool,
    source: &str,
    first: (RegistryError, Retry),
    second: (RegistryError, Retry),
)
    requires
        call_ensures(from_transport, (url, timed_out, source), first),
        call_ensures(from_metadata_body, (url, timed_out, source), second),
    ensures
        first.1 == Retry::Transient && second.1 == Retry::Transient,
        timed_out <==> first.0.deep_view() is Stalled,
        timed_out <==> second.0.deep_view() is Stalled,
        !timed_out ==> first.0.deep_view() is Network && second.0.deep_view() is MalformedResponse,
{
}

/// A version that is not there is told apart from a package that is not.
pub proof fn missing_versions_are_told_apart(
    name: &str,
    version: &str,
    probe: Result<bool, RegistryError>,
    error: RegistryError,
)
    requires
        call_ensures(missing_version, (name, version, probe), error),
    ensures
        probe is Ok ==> (error.deep_view() is VersionNotFound <==> probe->Ok_0),
        probe is Ok ==> (error.deep_view() is PackageNotFound <==> !probe->Ok_0),
        probe is Err ==> error.deep_view() == (probe->Err_0).deep_view(),
{
}

/// A project is started exactly where there is none yet, and under the name of
/// its directory.
pub proof fn projects_go_by_their_directory(
    project_dir: &str,
    taken: bool,
    started: Result<(String, Manifest), ManifestError>,
)
    requires
        call_ensures(init, (project_dir, taken), started),
    ensures
        started is Ok <==> !taken && last_name(project_dir@) is Some,
        started is Ok ==> {
            let manifest = (started->Ok_0).1.deep_view();
            &&& (started->Ok_0).0@ == put_after(project_dir@, "package.json"@)
            &&& manifest.path == put_after(project_dir@, "package.json"@)
            &&& manifest.members.len() == 5
            &&& manifest.members[0] == ("name"@, crate::json::Json::Text(
                last_name(project_dir@)->0,
            ))
            &&& manifest.members[1] == ("version"@, crate::json::Json::Text("1.0.0"@))
        },
{
}

/// What is asked for on the command line: a package to add, in the section for
/// development only where that is said, or else everything that is declared,
/// without what is for development only where that is said.
pub proof fn commands_say_what_they_mean(command: &Command, intent: Result<Intent, CliError>)
    requires
        call_ensures(Command::intent, (command,), intent),
    ensures
        *command is Init ==> intent is Ok && intent->Ok_0 is Create,
        *command is Install && (*command)->spec is None ==> intent is Ok && intent->Ok_0
            == Intent::Sync(
            if (*command)->production {
                Mode::Production
            } else {
                Mode::Develop
            },
        ),
        *command is Install && (*command)->spec is Some && intent is Ok ==> intent->Ok_0 is Add && (
        intent->Ok_0)->kind == if (*command)->save_dev {
            Some(Kind::Dev)
        } else {
            None
        },
{
}

/// Bytes are accepted exactly where they hash to what they should.
pub proof fn only_what_hashes_right_is_accepted(
    integrity: &Integrity,
    bytes: &[u8],
    verdict: Result<(), IntegrityError>,
)
    requires
        call_ensures(Integrity::verify, (integrity, bytes), verdict),
    ensures
        verdict is Ok <==> integrity.digest@ == match integrity.algo {
            Algo::Sha512 => crate::integrity::sha512_of(bytes@),
            Algo::Sha1 => crate::integrity::sha1_of(bytes@),
        },
        verdict is Err ==> (verdict->Err_0).deep_view() is Mismatch,
{
}

/// A range is what parses as one and not as a version, and it is handed on as
/// it was written.
pub proof fn ranges_are_not_versions(seed: &str, range: Option<&str>)
    requires
        call_ensures(declared_range, (seed,), range),
    ensures
        range is Some <==> range_parses(seed@) && !version_parses(seed@),
        range is Some ==> (range->0)@ == seed@,
{
}

/// A directory belongs to the nearest member above it. One that is nowhere in
/// the workspace is refused, and so is one that only the root encloses and
/// that is not the root, where there are other members to choose from.
pub proof fn directories_are_placed(
    workspace: &Workspace,
    dir: &str,
    resolved: Option<&str>,
    importer: Result<ImporterPath, JerkyError>,
)
    requires
        call_ensures(importer_for, (workspace, dir, resolved), importer),
    ensures
        ({
            let place = match resolved {
                Some(resolved) => resolved@,
                None => dir@,
            };
            let member = nearest_member(workspace.deep_view(), place);
            &&& importer is Ok ==> member is Some && (importer->Ok_0).deep_view() == (
            member->0).importer
            &&& member is Some && (member->0).importer != root_path() ==> importer is Ok
            &&& member is Some && resolved is Some && steps(place) == steps((member->0).path)
                ==> importer is Ok
            &&& member is Some && workspace.deep_view().members.dom().len() <= 1 ==> importer is Ok
            &&& member is None ==> importer is Err && importer->Err_0 is NoManifestAnywhere
        }),
{
}

} // verus!
