//! Everything that can go wrong.

use vstd::prelude::*;
use crate::archive::ArchiveError;
use crate::cli::CliError;
use crate::install::InstallError;
use crate::integrity::IntegrityError;
use crate::linker::LinkError;
use crate::lockfile::LockfileError;
use crate::manifest::ManifestError;
use crate::range::RangeError;
use crate::registry::RegistryError;
use crate::specifier::ResolveError;
use crate::store::StoreError;
use crate::workspace::WorkspaceError;

verus! {

/// Everything that can go wrong.
#[derive(Debug)]
pub enum JerkyError {
    Cli(CliError),
    Manifest(ManifestError),
    Integrity(IntegrityError),
    Archive(ArchiveError),
    Store(StoreError),
    Link(LinkError),
    Range(RangeError),
    Registry(RegistryError),
    Resolve(ResolveError),
    /// What is wrong with the lockfile at a path.
    Lockfile { path: String, source: LockfileError },
    Install(InstallError),
    Workspace(WorkspaceError),
    /// The current directory is not known, and why.
    Cwd(String),
    NoHomeDirectory,
    NoManifestAnywhere(String),
    /// A directory of the workspace that belongs to no project of it.
    NotInAMember { directory: String, members: Vec<String> },
}

} // verus!
