//! Starting a project.

use vstd::prelude::*;
use vstd::string::*;
use crate::manifest::{default_members, Manifest, ManifestError, ManifestFault, ManifestModel};
use crate::path::{last_name, put_after};

verus! {

/// The manifest to write into a directory so that it is a project, and where.
/// `taken` says whether anything is there already, which is never overwritten.
pub fn init(project_dir: &str, taken: bool) -> (started: Result<(String, Manifest), ManifestError>)
    ensures
        match started {
            Ok((path, manifest)) => {
                &&& !taken
                &&& last_name(project_dir@) is Some
                &&& path@ == put_after(project_dir@, "package.json"@)
                &&& manifest.deep_view() == (ManifestModel {
                    path: path@,
                    members: default_members(last_name(project_dir@)->0),
                })
            },
            Err(error) => if taken {
                error.deep_view() == ManifestFault::AlreadyExists(
                    put_after(project_dir@, "package.json"@),
                )
            } else {
                last_name(project_dir@) is None && error.deep_view()
                    == ManifestFault::UnnameableDirectory(project_dir@)
            },
        },
{
    match Manifest::create_default(project_dir, taken) {
        Ok(manifest) => Ok((manifest.path().to_owned(), manifest)),
        Err(error) => Err(error),
    }
}

} // verus!
