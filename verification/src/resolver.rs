//! Everything about resolving, in one place: what is asked for, who asks, and
//! what it comes to.

pub use crate::complaints::{unsatisfied_peers, UnsatisfiedPeer};
pub use crate::graph::{
    Declared, DeclaredPeer, Dependency, Importer, Kind, Resolution, ResolvedGraph, ResolvedPackage,
};
pub use crate::importer::{local_path, ImporterPath, ImporterPathError};
pub use crate::package_id::{split_key, split_name_and_version, Context, PackageId};
pub use crate::peer_pass::resolve_peers;
pub use crate::specifier::{
    alias_target, split_target, ResolveError, ALIAS_PROTOCOL, WORKSPACE_PROTOCOL,
};
pub use crate::walk::{resolve, resolve_watching};
