//! jerky: the decisions a JavaScript package manager makes, with proofs.

pub mod archive;
pub mod binaries;
pub mod cache_laws;
pub mod clear_laws;
pub mod cli;
pub mod complaint_laws;
pub mod complaints;
pub mod copies;
pub mod copy_laws;
pub mod decision_laws;
pub mod directory;
pub mod error;
pub mod fixture_laws;
pub mod gates;
pub mod globs;
pub mod graph;
pub mod http;
pub mod http_laws;
pub mod importer;
pub mod init;
pub mod install;
pub mod install_laws;
pub mod instance;
pub mod integrity;
pub mod json;
pub mod link_laws;
pub mod linker;
pub mod lock_laws;
pub mod lock_text_laws;
pub mod lockfile;
pub mod manifest;
pub mod metadata_cache;
pub mod name_laws;
pub mod naming;
pub mod order;
pub mod package_id;
pub mod path;
pub mod peer_laws;
pub mod peer_lock_laws;
pub mod peer_pass;
pub mod peers;
pub mod plan;
pub mod plan_laws;
pub mod planning;
pub mod platform;
pub mod platform_laws;
pub mod pool;
pub mod prune_laws;
pub mod range;
pub mod reach_laws;
pub mod reading_laws;
pub mod record_laws;
pub mod registry;
pub mod report;
pub mod resolution_laws;
pub mod resolver;
pub mod rewrite_laws;
pub mod settle_laws;
pub mod sight_laws;
pub mod sorted;
pub mod specifier;
pub mod store;
pub mod sync;
pub mod sync_laws;
pub mod tarball;
pub mod testing;
pub mod text;
pub mod tree_laws;
pub mod unpack_laws;
pub mod walk;
pub mod walk_laws;
pub mod way_laws;
pub mod workspace;
pub mod workspace_laws;

pub use order::Order;
