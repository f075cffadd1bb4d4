//! Kally's verified core: the Git-first package manager's bounded text values,
//! source and lockfile policy, lockfile and manifest grammar, checksums of
//! package trees, and the resolution, sync, status and update decisions.
//!
//! Reading and writing files, walking package trees and running Git stay with
//! the caller, which hands the library what it observed (file texts, tree
//! listings, cache states, resolved commits) and performs what it decides.
pub mod bounded;
pub mod policy;
pub mod text;
pub mod package_map;
pub mod model;
pub mod rules;
pub mod output;
pub mod checksum;
pub mod syntax;
pub mod lockfile;
pub mod manifest;
pub mod roundtrip;
pub mod audit;
pub mod status;
pub mod sync;
pub mod cache;
pub mod tree;
pub mod update;

pub use audit::{verify, CachedTree};
pub use bounded::{BoundedString, Text};
pub use cache::{check_materialized, check_offline, record_checksums, sync_preflight, sync_source};
pub use checksum::{checksum, checksum_bytes};
pub use lockfile::{parse_lock, render_lock};
pub use manifest::{parse_manifest, render_manifest};
pub use model::{Lock, Manifest, ManifestPackage, Package, ResolutionAction, SourceKind};
pub use package_map::PackageMap;
pub use rules::{
    checksum_valid, git_source, git_source_valid, manifest_package_valid, path_source_valid,
    reference_valid, resolution_action, revision_valid, source_kind, source_payload, valid_name,
};
pub use status::{all_healthy, declared_names, package_status, package_statuses, PackageStatus};
pub use sync::{
    check_locked, reconcile_lock, reconcile_step, resolved_package, retain_declared, sync_plan,
    ReconcileStep, SyncPlan,
};
pub use tree::{relative_name, tree_checksum};
pub use update::{
    added_package, finish_update, plan_update, requested_reference, updated_package, UpdatePlan,
};
