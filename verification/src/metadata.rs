//! Data records describing upstream releases and the updates policy document.
//!
//! These carry no logic of their own; graph assembly consumes them.

use vstd::prelude::*;

verus! {

/// A per-architecture commit payload of a release.
#[derive(Clone, Debug)]
pub struct Commit {
    pub architecture: String,
    pub checksum: String,
}

/// A per-architecture OCI image payload of a release.
#[derive(Clone, Debug)]
pub struct OciImage {
    pub architecture: String,
    pub digest_ref: String,
}

/// A single release from the upstream release index, oldest first.
#[derive(Clone, Debug)]
pub struct Release {
    pub version: String,
    pub commits: Vec<Commit>,
    pub oci_images: Option<Vec<OciImage>>,
}

/// Barrier marker for a release, with an optional free-text reason.
#[derive(Clone, Debug)]
pub struct UpdateBarrier {
    pub reason: String,
}

/// Dead-end marker for a release, with an optional free-text reason.
#[derive(Clone, Debug)]
pub struct UpdateDeadend {
    pub reason: String,
}

/// Progressive-rollout directive for a release.
#[derive(Clone, Copy, Debug)]
pub struct UpdateRollout {
    pub start_epoch: Option<u64>,
    pub start_percentage: Option<u64>,
    pub duration_minutes: Option<u64>,
}

/// The optional policy markers attached to one version.
#[derive(Clone, Debug)]
pub struct UpdateMetadata {
    pub barrier: Option<UpdateBarrier>,
    pub deadend: Option<UpdateDeadend>,
    pub rollout: Option<UpdateRollout>,
}

/// One entry of the updates policy document, keyed by version string.
#[derive(Clone, Debug)]
pub struct UpdateEntry {
    pub version: String,
    pub metadata: UpdateMetadata,
}

/// The updates policy document: per-version overrides.
#[derive(Clone, Debug)]
pub struct UpdatesJSON {
    pub releases: Vec<UpdateEntry>,
}

} // verus!
