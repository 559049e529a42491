//! Plain configuration and result shapes of the fetch tooling. The
//! fetching itself is network work and lives with the host; these types
//! carry its declarations and outcomes.

use vstd::prelude::*;

verus! {

/// One fetch target declaration.
pub struct Target {
    pub name: String,
    pub url: String,
    pub semantic_unit: String,
    pub watermark_ttl_hours: u64,
}

/// The full set of fetch targets.
pub struct TargetsConfig {
    pub target: Vec<Target>,
}

/// The outcome of fetching one target.
pub struct FetchResult {
    pub target_name: String,
    pub url: String,
    pub content: Option<String>,
    pub content_hash: String,
    pub changed: bool,
    pub skipped: bool,
    pub error: Option<String>,
}

/// The outcome of a whole fetch cycle.
pub struct FetchSummary {
    pub targets_checked: usize,
    pub targets_changed: usize,
    pub targets_skipped: usize,
    pub targets_errored: usize,
    pub intelligence_updated: bool,
}

} // verus!
