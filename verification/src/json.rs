//! The events of the machine-readable output, one object per line.
use vstd::prelude::*;

verus! {

// ── Find events ──────────────────────────────────────────────────────

/// A file that was found.
pub struct FindResult {
    pub event: &'static str,
    pub path: String,
    pub size: u64,
    pub modified: u64,
}

/// The end of a search.
pub struct FindSummary {
    pub event: &'static str,
    pub checked: u64,
    pub found: u64,
    pub elapsed_ms: u64,
    pub errors: bool,
}

// ── Hash events ──────────────────────────────────────────────────────

/// A snapshot that was written.
pub struct HashComplete {
    pub event: &'static str,
    pub hashed: u64,
    pub snapshot: String,
    pub elapsed_ms: u64,
    pub bytes_hashed: u64,
}

// ── Diff events ──────────────────────────────────────────────────────

/// A file that differs from the snapshot.
pub struct DiffChanged {
    pub event: &'static str,
    pub kind: String,
    pub path: String,
    pub old_hash: Option<String>,
    pub new_hash: Option<String>,
}

/// The end of a comparison.
pub struct DiffSummary {
    pub event: &'static str,
    pub modified: u64,
    pub created: u64,
    pub deleted: u64,
    pub checked: u64,
    pub rehashed: u64,
    pub elapsed_ms: u64,
}

// ── Watch events ─────────────────────────────────────────────────────

/// The start of a watch.
pub struct WatchStarted {
    pub event: &'static str,
    pub path: String,
    pub timestamp: u64,
}

/// A change that a watch saw.
pub struct WatchChange {
    pub event: &'static str,
    pub kind: String,
    pub path: String,
    pub timestamp: u64,
}

} // verus!
