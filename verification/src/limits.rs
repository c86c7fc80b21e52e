//! The declared-limits catalog: every input and enumeration bound the engine
//! enforces, as one declared value, so the catalog, the enforcement sites and
//! the operator documentation cannot drift apart.
use vstd::prelude::*;

verus! {

/// The shipped limits, as one declared value.
#[derive(Debug, Clone, Copy, PartialEq, Eq, Structural)]
pub struct Limits {
    /// Maximum bytes read for any single captured input
    /// (`max-input-size-per-file`).
    pub per_file_bytes: usize,
    /// Maximum total bytes stored in one run's snapshot
    /// (`aggregate-snapshot-size`).
    pub aggregate_bytes: usize,
    /// Maximum flow-collection nesting in a governed body's YAML
    /// (`structural-nesting-depth`).
    pub structural_nesting: usize,
    /// Maximum expression nesting depth.
    pub expr_depth: usize,
    /// Maximum directory depth for the no-follow glob walk.
    pub walk_depth: usize,
    /// Maximum directory entries listed across one glob walk.
    pub walk_entries: usize,
    /// Maximum concurrent verify invocations per project root
    /// (`concurrent-invocation-count`).
    pub concurrent_invocations: usize,
}

/// The shipped catalog.
pub open spec fn shipped_limits() -> Limits {
    Limits {
        per_file_bytes: 8388608,
        aggregate_bytes: 67108864,
        structural_nesting: 256,
        expr_depth: 256,
        walk_depth: 64,
        walk_entries: 100_000,
        concurrent_invocations: 8,
    }
}

/// The shipped catalog: generous values; every change is a contract change.
pub fn shipped() -> (l: Limits)
    ensures
        l == shipped_limits(),
{
    Limits {
        per_file_bytes: 8 * 1024 * 1024,
        aggregate_bytes: 64 * 1024 * 1024,
        structural_nesting: 256,
        expr_depth: 256,
        walk_depth: 64,
        walk_entries: 100_000,
        concurrent_invocations: 8,
    }
}

} // verus!
