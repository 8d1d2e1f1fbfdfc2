//! Aggregate scan counters: monotonically increasing, combined by plain
//! sums, so aggregation order across workers cannot change the totals.

use vstd::prelude::*;

verus! {

/// Counters accumulated over a scan: regular files fed to a selector,
/// directories discovered, and entries or directories that failed.
#[derive(Debug, Clone, Copy, PartialEq, Eq, Structural)]
pub struct ScanStats {
    pub files_scanned: u64,
    pub dirs_scanned: u64,
    pub errors: u64,
}

impl ScanStats {
    /// Fresh counters, all zero.
    pub fn new() -> (r: Self)
        ensures
            r.files_scanned == 0,
            r.dirs_scanned == 0,
            r.errors == 0,
    {
        ScanStats { files_scanned: 0, dirs_scanned: 0, errors: 0 }
    }

    /// Adds another worker's counters into these, field by field.
    pub fn merge_from(&mut self, other: &ScanStats)
        requires
            old(self).files_scanned + other.files_scanned <= u64::MAX,
            old(self).dirs_scanned + other.dirs_scanned <= u64::MAX,
            old(self).errors + other.errors <= u64::MAX,
        ensures
            final(self).files_scanned == old(self).files_scanned + other.files_scanned,
            final(self).dirs_scanned == old(self).dirs_scanned + other.dirs_scanned,
            final(self).errors == old(self).errors + other.errors,
    {
        self.files_scanned = self.files_scanned + other.files_scanned;
        self.dirs_scanned = self.dirs_scanned + other.dirs_scanned;
        self.errors = self.errors + other.errors;
    }

    /// Counts one failure: a directory that could not be opened or
    /// listed, charged once, never retried.
    pub fn record_error(&mut self)
        requires
            old(self).errors < u64::MAX,
        ensures
            final(self).errors == old(self).errors + 1,
            final(self).files_scanned == old(self).files_scanned,
            final(self).dirs_scanned == old(self).dirs_scanned,
    {
        self.errors = self.errors + 1;
    }
}

impl Default for ScanStats {
    fn default() -> (r: Self)
        ensures
            r.files_scanned == 0,
            r.dirs_scanned == 0,
            r.errors == 0,
    {
        ScanStats::new()
    }
}

} // verus!
