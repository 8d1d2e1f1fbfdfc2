//! Finds the N largest regular files under a directory tree.
//!
//! The library holds the deterministic core: the total order on ranked
//! entries, the bounded top-N selector, entry classification from raw
//! metadata, per-directory scan bookkeeping, the level-synchronized
//! traversal state, and the final deterministic merge. Callers perform
//! the filesystem reads and hand the results in as plain values.

pub mod entry;
pub mod selector;
pub mod classify;
pub mod merge;
pub mod scan;
pub mod stats;
pub mod traverse;
