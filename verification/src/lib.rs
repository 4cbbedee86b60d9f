//! Disk-usage aggregation engine: walks a snapshot of a directory tree,
//! builds one raw node per readable path, deduplicates hardlinked entries,
//! and folds child sizes into parent totals.

pub mod dirwalker;
pub mod laws;
pub mod node;
