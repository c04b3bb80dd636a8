//! The counters of a backup run.
use vstd::prelude::*;
use crate::parent::ParentResult;

verus! {

/// `a + d`, held at the largest `u64`.
pub open spec fn sat(a: u64, d: u64) -> u64 {
    if a as int + d as int > u64::MAX as int { u64::MAX } else { (a + d) as u64 }
}

/// Adds `d` to `a`, held at the largest `u64`.
pub fn bump(a: u64, d: u64) -> (r: u64)
    ensures
        r == sat(a, d),
{
    if a > u64::MAX - d { u64::MAX } else { a + d }
}

/// Counts of new, changed and unchanged entries and of the bytes read and added.
#[derive(Debug, Clone, Copy, PartialEq, Eq, Structural, Default)]
pub struct SnapshotSummary {
    pub files_new: u64,
    pub files_changed: u64,
    pub files_unmodified: u64,
    pub dirs_new: u64,
    pub dirs_changed: u64,
    pub dirs_unmodified: u64,
    pub data_blobs: u64,
    pub tree_blobs: u64,
    pub data_added: u64,
    pub data_added_packed: u64,
    pub data_added_files: u64,
    pub data_added_files_packed: u64,
    pub data_added_trees: u64,
    pub data_added_trees_packed: u64,
    pub total_files_processed: u64,
    pub total_dirs_processed: u64,
    pub total_bytes_processed: u64,
    pub total_dirsize_processed: u64,
}

impl SnapshotSummary {
    /// All counters zero.
    pub fn zero() -> (r: SnapshotSummary)
        ensures
            r == SnapshotSummary::spec_zero(),
    {
        SnapshotSummary {
            files_new: 0,
            files_changed: 0,
            files_unmodified: 0,
            dirs_new: 0,
            dirs_changed: 0,
            dirs_unmodified: 0,
            data_blobs: 0,
            tree_blobs: 0,
            data_added: 0,
            data_added_packed: 0,
            data_added_files: 0,
            data_added_files_packed: 0,
            data_added_trees: 0,
            data_added_trees_packed: 0,
            total_files_processed: 0,
            total_dirs_processed: 0,
            total_bytes_processed: 0,
            total_dirsize_processed: 0,
        }
    }

    pub open spec fn spec_zero() -> SnapshotSummary {
        SnapshotSummary {
            files_new: 0,
            files_changed: 0,
            files_unmodified: 0,
            dirs_new: 0,
            dirs_changed: 0,
            dirs_unmodified: 0,
            data_blobs: 0,
            tree_blobs: 0,
            data_added: 0,
            data_added_packed: 0,
            data_added_files: 0,
            data_added_files_packed: 0,
            data_added_trees: 0,
            data_added_trees_packed: 0,
            total_files_processed: 0,
            total_dirs_processed: 0,
            total_bytes_processed: 0,
            total_dirsize_processed: 0,
        }
    }

    /// The counts after a file of `size` bytes, which the parent judged `r`.
    pub open spec fn count_file(self, r: ParentResult, size: u64) -> SnapshotSummary {
        SnapshotSummary {
            files_unmodified: if r is Matched { sat(self.files_unmodified, 1) } else { self.files_unmodified },
            files_changed: if r is NotMatched { sat(self.files_changed, 1) } else { self.files_changed },
            files_new: if r is NotFound { sat(self.files_new, 1) } else { self.files_new },
            total_files_processed: sat(self.total_files_processed, 1),
            total_bytes_processed: sat(self.total_bytes_processed, size),
            ..self
        }
    }

    /// The counts after a directory whose listing takes `size` bytes.
    pub open spec fn count_dir(self, size: u64) -> SnapshotSummary {
        SnapshotSummary {
            total_dirs_processed: sat(self.total_dirs_processed, 1),
            total_dirsize_processed: sat(self.total_dirsize_processed, size),
            ..self
        }
    }

    /// The counts after a new data blob of `size` bytes credited `packed` bytes.
    pub open spec fn count_data(self, packed: u64, size: u64) -> SnapshotSummary {
        if packed == 0 {
            self
        } else {
            SnapshotSummary {
                data_blobs: sat(self.data_blobs, 1),
                data_added: sat(self.data_added, size),
                data_added_packed: sat(self.data_added_packed, packed),
                data_added_files: sat(self.data_added_files, size),
                data_added_files_packed: sat(self.data_added_files_packed, packed),
                ..self
            }
        }
    }

    /// The counts after a directory listing of `size` bytes, judged `r`
    /// by the parent, unchanged or not, whose blob credited `packed` bytes.
    pub open spec fn count_tree(self, unchanged: bool, r: ParentResult, packed: u64, size: u64) -> SnapshotSummary {
        if unchanged {
            SnapshotSummary { dirs_unmodified: sat(self.dirs_unmodified, 1), ..self }
        } else {
            let s = if r is NotFound {
                SnapshotSummary { dirs_new: sat(self.dirs_new, 1), ..self }
            } else {
                SnapshotSummary { dirs_changed: sat(self.dirs_changed, 1), ..self }
            };
            if packed == 0 {
                s
            } else {
                SnapshotSummary {
                    tree_blobs: sat(s.tree_blobs, 1),
                    data_added: sat(s.data_added, size),
                    data_added_packed: sat(s.data_added_packed, packed),
                    data_added_trees: sat(s.data_added_trees, size),
                    data_added_trees_packed: sat(s.data_added_trees_packed, packed),
                    ..s
                }
            }
        }
    }

    /// The file and byte counts of two summaries agree.
    pub open spec fn same_file_counts(self, o: SnapshotSummary) -> bool {
        &&& self.files_new == o.files_new
        &&& self.files_changed == o.files_changed
        &&& self.files_unmodified == o.files_unmodified
        &&& self.total_files_processed == o.total_files_processed
        &&& self.total_bytes_processed == o.total_bytes_processed
    }
}

} // verus!
