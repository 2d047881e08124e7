//! The counters of a snapshot run: what the tree walk saw, and what the
//! repository gained during it.
use vstd::prelude::*;

verus! {

/// The repository's totals at one moment.
#[derive(Clone, Copy, Debug, PartialEq, Eq, Structural)]
pub struct RepositoryInfo {
    pub raw_data_size: u64,
    pub encoded_data_size: u64,
    pub bundle_count: u64,
    pub chunk_count: u64,
}

/// The integer counters of a snapshot.
#[derive(Clone, Copy, Debug, PartialEq, Eq, Structural)]
pub struct BackupStats {
    pub total_data_size: u64,
    pub changed_data_size: u64,
    pub deduplicated_data_size: u64,
    pub encoded_data_size: u64,
    pub bundle_count: u64,
    pub chunk_count: u64,
    pub file_count: u64,
    pub dir_count: u64,
}

/// `a + b`, or the largest `u64` when that does not fit.
pub open spec fn sat_add(a: u64, b: u64) -> u64 {
    if a + b > u64::MAX {
        u64::MAX
    } else {
        (a + b) as u64
    }
}

/// `a - b`, or zero when `b` is larger.
pub open spec fn sat_sub(a: u64, b: u64) -> u64 {
    if a < b {
        0
    } else {
        (a - b) as u64
    }
}

/// Whether an entry's data counts as changed: it has no counterpart in the
/// reference snapshot, or the counterpart differs.
pub open spec fn entry_changed(has_reference: bool, unchanged: bool) -> bool {
    !has_reference || !unchanged
}

impl BackupStats {
    /// All counters at zero.
    pub fn new() -> (r: BackupStats)
        ensures
            r == (BackupStats {
                total_data_size: 0,
                changed_data_size: 0,
                deduplicated_data_size: 0,
                encoded_data_size: 0,
                bundle_count: 0,
                chunk_count: 0,
                file_count: 0,
                dir_count: 0,
            }),
    {
        BackupStats {
            total_data_size: 0,
            changed_data_size: 0,
            deduplicated_data_size: 0,
            encoded_data_size: 0,
            bundle_count: 0,
            chunk_count: 0,
            file_count: 0,
            dir_count: 0,
        }
    }

    /// Counts one entry of the walk: its size in the total, in the changed
    /// size when it changed since the reference, and as a file or a directory.
    /// The sums saturate.
    pub fn account_entry(&mut self, size: u64, has_reference: bool, unchanged: bool, is_dir: bool)
        ensures
            final(self).total_data_size == sat_add(old(self).total_data_size, size),
            final(self).changed_data_size == if entry_changed(has_reference, unchanged) {
                sat_add(old(self).changed_data_size, size)
            } else {
                old(self).changed_data_size
            },
            final(self).dir_count == if is_dir { sat_add(old(self).dir_count, 1) } else { old(self).dir_count },
            final(self).file_count == if is_dir { old(self).file_count } else { sat_add(old(self).file_count, 1) },
            final(self).deduplicated_data_size == old(self).deduplicated_data_size,
            final(self).encoded_data_size == old(self).encoded_data_size,
            final(self).bundle_count == old(self).bundle_count,
            final(self).chunk_count == old(self).chunk_count,
    {
        self.total_data_size = self.total_data_size.saturating_add(size);
        if !has_reference || !unchanged {
            self.changed_data_size = self.changed_data_size.saturating_add(size);
        }
        if is_dir {
            self.dir_count = self.dir_count.saturating_add(1);
        } else {
            self.file_count = self.file_count.saturating_add(1);
        }
    }

    /// Sets the counters that the repository gained during the run: the
    /// differences between its totals after and before (zero where a total shrank).
    pub fn finish(&mut self, before: &RepositoryInfo, after: &RepositoryInfo)
        ensures
            final(self).deduplicated_data_size == sat_sub(after.raw_data_size, before.raw_data_size),
            final(self).encoded_data_size == sat_sub(after.encoded_data_size, before.encoded_data_size),
            final(self).bundle_count == sat_sub(after.bundle_count, before.bundle_count),
            final(self).chunk_count == sat_sub(after.chunk_count, before.chunk_count),
            final(self).total_data_size == old(self).total_data_size,
            final(self).changed_data_size == old(self).changed_data_size,
            final(self).file_count == old(self).file_count,
            final(self).dir_count == old(self).dir_count,
    {
        self.deduplicated_data_size = after.raw_data_size.saturating_sub(before.raw_data_size);
        self.encoded_data_size = after.encoded_data_size.saturating_sub(before.encoded_data_size);
        self.bundle_count = after.bundle_count.saturating_sub(before.bundle_count);
        self.chunk_count = after.chunk_count.saturating_sub(before.chunk_count);
    }
}

} // verus!
