//! Run statistics: monotonic counters for deleted directories, deleted
//! files, bytes freed and per-item errors.
//!
//! One instance is constructed per run and read once the pipeline has
//! drained.  Counters saturate at their type's maximum instead of wrapping,
//! so a total is always the minimum of the true sum and the maximum.

use vstd::prelude::*;

verus! {

/// `a + b`, saturating at `u64::MAX`.
pub open spec fn sat_add64(a: u64, b: u64) -> u64 {
    if a + b > u64::MAX {
        u64::MAX
    } else {
        (a + b) as u64
    }
}

/// `a + b`, saturating at `usize::MAX`.
pub open spec fn sat_add_usize(a: usize, b: usize) -> usize {
    if a + b > usize::MAX {
        usize::MAX
    } else {
        (a + b) as usize
    }
}

/// Statistics for one scan-and-delete run.
pub struct Stats {
    pub directories_deleted: usize,
    pub files_deleted: usize,
    pub bytes_freed: u64,
    pub errors: usize,
}

impl Stats {
    /// A fresh instance with every counter at zero.
    pub fn new() -> (r: Stats)
        ensures
            r.directories_deleted == 0,
            r.files_deleted == 0,
            r.bytes_freed == 0,
            r.errors == 0,
    {
        Stats { directories_deleted: 0, files_deleted: 0, bytes_freed: 0, errors: 0 }
    }

    /// Count one deleted directory.
    pub fn add_directory(&mut self)
        ensures
            final(self).directories_deleted == sat_add_usize(old(self).directories_deleted, 1),
            final(self).files_deleted == old(self).files_deleted,
            final(self).bytes_freed == old(self).bytes_freed,
            final(self).errors == old(self).errors,
    {
        if self.directories_deleted < usize::MAX {
            self.directories_deleted = self.directories_deleted + 1;
        }
    }

    /// Count one deleted file.
    pub fn add_file(&mut self)
        ensures
            final(self).files_deleted == sat_add_usize(old(self).files_deleted, 1),
            final(self).directories_deleted == old(self).directories_deleted,
            final(self).bytes_freed == old(self).bytes_freed,
            final(self).errors == old(self).errors,
    {
        if self.files_deleted < usize::MAX {
            self.files_deleted = self.files_deleted + 1;
        }
    }

    /// Count freed bytes.
    pub fn add_bytes(&mut self, bytes: u64)
        ensures
            final(self).bytes_freed == sat_add64(old(self).bytes_freed, bytes),
            final(self).directories_deleted == old(self).directories_deleted,
            final(self).files_deleted == old(self).files_deleted,
            final(self).errors == old(self).errors,
    {
        if bytes <= u64::MAX - self.bytes_freed {
            self.bytes_freed = self.bytes_freed + bytes;
        } else {
            self.bytes_freed = u64::MAX;
        }
    }

    /// Count one failed deletion.
    pub fn add_error(&mut self)
        ensures
            final(self).errors == sat_add_usize(old(self).errors, 1),
            final(self).directories_deleted == old(self).directories_deleted,
            final(self).files_deleted == old(self).files_deleted,
            final(self).bytes_freed == old(self).bytes_freed,
    {
        if self.errors < usize::MAX {
            self.errors = self.errors + 1;
        }
    }

    /// Directories deleted so far.
    pub fn directories(&self) -> (r: usize)
        ensures
            r == self.directories_deleted,
    {
        self.directories_deleted
    }

    /// Files deleted so far.
    pub fn files(&self) -> (r: usize)
        ensures
            r == self.files_deleted,
    {
        self.files_deleted
    }

    /// Bytes freed so far.
    pub fn bytes(&self) -> (r: u64)
        ensures
            r == self.bytes_freed,
    {
        self.bytes_freed
    }

    /// Deletion failures so far.
    pub fn error_count(&self) -> (r: usize)
        ensures
            r == self.errors,
    {
        self.errors
    }
}

} // verus!
