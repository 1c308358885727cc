//! The one-backup-per-session rule.
//!
//! The record remembers which chapter paths have already been backed
//! up while the process runs. Only the first save of a file copies it
//! to its backup path; later saves skip the copy. The checks against
//! the file system — whether the file exists, and whether the copy
//! succeeded — are handed in as plain values, so the decision itself
//! is one step from state and outcome to new state and result.

use vstd::prelude::*;

verus! {

/// Why a backup step failed.
#[derive(Clone, Copy, Debug, PartialEq, Eq, Structural)]
pub enum BackupError {
    /// The copy to the backup path could not be made. The path stays
    /// unrecorded, so a later save retries the backup.
    CopyFailed,
}

/// What one backup-gated save returns, given whether the path was
/// already recorded, whether the file exists, and whether the copy
/// succeeded.
pub open spec fn backup_outcome(recorded: bool, file_exists: bool, copy_ok: bool) -> Result<
    bool,
    BackupError,
> {
    if recorded {
        Ok(false)
    } else if file_exists && !copy_ok {
        Err(BackupError::CopyFailed)
    } else {
        Ok(true)
    }
}

/// Whether the path is recorded after one backup-gated save.
pub open spec fn backup_records(recorded: bool, file_exists: bool, copy_ok: bool) -> bool {
    if recorded {
        true
    } else {
        !(file_exists && !copy_ok)
    }
}

/// Whether a copy must be made at all: the path is unrecorded and the
/// file is on disk.
pub open spec fn copy_needed(recorded: bool, file_exists: bool) -> bool {
    !recorded && file_exists
}

/// Tracks which files have been backed up in this session.
/// Only the first save per file creates a backup copy.
pub struct BackupTracker {
    backed_up: Vec<String>,
}

impl BackupTracker {
    /// `p` has been recorded as backed up this session.
    pub closed spec fn is_recorded(self, p: Seq<char>) -> bool {
        exists|i: int| 0 <= i < self.backed_up@.len() && self.backed_up@[i]@ == p
    }

    /// Create a new empty record.
    pub fn new() -> (r: Self)
        ensures
            forall|p: Seq<char>| !r.is_recorded(p),
    {
        BackupTracker { backed_up: Vec::new() }
    }

    /// Whether `path` is already recorded.
    fn contains(&self, path: &String) -> (r: bool)
        ensures
            r == self.is_recorded(path@),
    {
        let mut i: usize = 0;
        while i < self.backed_up.len()
            invariant
                i <= self.backed_up@.len(),
                forall|t: int| 0 <= t < i ==> self.backed_up@[t]@ != path@,
            decreases self.backed_up@.len() - i,
        {
            if self.backed_up[i].eq(path) {
                return true;
            }
            i += 1;
        }
        false
    }

    /// Whether saving `path` now must first copy it to its backup
    /// path: it is unrecorded and the file is on disk.
    pub fn needs_copy(&self, path: &String, file_exists: bool) -> (r: bool)
        ensures
            r == copy_needed(self.is_recorded(path@), file_exists),
    {
        !self.contains(path) && file_exists
    }

    /// Record the outcome of one backup-gated save of `path`.
    ///
    /// `file_exists` says whether the file is on disk; `copy_ok` says
    /// whether the copy to the backup path succeeded, and matters only
    /// when a copy was needed. Returns whether a backup was recorded
    /// just now; an already-recorded path is left alone, and a failed
    /// copy leaves the path unrecorded so a later save retries it.
    pub fn backup_if_needed(&mut self, path: &String, file_exists: bool, copy_ok: bool) -> (r:
        Result<bool, BackupError>)
        ensures
            r == backup_outcome(old(self).is_recorded(path@), file_exists, copy_ok),
            final(self).is_recorded(path@) == backup_records(
                old(self).is_recorded(path@),
                file_exists,
                copy_ok,
            ),
            forall|q: Seq<char>|
                q != path@ ==> final(self).is_recorded(q) == old(self).is_recorded(q),
    {
        if self.contains(path) {
            return Ok(false);
        }
        if file_exists && !copy_ok {
            return Err(BackupError::CopyFailed);
        }
        let ghost prev = self.backed_up@;
        self.backed_up.push(path.clone());
        proof {
            assert(self.backed_up@[prev.len() as int]@ == path@);
            assert forall|q: Seq<char>| q != path@ implies self.is_recorded(q) == old(
                self,
            ).is_recorded(q) by {
                if old(self).is_recorded(q) {
                    let i = choose|i: int| 0 <= i < prev.len() && prev[i]@ == q;
                    assert(self.backed_up@[i]@ == q);
                }
                if self.is_recorded(q) {
                    let i = choose|i: int|
                        0 <= i < self.backed_up@.len() && self.backed_up@[i]@ == q;
                    assert(i < prev.len());
                    assert(prev[i]@ == q);
                }
            }
        }
        Ok(true)
    }
}

/// The backup is made at most once per session. A first save of an
/// unrecorded path reports a backup and records the path, and a second
/// save of the same path reports none — whether or not the file ever
/// existed. For a path that never exists no copy is needed on either
/// save, and once a path is recorded no save of it needs a copy again.
pub proof fn lemma_backup_once(file_exists: bool)
    ensures
        backup_outcome(false, file_exists, true) == Ok::<bool, BackupError>(true),
        backup_records(false, file_exists, true),
        backup_outcome(backup_records(false, file_exists, true), file_exists, true) == Ok::<
            bool,
            BackupError,
        >(false),
        !copy_needed(false, false),
        forall|fe: bool| !copy_needed(backup_records(false, fe, true), false),
        forall|fe: bool| !copy_needed(true, fe),
{
}

} // verus!
