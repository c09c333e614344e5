//! File-change bookkeeping for the watch loop.
//!
//! Timestamps are carried as plain milliseconds; reading them off the
//! filesystem is the caller's business, the decision whether a file
//! needs another pass is made here.
use vstd::prelude::*;

verus! {

/// A file counts as modified only when its mtime is more than this many
/// milliseconds past the last look.
pub const WATCH_TOLERANCE_MS: u64 = 10;

/// What the watcher knows about one file it keeps an eye on: timestamps
/// in milliseconds, creation time where the platform reports one.
#[derive(Debug, Clone)]
pub struct FileInfo {
    pub file: String,
    pub ctime: Option<u64>,
    pub now: u64,
    pub mtime: u64,
    pub last_checked: u64,
}

impl FileInfo {
    /// The same file with fresh timestamps, as re-read by the caller;
    /// the moment of the refresh becomes the new last look.
    pub fn refresh(self, ctime: Option<u64>, mtime: u64, now: u64) -> (r: FileInfo)
        ensures
            r.file == self.file,
            r.ctime == ctime,
            r.mtime == mtime,
            r.now == now,
            r.last_checked == now,
    {
        FileInfo { file: self.file, ctime, now, mtime, last_checked: now }
    }

    /// Has the file been modified since we last looked at it? True
    /// exactly when the mtime lies more than the tolerance past the
    /// last look.
    pub fn should_process(&self) -> (r: bool)
        ensures
            r == (self.mtime >= self.last_checked && self.mtime - self.last_checked
                > WATCH_TOLERANCE_MS),
    {
        self.mtime >= self.last_checked && self.mtime - self.last_checked > WATCH_TOLERANCE_MS
    }
}

} // verus!
