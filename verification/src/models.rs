//! The records a scan produces and the live progress of a running scan.

use vstd::prelude::*;
use crate::rank::Ranked;

verus! {

/// One file found by a scan.
#[derive(Debug)]
pub struct FileEntry {
    /// The file's name (last path component).
    pub name: String,
    /// The file's full path.
    pub path: String,
    /// Size in bytes.
    pub size: u64,
    /// Last modification, Unix timestamp in seconds (0 when unknown).
    pub modified: u64,
    /// Lower-cased extension, or `no extension`.
    pub extension: String,
}

impl Ranked for FileEntry {
    /// Files rank by size.
    open spec fn rank(&self) -> nat {
        self.size as nat
    }

    fn rank_of(&self) -> (r: u64) {
        self.size
    }
}

impl Clone for FileEntry {
    fn clone(&self) -> (r: Self)
        ensures
            r == *self,
    {
        FileEntry {
            name: self.name.clone(),
            path: self.path.clone(),
            size: self.size,
            modified: self.modified,
            extension: self.extension.clone(),
        }
    }
}

/// The outcome of a completed scan.
#[derive(Debug, Clone)]
pub struct ScanResults {
    /// The directory that was scanned.
    pub scanned_path: String,
    /// Sum of the sizes of all files counted.
    pub total_size: u64,
    /// Number of files counted.
    pub total_files: u64,
    /// The largest files, largest first (at most 100).
    pub top_files: Vec<FileEntry>,
    /// Total size per extension label, largest first.
    pub ext_breakdown: Vec<(String, u64)>,
    /// Total size per directory (counting everything below it), largest
    /// first (at most 20).
    pub dir_breakdown: Vec<(String, u64)>,
    /// Wall-clock duration of the scan in milliseconds.
    pub scan_duration_ms: u64,
    /// Messages of the entries that could not be read.
    pub errors: Vec<String>,
}

/// Live counters of a running scan, shared between the scanning worker and
/// the dashboard.
#[derive(Debug)]
pub struct ScanProgressState {
    /// Files counted so far.
    pub files_scanned: u64,
    /// Bytes counted so far.
    pub bytes_scanned: u64,
    /// Entries that could not be read so far.
    pub errors_count: u64,
    /// Whether a scan is running.
    pub scanning: bool,
    /// When the current scan started: a reading of the monotonic clock in
    /// milliseconds.
    pub scan_start: Option<u64>,
}

impl ScanProgressState {
    /// Idle counters: everything zero, no scan running, no start time.
    pub fn new() -> (s: Self)
        ensures
            s.files_scanned == 0,
            s.bytes_scanned == 0,
            s.errors_count == 0,
            !s.scanning,
            s.scan_start is None,
    {
        ScanProgressState {
            files_scanned: 0,
            bytes_scanned: 0,
            errors_count: 0,
            scanning: false,
            scan_start: None,
        }
    }

    /// Starts a new scan at the clock reading `now`: counters back to zero,
    /// running, started at `now`.
    pub fn reset(&mut self, now: u64)
        ensures
            final(self).files_scanned == 0,
            final(self).bytes_scanned == 0,
            final(self).errors_count == 0,
            final(self).scanning,
            final(self).scan_start == Some(now),
    {
        self.files_scanned = 0;
        self.bytes_scanned = 0;
        self.errors_count = 0;
        self.scanning = true;
        self.scan_start = Some(now);
    }

    /// Counts one file of `size` bytes (the counters wrap around on overflow).
    pub fn count_file(&mut self, size: u64)
        ensures
            final(self).files_scanned == old(self).files_scanned.wrapping_add(1),
            final(self).bytes_scanned == old(self).bytes_scanned.wrapping_add(size),
            final(self).errors_count == old(self).errors_count,
            final(self).scanning == old(self).scanning,
            final(self).scan_start == old(self).scan_start,
    {
        self.files_scanned = self.files_scanned.wrapping_add(1);
        self.bytes_scanned = self.bytes_scanned.wrapping_add(size);
    }

    /// Counts one entry that could not be read (wrapping around on overflow).
    pub fn count_error(&mut self)
        ensures
            final(self).errors_count == old(self).errors_count.wrapping_add(1),
            final(self).files_scanned == old(self).files_scanned,
            final(self).bytes_scanned == old(self).bytes_scanned,
            final(self).scanning == old(self).scanning,
            final(self).scan_start == old(self).scan_start,
    {
        self.errors_count = self.errors_count.wrapping_add(1);
    }

    /// Marks the scan as finished; the counters keep their values.
    pub fn finish(&mut self)
        ensures
            !final(self).scanning,
            final(self).files_scanned == old(self).files_scanned,
            final(self).bytes_scanned == old(self).bytes_scanned,
            final(self).errors_count == old(self).errors_count,
            final(self).scan_start == old(self).scan_start,
    {
        self.scanning = false;
    }

    /// Average size of the files counted so far (0 before any file).
    pub fn average_file_size(&self) -> (avg: u64)
        ensures
            self.files_scanned == 0 ==> avg == 0,
            self.files_scanned > 0 ==> avg == self.bytes_scanned / self.files_scanned,
    {
        if self.files_scanned > 0 {
            self.bytes_scanned / self.files_scanned
        } else {
            0
        }
    }
}

} // verus!
