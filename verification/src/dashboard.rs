//! The dashboard's state and the decisions it takes on user actions:
//! notifications, the scan target, the table's sort order, and the
//! confirmation of a deletion.

use vstd::prelude::*;
use crate::models::{FileEntry, ScanResults};
use crate::keep::keep_where;
use crate::paths::{contains_text, text_contains, trim_text, trimmed, path_starts_with, surely_within, surely_outside};
use vstd::string::StringExecFns;

verus! {

/// How long a notification stays up, in milliseconds.
pub const TOAST_MILLIS: u64 = 4000;

/// Readings of the monotonic clock handed to the dashboard are
/// milliseconds; a notification can be shown at a reading `now` when its
/// expiry `now + TOAST_MILLIS` is a reading too.
pub open spec fn readable_expiry(now: u64) -> bool {
    now + TOAST_MILLIS <= u64::MAX
}

/// A column of the table of largest files.
#[derive(Debug, Clone, Copy, PartialEq, Eq, Structural)]
pub enum SortColumn {
    Name,
    Path,
    Size,
    Modified,
    Extension,
}

/// A notification banner.
pub struct Toast {
    /// The text shown.
    pub message: String,
    /// Shown as an error (red) rather than as information.
    pub is_error: bool,
    /// When the banner disappears: a reading of the monotonic clock in
    /// milliseconds.
    pub expires_at: u64,
}

/// Whether notification `t` expires after the clock reading `now`.
fn expires_after(t: &Toast, now: &u64) -> (b: bool)
    ensures
        b == (t.expires_at > *now),
{
    t.expires_at > *now
}

/// Whether notification `t` reads other than `text`.
fn reads_otherwise(t: &Toast, text: &String) -> (b: bool)
    ensures
        b == (t.message@ != text@),
{
    !(t.message == *text)
}

/// Whether `f` lies at another path than `file`.
fn at_another_path(f: &FileEntry, file: &FileEntry) -> (b: bool)
    ensures
        b == (f.path@ != file.path@),
{
    !(f.path == file.path)
}

/// What a frame shows of the notifications: those still up at the clock
/// reading `now`, without the notice that a scan started once no scan is
/// running (`retain_unexpired`, then `drop_scan_notice`).
pub open spec fn shown_notices(toasts: Seq<Toast>, now: u64, scanning: bool) -> Seq<Toast> {
    let kept = toasts.filter(|t: Toast| t.expires_at > now);
    if scanning {
        kept
    } else {
        kept.filter(|t: Toast| t.message@ != "Scanning initiated..."@)
    }
}

/// A frame keeps the notifications single and current: from at most one
/// notification it shows at most one, every one shown expires after the
/// frame's clock reading, and once no scan runs the notice that a scan
/// started is gone.
pub proof fn lemma_frame_notices(toasts: Seq<Toast>, now: u64, scanning: bool)
    requires
        toasts.len() <= 1,
    ensures
        shown_notices(toasts, now, scanning).len() <= 1,
        forall|i: int|
            0 <= i < shown_notices(toasts, now, scanning).len() ==> #[trigger] shown_notices(toasts, now, scanning)[i].expires_at
                > now,
        !scanning ==> forall|i: int|
            0 <= i < shown_notices(toasts, now, scanning).len() ==> #[trigger] shown_notices(toasts, now, scanning)[i].message@
                != "Scanning initiated..."@,
{
    let p1 = |t: Toast| t.expires_at > now;
    let p2 = |t: Toast| t.message@ != "Scanning initiated..."@;
    let kept = toasts.filter(p1);
    broadcast use vstd::seq_lib::group_filter_ensures;
    if !scanning && kept.len() == 1 {
        reveal(Seq::filter);
        assert(kept.drop_last() =~= Seq::<Toast>::empty());
        assert(Seq::<Toast>::empty().filter(p2) =~= Seq::<Toast>::empty());
        assert(p1(kept[0]));
        assert forall|i: int| 0 <= i < kept.filter(p2).len() implies #[trigger] kept.filter(p2)[i].expires_at > now by {
            assert(kept.filter(p2)[i] == kept[0]);
        }
    }
}

/// The state of the dashboard apart from its widgets.
pub struct DiskAnalyzerApp {
    /// The directory to scan next.
    pub target_path: String,
    /// The filter typed over the table of largest files.
    pub search_query: String,
    /// The column the table is sorted by.
    pub sorting_column: SortColumn,
    /// Whether the table is sorted in descending order.
    pub sorting_desc: bool,
    /// The drive picked in the drive selector.
    pub selected_drive: String,
    /// The drives found on the machine.
    pub available_drives: Vec<String>,
    /// Whether the deletion confirmation is up.
    pub show_delete_modal: bool,
    /// The file the confirmation is about.
    pub file_to_delete: Option<FileEntry>,
    /// The notifications shown.
    pub toasts: Vec<Toast>,
}

/// The default target when neither a working directory nor a drive is
/// known.
pub open spec fn fallback_target() -> Seq<char> {
    seq!['C', ':', '\\']
}

impl DiskAnalyzerApp {
    /// The dashboard at start-up: the target is the working directory when
    /// known, else the first drive, else `C:\`; the first drive is
    /// selected; the table is sorted by size, largest first; nothing else
    /// is up.
    pub fn new(current_dir: Option<String>, drives: Vec<String>) -> (app: Self)
        ensures
            current_dir matches Some(d) ==> app.target_path == d,
            current_dir is None && drives@.len() > 0 ==> app.target_path@ == drives@[0]@,
            current_dir is None && drives@.len() == 0 ==> app.target_path@ == fallback_target(),
            drives@.len() > 0 ==> app.selected_drive@ == drives@[0]@,
            drives@.len() == 0 ==> app.selected_drive@ == Seq::<char>::empty(),
            app.available_drives@ == drives@,
            app.search_query@ == Seq::<char>::empty(),
            app.sorting_column == SortColumn::Size,
            app.sorting_desc,
            !app.show_delete_modal,
            app.file_to_delete is None,
            app.toasts@.len() == 0,
    {
        let selected_drive = if drives.len() > 0 {
            drives[0].clone()
        } else {
            String::new()
        };
        let target_path = match current_dir {
            Some(d) => d,
            None => {
                if drives.len() > 0 {
                    drives[0].clone()
                } else {
                    let mut v: Vec<char> = Vec::new();
                    v.push('C');
                    v.push(':');
                    v.push('\\');
                    proof {
                        assert(v@ =~= fallback_target());
                    }
                    crate::text::chars_to_string(v)
                }
            },
        };
        DiskAnalyzerApp {
            target_path,
            search_query: String::new(),
            sorting_column: SortColumn::Size,
            sorting_desc: true,
            selected_drive,
            available_drives: drives,
            show_delete_modal: false,
            file_to_delete: None,
            toasts: Vec::new(),
        }
    }

    /// Shows a notification, replacing any shown before; it expires
    /// `TOAST_MILLIS` milliseconds after the clock reading `now`.
    pub fn add_toast(&mut self, message: &str, is_error: bool, now: u64)
        requires
            readable_expiry(now),
        ensures
            final(self).toasts@.len() == 1,
            final(self).toasts@[0].message@ == message@,
            final(self).toasts@[0].is_error == is_error,
            final(self).toasts@[0].expires_at == now + TOAST_MILLIS,
            final(self).target_path == old(self).target_path,
            final(self).search_query == old(self).search_query,
            final(self).sorting_column == old(self).sorting_column,
            final(self).sorting_desc == old(self).sorting_desc,
            final(self).selected_drive == old(self).selected_drive,
            final(self).available_drives == old(self).available_drives,
            final(self).show_delete_modal == old(self).show_delete_modal,
            final(self).file_to_delete == old(self).file_to_delete,
    {
        self.toasts.clear();
        let expires_at = now + TOAST_MILLIS;
        self.toasts.push(Toast { message: message.to_owned(), is_error, expires_at });
    }

    /// Takes down the notifications that have expired by the clock reading
    /// `now`; those expiring strictly later stay, in order.
    pub fn retain_unexpired(&mut self, now: u64)
        ensures
            final(self).toasts@ == old(self).toasts@.filter(|t: Toast| t.expires_at > now),
            final(self).target_path == old(self).target_path,
            final(self).show_delete_modal == old(self).show_delete_modal,
            final(self).file_to_delete == old(self).file_to_delete,
    {
        let mut toasts: Vec<Toast> = Vec::new();
        std::mem::swap(&mut toasts, &mut self.toasts);
        self.toasts = keep_where(toasts, &now, expires_after, Ghost(|t: Toast| t.expires_at > now));
    }

    /// Takes down the notice that a scan started once no scan is running.
    pub fn drop_scan_notice(&mut self, scanning: bool)
        ensures
            scanning ==> final(self).toasts@ == old(self).toasts@,
            !scanning ==> final(self).toasts@ == old(self).toasts@.filter(
                |t: Toast| t.message@ != "Scanning initiated..."@,
            ),
            final(self).target_path == old(self).target_path,
            final(self).show_delete_modal == old(self).show_delete_modal,
            final(self).file_to_delete == old(self).file_to_delete,
    {
        if scanning {
            return;
        }
        let notice = String::from_str("Scanning initiated...");
        let mut toasts: Vec<Toast> = Vec::new();
        std::mem::swap(&mut toasts, &mut self.toasts);
        self.toasts = keep_where(toasts, &notice, reads_otherwise, Ghost(|t: Toast| t.message@ != "Scanning initiated..."@));
    }

    /// Picks a drive: when it differs from the drive picked before, it
    /// becomes the scan target too.
    pub fn select_drive(&mut self, drive: String)
        ensures
            drive@ != old(self).selected_drive@ ==> final(self).selected_drive == drive
                && final(self).target_path == drive,
            drive@ == old(self).selected_drive@ ==> final(self).selected_drive == old(self).selected_drive
                && final(self).target_path == old(self).target_path,
            final(self).toasts == old(self).toasts,
            final(self).show_delete_modal == old(self).show_delete_modal,
            final(self).file_to_delete == old(self).file_to_delete,
    {
        if !(drive == self.selected_drive) {
            self.target_path = drive.clone();
            self.selected_drive = drive;
        }
    }

    /// The user asks for a scan of the target: refused with a notice when
    /// the target is blank or does not exist (`path_exists`), otherwise
    /// accepted (true) with a notice that the scan started.
    pub fn request_scan(&mut self, path_exists: bool, now: u64) -> (start: bool)
        requires
            readable_expiry(now),
        ensures
            start == (trimmed(old(self).target_path@).len() > 0 && path_exists),
            final(self).toasts@.len() == 1,
            final(self).toasts@[0].expires_at == now + TOAST_MILLIS,
            trimmed(old(self).target_path@).len() == 0 ==> final(self).toasts@[0].message@
                == "Please enter a directory path to scan"@ && final(self).toasts@[0].is_error,
            trimmed(old(self).target_path@).len() > 0 && !path_exists ==> final(self).toasts@[0].message@
                == "Path does not exist"@ && final(self).toasts@[0].is_error,
            start ==> final(self).toasts@[0].message@ == "Scanning initiated..."@,
            start ==> !final(self).toasts@[0].is_error,
            final(self).target_path == old(self).target_path,
            final(self).show_delete_modal == old(self).show_delete_modal,
            final(self).file_to_delete == old(self).file_to_delete,
    {
        let blank = trim_text(self.target_path.as_str()).is_empty();
        if blank {
            self.add_toast("Please enter a directory path to scan", true, now);
            false
        } else if !path_exists {
            self.add_toast("Path does not exist", true, now);
            false
        } else {
            self.add_toast("Scanning initiated...", false, now);
            true
        }
    }

    /// Makes a directory of the results the next scan target.
    pub fn retarget(&mut self, dir: &str, now: u64)
        requires
            readable_expiry(now),
        ensures
            final(self).target_path@ == dir@,
            final(self).toasts@.len() == 1,
            final(self).toasts@[0].message@ == "Target path updated"@,
            final(self).toasts@[0].expires_at == now + TOAST_MILLIS,
            !final(self).toasts@[0].is_error,
            final(self).show_delete_modal == old(self).show_delete_modal,
            final(self).file_to_delete == old(self).file_to_delete,
    {
        self.target_path = dir.to_owned();
        self.add_toast("Target path updated", false, now);
    }

    /// A click on a column header: the table sorts by that column, and the
    /// direction flips.
    pub fn toggle_sort(&mut self, column: SortColumn)
        ensures
            final(self).sorting_column == column,
            final(self).sorting_desc == !old(self).sorting_desc,
            final(self).target_path == old(self).target_path,
            final(self).toasts == old(self).toasts,
    {
        self.sorting_column = column;
        self.sorting_desc = !self.sorting_desc;
    }

    /// The mark after a column's title: down or up for the sorting column
    /// (descending or ascending), up-down for the others.
    pub fn sort_mark(&self, column: SortColumn) -> (mark: &'static str)
        ensures
            column == self.sorting_column && self.sorting_desc ==> mark@ == "↓"@,
            column == self.sorting_column && !self.sorting_desc ==> mark@ == "↑"@,
            column != self.sorting_column ==> mark@ == "↕"@,
    {
        if column == self.sorting_column {
            if self.sorting_desc {
                "↓"
            } else {
                "↑"
            }
        } else {
            "↕"
        }
    }

    /// Asks for confirmation before moving `file` to the recycle bin.
    pub fn open_delete(&mut self, file: FileEntry)
        ensures
            final(self).show_delete_modal,
            final(self).file_to_delete == Some(file),
            final(self).toasts == old(self).toasts,
            final(self).target_path == old(self).target_path,
    {
        self.file_to_delete = Some(file);
        self.show_delete_modal = true;
    }

    /// Takes the confirmation down without deleting.
    pub fn close_delete(&mut self)
        ensures
            !final(self).show_delete_modal,
            final(self).file_to_delete is None,
            final(self).toasts == old(self).toasts,
            final(self).target_path == old(self).target_path,
    {
        self.show_delete_modal = false;
        self.file_to_delete = None;
    }

    /// The deletion was confirmed. It goes ahead (true) only for a file
    /// inside the scanned directory (`inside_root`) that still exists
    /// (`exists`); otherwise a notice says why and the confirmation closes.
    pub fn check_delete(&mut self, inside_root: bool, exists: bool, now: u64) -> (proceed: bool)
        requires
            readable_expiry(now),
        ensures
            proceed == (inside_root && exists),
            proceed ==> final(self).toasts == old(self).toasts && final(self).show_delete_modal
                == old(self).show_delete_modal && final(self).file_to_delete == old(self).file_to_delete,
            !inside_root ==> final(self).toasts@.len() == 1 && final(self).toasts@[0].message@
                == "Security Check Failed: File is outside scanned directory."@ && final(self).toasts@[0].is_error,
            inside_root && !exists ==> final(self).toasts@.len() == 1 && final(self).toasts@[0].message@
                == "File no longer exists on disk."@ && final(self).toasts@[0].is_error,
            !proceed ==> !final(self).show_delete_modal && final(self).file_to_delete is None,
            !proceed ==> final(self).toasts@[0].expires_at == now + TOAST_MILLIS,
            final(self).target_path == old(self).target_path,
    {
        if !inside_root {
            self.add_toast("Security Check Failed: File is outside scanned directory.", true, now);
            self.close_delete();
            return false;
        }
        if !exists {
            self.add_toast("File no longer exists on disk.", true, now);
            self.close_delete();
            return false;
        }
        true
    }

    /// The recycle bin answered: on success a notice, and the file leaves
    /// the results (when there are any); on failure a notice with the
    /// reason. Either way the confirmation closes.
    pub fn finish_delete(&mut self, outcome: Result<(), String>, results: &mut Option<ScanResults>, now: u64)
        requires
            old(self).file_to_delete is Some,
            readable_expiry(now),
        ensures
            !final(self).show_delete_modal,
            final(self).file_to_delete is None,
            final(self).toasts@.len() == 1,
            final(self).toasts@[0].expires_at == now + TOAST_MILLIS,
            outcome is Ok ==> final(self).toasts@[0].message@ == "File moved to Recycle Bin"@
                && !final(self).toasts@[0].is_error,
            outcome is Ok ==> match *old(results) {
                Some(r) => *final(results) matches Some(r2) && deleted_from(r, r2, old(self).file_to_delete->0),
                None => *final(results) is None,
            },
            outcome matches Err(e) ==> final(self).toasts@[0].message@ == deletion_failure_text(e@)
                && final(self).toasts@[0].is_error && *final(results) == *old(results),
            final(self).target_path == old(self).target_path,
    {
        let file = match self.file_to_delete.take() {
            Some(f) => f,
            None => {
                return;
            },
        };
        match outcome {
            Ok(()) => {
                self.add_toast("File moved to Recycle Bin", false, now);
                match results {
                    Some(r) => {
                        apply_deletion(r, &file);
                    },
                    None => {},
                }
            },
            Err(e) => {
                let text = deletion_failure_message(e.as_str());
                self.add_toast(text.as_str(), true, now);
            },
        }
        self.close_delete();
    }
}

/// `after` is `before` with `file` deleted: no listed file has its path
/// any more, and the totals drop by its size and by one file (not below
/// zero); the rest is as it was.
pub open spec fn deleted_from(before: ScanResults, after: ScanResults, file: FileEntry) -> bool {
    &&& after.top_files@ == before.top_files@.filter(|f: FileEntry| f.path@ != file.path@)
    &&& after.total_size == if before.total_size >= file.size {
        (before.total_size - file.size) as u64
    } else {
        0
    }
    &&& after.total_files == if before.total_files >= 1 {
        (before.total_files - 1) as u64
    } else {
        0
    }
    &&& after.scanned_path == before.scanned_path
    &&& after.ext_breakdown == before.ext_breakdown
    &&& after.dir_breakdown == before.dir_breakdown
    &&& after.scan_duration_ms == before.scan_duration_ms
    &&& after.errors == before.errors
}

/// Removes a deleted file from the results.
pub fn apply_deletion(results: &mut ScanResults, file: &FileEntry)
    ensures
        deleted_from(*old(results), *final(results), *file),
{
    let mut files: Vec<FileEntry> = Vec::new();
    std::mem::swap(&mut files, &mut results.top_files);
    results.top_files = keep_where(files, file, at_another_path, Ghost(|f: FileEntry| f.path@ != file.path@));
    results.total_size = results.total_size.saturating_sub(file.size);
    results.total_files = results.total_files.saturating_sub(1);
}

/// The notice for a failed move to the recycle bin: a plain explanation
/// when the failure was in resolving the path (the file is likely locked
/// or protected), otherwise the reason as given.
pub open spec fn deletion_failure_text(reason: Seq<char>) -> Seq<char> {
    if contains_text(reason, "CanonicalizePath"@) {
        "Failed to delete file. The file may be locked by another application or protected by permissions."@
    } else {
        "Failed to delete file: "@ + reason
    }
}

/// The notice for a failed move to the recycle bin.
pub fn deletion_failure_message(reason: &str) -> (text: String)
    ensures
        text@ == deletion_failure_text(reason@),
{
    if text_contains(reason, "CanonicalizePath") {
        String::from_str(
            "Failed to delete file. The file may be locked by another application or protected by permissions.",
        )
    } else {
        let mut text = String::from_str("Failed to delete file: ");
        text.append(reason);
        text
    }
}

/// Whether `path` lies inside the directory of the results (false when
/// there are none).
///
/// The answer comes from `Path::starts_with`: a path the scanned directory
/// surely contains on every platform is inside, and one it surely does not
/// contain is outside; for other paths the answer is left to the platform's
/// path rules.
pub fn is_inside_scan(path: &str, results: &Option<ScanResults>) -> (inside: bool)
    ensures
        results is None ==> !inside,
        results matches Some(r) && surely_within(path@, r.scanned_path@) ==> inside,
        results matches Some(r) && surely_outside(path@, r.scanned_path@) ==> !inside,
{
    match results {
        Some(r) => path_starts_with(path, r.scanned_path.as_str()),
        None => false,
    }
}

} // verus!
