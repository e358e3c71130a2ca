use disk_analyzer::dashboard::{apply_deletion, deletion_failure_message, is_inside_scan, DiskAnalyzerApp, SortColumn, Toast};
use disk_analyzer::models::{FileEntry, ScanResults};

fn entry(path: &str, size: u64) -> FileEntry {
    FileEntry {
        name: path.rsplit('/').next().unwrap().to_string(),
        path: path.to_string(),
        size,
        modified: 0,
        extension: "no extension".to_string(),
    }
}

fn results() -> ScanResults {
    ScanResults {
        scanned_path: "/data".to_string(),
        total_size: 30,
        total_files: 3,
        top_files: vec![entry("/data/a", 20), entry("/data/b", 7), entry("/data/c", 3)],
        ext_breakdown: vec![("no extension".to_string(), 30)],
        dir_breakdown: vec![("/data".to_string(), 30)],
        scan_duration_ms: 1,
        errors: vec![],
    }
}

#[test]
fn start_up_state() {
    let app = DiskAnalyzerApp::new(Some("/home/me".to_string()), vec!["C:\\".to_string(), "D:\\".to_string()]);
    assert_eq!(app.target_path, "/home/me");
    assert_eq!(app.selected_drive, "C:\\");
    assert_eq!(app.sorting_column, SortColumn::Size);
    assert!(app.sorting_desc);
    assert!(!app.show_delete_modal);
    assert!(app.file_to_delete.is_none());
    assert!(app.toasts.is_empty());
    let app = DiskAnalyzerApp::new(None, vec!["E:\\".to_string()]);
    assert_eq!(app.target_path, "E:\\");
    let app = DiskAnalyzerApp::new(None, vec![]);
    assert_eq!(app.target_path, "C:\\");
    assert_eq!(app.selected_drive, "");
}

#[test]
fn a_new_toast_replaces_the_old_one() {
    let mut app = DiskAnalyzerApp::new(None, vec![]);
    app.add_toast("one", false, 1000);
    app.add_toast("two", true, 1000);
    assert_eq!(app.toasts.len(), 1);
    assert_eq!(app.toasts[0].message, "two");
    assert!(app.toasts[0].is_error);
}

#[test]
fn fresh_toasts_are_not_expired() {
    let mut app = DiskAnalyzerApp::new(None, vec![]);
    app.add_toast("hello", false, 1000);
    assert_eq!(app.toasts[0].expires_at, 5000);
    app.retain_unexpired(1000);
    assert_eq!(app.toasts.len(), 1);
    app.retain_unexpired(4999);
    assert_eq!(app.toasts.len(), 1);
    app.retain_unexpired(5000);
    assert!(app.toasts.is_empty());
}

#[test]
fn scan_notice_goes_once_scanning_stops() {
    let mut app = DiskAnalyzerApp::new(Some("/tmp".to_string()), vec![]);
    assert!(app.request_scan(true, 1000));
    assert_eq!(app.toasts[0].message, "Scanning initiated...");
    app.drop_scan_notice(true);
    assert_eq!(app.toasts.len(), 1);
    app.drop_scan_notice(false);
    assert!(app.toasts.is_empty());
    app.add_toast("Path does not exist", true, 1000);
    app.drop_scan_notice(false);
    assert_eq!(app.toasts.len(), 1);
}

#[test]
fn scan_requests_are_checked() {
    let mut app = DiskAnalyzerApp::new(Some("   ".to_string()), vec![]);
    assert!(!app.request_scan(true, 1000));
    assert_eq!(app.toasts[0].message, "Please enter a directory path to scan");
    assert!(app.toasts[0].is_error);
    app.target_path = "/nowhere".to_string();
    assert!(!app.request_scan(false, 1000));
    assert_eq!(app.toasts[0].message, "Path does not exist");
    assert!(app.toasts[0].is_error);
    assert!(app.request_scan(true, 1000));
    assert!(!app.toasts[0].is_error);
}

#[test]
fn picking_another_drive_retargets() {
    let mut app = DiskAnalyzerApp::new(Some("/home".to_string()), vec!["C:\\".to_string(), "D:\\".to_string()]);
    app.select_drive("C:\\".to_string());
    assert_eq!(app.target_path, "/home");
    app.select_drive("D:\\".to_string());
    assert_eq!(app.target_path, "D:\\");
    assert_eq!(app.selected_drive, "D:\\");
}

#[test]
fn retargeting_from_a_chart() {
    let mut app = DiskAnalyzerApp::new(None, vec![]);
    app.retarget("/data/a", 1000);
    assert_eq!(app.target_path, "/data/a");
    assert_eq!(app.toasts[0].message, "Target path updated");
}

#[test]
fn header_clicks_flip_the_direction() {
    let mut app = DiskAnalyzerApp::new(None, vec![]);
    assert_eq!(app.sort_mark(SortColumn::Size), "↓");
    assert_eq!(app.sort_mark(SortColumn::Name), "↕");
    app.toggle_sort(SortColumn::Name);
    assert_eq!(app.sorting_column, SortColumn::Name);
    assert!(!app.sorting_desc);
    assert_eq!(app.sort_mark(SortColumn::Name), "↑");
    app.toggle_sort(SortColumn::Name);
    assert!(app.sorting_desc);
}

#[test]
fn deletion_outside_the_scan_is_refused() {
    let mut app = DiskAnalyzerApp::new(None, vec![]);
    let res = Some(results());
    assert!(!is_inside_scan("/etc/passwd", &res));
    assert!(is_inside_scan("/data/a", &res));
    assert!(!is_inside_scan("/data/a", &None));
    assert!(is_inside_scan("/data", &res));
    app.open_delete(entry("/etc/passwd", 1));
    assert!(app.show_delete_modal);
    assert!(!app.check_delete(false, true, 1000));
    assert_eq!(app.toasts[0].message, "Security Check Failed: File is outside scanned directory.");
    assert!(!app.show_delete_modal);
    assert!(app.file_to_delete.is_none());
}

#[test]
fn deletion_of_a_vanished_file_is_refused() {
    let mut app = DiskAnalyzerApp::new(None, vec![]);
    app.open_delete(entry("/data/a", 20));
    assert!(!app.check_delete(true, false, 1000));
    assert_eq!(app.toasts[0].message, "File no longer exists on disk.");
    assert!(!app.show_delete_modal);
}

#[test]
fn successful_deletion_updates_the_results() {
    let mut app = DiskAnalyzerApp::new(None, vec![]);
    let mut res = Some(results());
    app.open_delete(entry("/data/b", 7));
    assert!(app.check_delete(true, true, 1000));
    assert!(app.show_delete_modal);
    app.finish_delete(Ok(()), &mut res, 1000);
    assert_eq!(app.toasts[0].message, "File moved to Recycle Bin");
    assert!(!app.toasts[0].is_error);
    assert!(!app.show_delete_modal);
    let r = res.unwrap();
    let paths: Vec<&str> = r.top_files.iter().map(|f| f.path.as_str()).collect();
    assert_eq!(paths, vec!["/data/a", "/data/c"]);
    assert_eq!(r.total_size, 23);
    assert_eq!(r.total_files, 2);
}

#[test]
fn failed_deletion_explains_why() {
    let mut app = DiskAnalyzerApp::new(None, vec![]);
    let mut res = Some(results());
    app.open_delete(entry("/data/b", 7));
    app.finish_delete(Err("Error during a `trash` operation: CanonicalizePath for \"x\"".to_string()), &mut res, 1000);
    assert_eq!(
        app.toasts[0].message,
        "Failed to delete file. The file may be locked by another application or protected by permissions."
    );
    assert!(app.toasts[0].is_error);
    assert_eq!(res.unwrap().total_files, 3);
    assert_eq!(deletion_failure_message("disk on fire"), "Failed to delete file: disk on fire");
}

#[test]
fn deletion_totals_do_not_go_below_zero() {
    let mut r = results();
    r.total_size = 5;
    r.total_files = 0;
    apply_deletion(&mut r, &entry("/data/a", 20));
    assert_eq!(r.total_size, 0);
    assert_eq!(r.total_files, 0);
    assert_eq!(r.top_files.len(), 2);
}

#[test]
fn toasts_expiring_now_are_taken_down() {
    let mut app = DiskAnalyzerApp::new(None, vec![]);
    app.toasts.push(Toast { message: "a".to_string(), is_error: false, expires_at: 90 });
    app.toasts.push(Toast { message: "b".to_string(), is_error: true, expires_at: 50 });
    app.toasts.push(Toast { message: "c".to_string(), is_error: false, expires_at: 20 });
    app.toasts.push(Toast { message: "d".to_string(), is_error: false, expires_at: 51 });
    app.retain_unexpired(50);
    let left: Vec<&str> = app.toasts.iter().map(|t| t.message.as_str()).collect();
    assert_eq!(left, vec!["a", "d"]);
}

#[test]
fn unicode_white_space_is_a_blank_target() {
    let mut app = DiskAnalyzerApp::new(Some("\u{3000}\t \u{A0}".to_string()), vec![]);
    assert!(!app.request_scan(true, 0));
    assert_eq!(app.toasts[0].message, "Please enter a directory path to scan");
    assert_eq!(app.toasts[0].expires_at, 4000);
}

#[test]
fn inside_checks_part_ways_at_components() {
    let mut r = results();
    r.scanned_path = "/data/x".to_string();
    let res = Some(r);
    assert!(is_inside_scan("/data/x/y.bin", &res));
    assert!(!is_inside_scan("/data", &res));
    assert!(!is_inside_scan("/data/xy/z", &res));
    assert!(!is_inside_scan("/data/y", &res));
}

#[test]
fn a_frame_keeps_one_current_notice() {
    let mut app = DiskAnalyzerApp::new(Some("/tmp".to_string()), vec![]);
    assert!(app.request_scan(true, 100));
    app.retain_unexpired(200);
    app.drop_scan_notice(true);
    assert_eq!(app.toasts.len(), 1);
    app.retain_unexpired(300);
    app.drop_scan_notice(false);
    assert!(app.toasts.is_empty());
}
