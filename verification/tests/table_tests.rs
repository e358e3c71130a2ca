use disk_analyzer::dashboard::{DiskAnalyzerApp, SortColumn};
use disk_analyzer::models::{FileEntry, ScanResults};
use disk_analyzer::table::{search_files, sort_table};

fn entry(name: &str, size: u64, modified: u64, ext: &str) -> FileEntry {
    FileEntry {
        name: name.to_string(),
        path: format!("/data/{}", name),
        size,
        modified,
        extension: ext.to_string(),
    }
}

fn files() -> Vec<FileEntry> {
    vec![
        entry("beta.TXT", 30, 3, "txt"),
        entry("Alpha.rs", 10, 1, "rs"),
        entry("gamma.txt", 30, 2, "txt"),
        entry("delta", 20, 4, "no extension"),
    ]
}

fn names(v: &[FileEntry]) -> Vec<&str> {
    v.iter().map(|f| f.name.as_str()).collect()
}

#[test]
fn sort_by_size_is_stable() {
    let desc = sort_table(files(), SortColumn::Size, true);
    assert_eq!(names(&desc), vec!["beta.TXT", "gamma.txt", "delta", "Alpha.rs"]);
    let asc = sort_table(files(), SortColumn::Size, false);
    assert_eq!(names(&asc), vec!["Alpha.rs", "delta", "beta.TXT", "gamma.txt"]);
}

#[test]
fn sort_by_name_ignores_case() {
    let asc = sort_table(files(), SortColumn::Name, false);
    assert_eq!(names(&asc), vec!["Alpha.rs", "beta.TXT", "delta", "gamma.txt"]);
    let desc = sort_table(files(), SortColumn::Name, true);
    assert_eq!(names(&desc), vec!["gamma.txt", "delta", "beta.TXT", "Alpha.rs"]);
}

#[test]
fn sort_by_other_columns() {
    assert_eq!(names(&sort_table(files(), SortColumn::Modified, false)), vec!["Alpha.rs", "gamma.txt", "beta.TXT", "delta"]);
    assert_eq!(names(&sort_table(files(), SortColumn::Extension, false)), vec!["delta", "Alpha.rs", "beta.TXT", "gamma.txt"]);
    assert_eq!(names(&sort_table(files(), SortColumn::Path, true)), vec!["gamma.txt", "delta", "beta.TXT", "Alpha.rs"]);
}

#[test]
fn search_matches_name_or_path_ignoring_case() {
    assert_eq!(names(&search_files(files(), "TXT")), vec!["beta.TXT", "gamma.txt"]);
    assert_eq!(names(&search_files(files(), "")), vec!["beta.TXT", "Alpha.rs", "gamma.txt", "delta"]);
    assert_eq!(names(&search_files(files(), "DATA/AL")), vec!["Alpha.rs"]);
    assert!(search_files(files(), "zzz").is_empty());
}

#[test]
fn visible_rows_filter_then_sort() {
    let mut app = DiskAnalyzerApp::new(None, vec![]);
    let res = ScanResults {
        scanned_path: "/data".to_string(),
        total_size: 90,
        total_files: 4,
        top_files: files(),
        ext_breakdown: vec![],
        dir_breakdown: vec![],
        scan_duration_ms: 0,
        errors: vec![],
    };
    assert_eq!(names(&app.visible_files(&res)), vec!["beta.TXT", "gamma.txt", "delta", "Alpha.rs"]);
    app.search_query = "a".to_string();
    app.toggle_sort(SortColumn::Name);
    assert_eq!(names(&app.visible_files(&res)), vec!["Alpha.rs", "beta.TXT", "delta", "gamma.txt"]);
    app.search_query = "ta".to_string();
    assert_eq!(names(&app.visible_files(&res)), vec!["Alpha.rs", "beta.TXT", "delta", "gamma.txt"]);
    app.search_query = "ELT".to_string();
    assert_eq!(names(&app.visible_files(&res)), vec!["delta"]);
}
