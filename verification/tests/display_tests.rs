use disk_analyzer::display::{ext_color, ext_segments, file_icon, kind_of, same_text, short_dir_label, summary_texts, FileKind};
use disk_analyzer::models::ScanResults;

fn with_breakdown(total: u64, b: Vec<(&str, u64)>) -> ScanResults {
    ScanResults {
        scanned_path: "/".to_string(),
        total_size: total,
        total_files: 1,
        top_files: vec![],
        ext_breakdown: b.into_iter().map(|(k, n)| (k.to_string(), n)).collect(),
        dir_breakdown: vec![],
        scan_duration_ms: 0,
        errors: vec![],
    }
}

#[test]
fn summary_figures() {
    let (size, files, avg) = summary_texts(3072, 2);
    assert_eq!(size, "3.00 KB");
    assert_eq!(files, "2");
    assert_eq!(avg, "1.50 KB");
    let (size, files, avg) = summary_texts(0, 0);
    assert_eq!((size.as_str(), files.as_str(), avg.as_str()), ("0 Bytes", "0", "0 Bytes"));
}

#[test]
fn bar_shows_seven_types_and_the_rest() {
    let r = with_breakdown(100, vec![("a", 30), ("b", 20), ("c", 10), ("d", 9), ("e", 8), ("f", 7), ("g", 6), ("h", 5), ("i", 5)]);
    let s = ext_segments(&r);
    assert_eq!(s.len(), 8);
    assert_eq!(s[6], ("g".to_string(), 6));
    assert_eq!(s[7], ("Other".to_string(), 10));
}

#[test]
fn bar_without_a_rest() {
    let r = with_breakdown(10, vec![("a", 6), ("b", 4)]);
    assert_eq!(ext_segments(&r), vec![("a".to_string(), 6), ("b".to_string(), 4)]);
    let r = with_breakdown(90, vec![("a", 30), ("b", 20), ("c", 10), ("d", 9), ("e", 8), ("f", 7), ("g", 6), ("h", 0)]);
    assert_eq!(ext_segments(&r).len(), 7);
}

#[test]
fn long_directory_labels_keep_their_end() {
    assert_eq!(short_dir_label("/short/path"), "/short/path");
    let long = "/a/very/long/directory/path/that/goes/on/and/on";
    let label = short_dir_label(long);
    assert_eq!(label, format!("...{}", &long[long.len() - 30..]));
    assert_eq!(label.len(), 33);
    let exactly = "123456789012345678901234567890";
    assert_eq!(short_dir_label(exactly), exactly);
}

#[test]
fn colours_by_kind() {
    assert_eq!(ext_color("zip"), (168, 85, 247));
    assert_eq!(ext_color("mkv"), (59, 130, 246));
    assert_eq!(ext_color("png"), (236, 72, 153));
    assert_eq!(ext_color("dll"), (239, 68, 68));
    assert_eq!(ext_color("log"), (245, 158, 11));
    assert_eq!(ext_color("rs"), (6, 182, 212));
    assert_eq!(ext_color("no extension"), (100, 116, 139));
    assert_eq!(ext_color("Other"), (20, 184, 166));
    assert_eq!(ext_color("ZIP"), (20, 184, 166));
    assert_eq!(kind_of("h"), FileKind::Code);
    assert_eq!(kind_of("yaml"), FileKind::Text);
}

#[test]
fn icons_by_kind() {
    assert_eq!(file_icon("7z"), "📦");
    assert_eq!(file_icon("mov"), "🎥");
    assert_eq!(file_icon("webp"), "🖼️");
    assert_eq!(file_icon("exe"), "⚙️");
    assert_eq!(file_icon("txt"), "📄");
    assert_eq!(file_icon("no extension"), "📄");
}

#[test]
fn text_equality() {
    assert!(same_text("abc", "abc"));
    assert!(!same_text("abc", "abd"));
    assert!(!same_text("abc", "ab"));
    assert!(same_text("", ""));
    assert!(same_text("黑风", "黑风"));
}

#[test]
fn long_labels_cut_between_characters() {
    let long = "/x/目录目录目录目录目录目录目录目录目录目录a";
    assert_eq!(long.len(), 64);
    let label = short_dir_label(long);
    assert_eq!(label, "...录目录目录目录目录a");
    assert!(label.len() - 3 <= 30);
}
