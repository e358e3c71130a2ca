use disk_analyzer::links::{file_id, LinkRegistry};
use disk_analyzer::models::ScanProgressState;

#[test]
fn progress_starts_idle() {
    let p = ScanProgressState::new();
    assert_eq!(p.files_scanned, 0);
    assert_eq!(p.bytes_scanned, 0);
    assert_eq!(p.errors_count, 0);
    assert!(!p.scanning);
    assert!(p.scan_start.is_none());
    assert_eq!(p.average_file_size(), 0);
}

#[test]
fn reset_starts_a_scan() {
    let mut p = ScanProgressState::new();
    p.count_file(10);
    p.count_error();
    p.reset(1234);
    assert_eq!(p.files_scanned, 0);
    assert_eq!(p.bytes_scanned, 0);
    assert_eq!(p.errors_count, 0);
    assert!(p.scanning);
    assert_eq!(p.scan_start, Some(1234));
}

#[test]
fn counting_files_and_errors() {
    let mut p = ScanProgressState::new();
    p.reset(0);
    p.count_file(100);
    p.count_file(50);
    p.count_error();
    assert_eq!(p.files_scanned, 2);
    assert_eq!(p.bytes_scanned, 150);
    assert_eq!(p.errors_count, 1);
    assert_eq!(p.average_file_size(), 75);
    p.finish();
    assert!(!p.scanning);
    assert_eq!(p.files_scanned, 2);
}

#[test]
fn counters_wrap_like_atomics() {
    let mut p = ScanProgressState::new();
    p.bytes_scanned = u64::MAX;
    p.count_file(2);
    assert_eq!(p.bytes_scanned, 1);
}

#[test]
fn file_ids_pack_volume_and_index() {
    assert_eq!(file_id(0, 5), 5);
    assert_eq!(file_id(1, 0), 1u128 << 64);
    assert_eq!(file_id(0xdead_beef, 0x1234), (0xdead_beefu128 << 64) | 0x1234);
    assert_ne!(file_id(1, 2), file_id(2, 1));
}

#[test]
fn hard_links_count_once() {
    let mut r = LinkRegistry::new();
    assert!(r.first_sighting(7, 42));
    assert!(!r.first_sighting(7, 42));
    assert!(r.first_sighting(8, 42));
    assert!(r.first_sighting(7, 43));
}
