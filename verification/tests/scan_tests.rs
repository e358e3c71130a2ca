use disk_analyzer::models::{FileEntry, ScanResults};
use disk_analyzer::scan::{ancestor_chain, chain_from, label_for_extension, propagate, walk_step, ScanAccumulator};

fn record(acc: &mut ScanAccumulator, root: &str, path: &str, size: u64, modified: u64) {
    let name = path.rsplit('/').next().unwrap().to_string();
    acc.record_file(root, name, path.to_string(), size, modified);
}

fn sample(acc: &mut ScanAccumulator) {
    record(acc, "/data", "/data/a/x.TXT", 100, 5);
    record(acc, "/data", "/data/a/b/y.rs", 50, 6);
    record(acc, "/data", "/data/z", 7, 0);
    record(acc, "/data", "/other/w.txt", 3, 9);
}

fn pairs(v: &[(String, u64)]) -> Vec<(&str, u64)> {
    v.iter().map(|(k, n)| (k.as_str(), *n)).collect()
}

#[test]
fn scan_results_of_a_small_tree() {
    let mut acc = ScanAccumulator::new();
    sample(&mut acc);
    let r: ScanResults = acc.finish("/data".to_string(), 12);
    assert_eq!(r.scanned_path, "/data");
    assert_eq!(r.total_size, 160);
    assert_eq!(r.total_files, 4);
    assert_eq!(r.scan_duration_ms, 12);
    assert!(r.errors.is_empty());
    let sizes: Vec<u64> = r.top_files.iter().map(|f| f.size).collect();
    assert_eq!(sizes, vec![100, 50, 7, 3]);
    assert_eq!(r.top_files[0].name, "x.TXT");
    assert_eq!(r.top_files[0].extension, "txt");
    assert_eq!(r.top_files[0].modified, 5);
    assert_eq!(r.top_files[2].extension, "no extension");
    assert_eq!(pairs(&r.ext_breakdown), vec![("txt", 103), ("rs", 50), ("no extension", 7)]);
    assert_eq!(pairs(&r.dir_breakdown), vec![("/data", 157), ("/data/a", 150), ("/data/a/b", 50)]);
}

#[test]
fn extension_sizes_add_up_to_the_total() {
    let mut acc = ScanAccumulator::new();
    sample(&mut acc);
    let r = acc.finish("/data".to_string(), 0);
    let sum: u64 = r.ext_breakdown.iter().map(|(_, n)| *n).sum();
    assert_eq!(sum, r.total_size);
    for (_, n) in &r.dir_breakdown {
        assert!(*n <= r.total_size);
    }
}

#[test]
fn merged_workers_give_the_results_of_one() {
    let mut one = ScanAccumulator::new();
    sample(&mut one);
    let whole = one.finish("/data".to_string(), 0);

    let mut a = ScanAccumulator::new();
    let mut b = ScanAccumulator::new();
    record(&mut b, "/data", "/data/a/x.TXT", 100, 5);
    record(&mut a, "/data", "/data/a/b/y.rs", 50, 6);
    record(&mut b, "/data", "/data/z", 7, 0);
    record(&mut a, "/data", "/other/w.txt", 3, 9);
    let merged = b.merge(a).finish("/data".to_string(), 0);

    assert_eq!(merged.total_size, whole.total_size);
    assert_eq!(merged.total_files, whole.total_files);
    assert_eq!(pairs(&merged.ext_breakdown), pairs(&whole.ext_breakdown));
    assert_eq!(pairs(&merged.dir_breakdown), pairs(&whole.dir_breakdown));
    let s1: Vec<u64> = merged.top_files.iter().map(|f| f.size).collect();
    let s2: Vec<u64> = whole.top_files.iter().map(|f| f.size).collect();
    assert_eq!(s1, s2);
}

#[test]
fn keeps_the_hundred_largest_files() {
    let mut acc = ScanAccumulator::new();
    for i in 1..=150u64 {
        record(&mut acc, "/r", &format!("/r/f{}.bin", i), i, i);
        if i == 100 {
            assert!(!acc.admits_to_top(1));
            assert!(acc.admits_to_top(2));
        }
    }
    assert!(!acc.admits_to_top(51));
    assert!(acc.admits_to_top(52));
    let r = acc.finish("/r".to_string(), 0);
    assert_eq!(r.top_files.len(), 100);
    assert_eq!(r.top_files[0].size, 150);
    assert_eq!(r.top_files[99].size, 51);
    for w in r.top_files.windows(2) {
        assert!(w[0].size >= w[1].size);
    }
    assert_eq!(r.total_files, 150);
    assert_eq!(r.total_size, 150 * 151 / 2);
}

#[test]
fn merging_top_lists_keeps_the_largest_of_both() {
    let mut a = ScanAccumulator::new();
    let mut b = ScanAccumulator::new();
    for i in 1..=120u64 {
        if i % 3 == 0 {
            record(&mut a, "/r", &format!("/r/a{}", i), i * 10, 0);
        } else {
            record(&mut b, "/r", &format!("/r/b{}", i), i * 10, 0);
        }
    }
    let r = a.merge(b).finish("/r".to_string(), 0);
    let sizes: Vec<u64> = r.top_files.iter().map(|f| f.size).collect();
    let expected: Vec<u64> = (21..=120u64).rev().map(|i| i * 10).collect();
    assert_eq!(sizes, expected);
}

#[test]
fn at_most_twenty_directories_are_reported() {
    let mut acc = ScanAccumulator::new();
    for i in 0..30u64 {
        record(&mut acc, "/r", &format!("/r/d{:02}/f", i), i + 1, 0);
    }
    let r = acc.finish("/r".to_string(), 0);
    assert_eq!(r.dir_breakdown.len(), 20);
    assert_eq!(r.dir_breakdown[0], ("/r".to_string(), (1..=30u64).sum()));
    assert_eq!(r.dir_breakdown[1], ("/r/d29".to_string(), 30));
    assert_eq!(r.dir_breakdown[19], ("/r/d11".to_string(), 12));
}

#[test]
fn errors_are_kept_in_order() {
    let mut acc = ScanAccumulator::new();
    acc.record_error("first".to_string());
    acc.record_error("second".to_string());
    let r = acc.finish("/r".to_string(), 0);
    assert_eq!(r.errors, vec!["first".to_string(), "second".to_string()]);
    assert_eq!(r.total_files, 0);
    assert!(r.top_files.is_empty());
    assert!(r.dir_breakdown.is_empty());
}

#[test]
fn extension_labels() {
    assert_eq!(label_for_extension(Some("JPG".to_string())), "jpg");
    assert_eq!(label_for_extension(Some("Tar".to_string())), "tar");
    assert_eq!(label_for_extension(None), "no extension");
}

#[test]
fn ancestor_chains_stay_within_the_root() {
    assert_eq!(ancestor_chain("/data/a/b", "/data"), vec!["/data/a/b", "/data/a", "/data"]);
    assert_eq!(ancestor_chain("/data", "/data"), vec!["/data"]);
    assert!(ancestor_chain("/elsewhere/x", "/data").is_empty());
    assert_eq!(ancestor_chain("a/b", ""), vec!["a/b", "a"]);
}

#[test]
fn propagation_carries_sizes_upwards() {
    let dirs = vec![("/d/a".to_string(), 5u64), ("/d".to_string(), 2u64), ("/d/b".to_string(), 1u64)];
    let chains = vec![
        vec!["/d/a".to_string(), "/d".to_string()],
        vec!["/d".to_string()],
        vec!["/d/b".to_string(), "/d".to_string()],
    ];
    let t = propagate(&dirs, &chains);
    let mut got = t.into_sorted();
    got.sort();
    assert_eq!(got, vec![("/d".to_string(), 8), ("/d/a".to_string(), 5), ("/d/b".to_string(), 1)]);
}

#[test]
fn file_entries_clone_field_by_field() {
    let f = FileEntry {
        name: "n".to_string(),
        path: "/p/n".to_string(),
        size: 3,
        modified: 4,
        extension: "no extension".to_string(),
    };
    let g = f.clone();
    assert_eq!(g.name, f.name);
    assert_eq!(g.path, f.path);
    assert_eq!(g.size, f.size);
    assert_eq!(g.modified, f.modified);
    assert_eq!(g.extension, f.extension);
}

#[test]
fn ties_at_the_cut_show_the_same_sizes_however_split() {
    let mut one = ScanAccumulator::new();
    let mut a = ScanAccumulator::new();
    let mut b = ScanAccumulator::new();
    for i in 0..130u64 {
        let size = if i % 13 == 0 { 900 + i } else { 5 };
        let path = format!("/t/f{}.dat", i);
        record(&mut one, "/t", &path, size, 0);
        if i % 3 == 0 {
            record(&mut a, "/t", &path, size, 0);
        } else {
            record(&mut b, "/t", &path, size, 0);
        }
    }
    let whole = one.finish("/t".to_string(), 0);
    let merged = b.merge(a).finish("/t".to_string(), 0);
    let s1: Vec<u64> = whole.top_files.iter().map(|f| f.size).collect();
    let s2: Vec<u64> = merged.top_files.iter().map(|f| f.size).collect();
    assert_eq!(s1.len(), 100);
    assert_eq!(s1, s2);
    assert_eq!(s1[0], 900 + 117);
    assert_eq!(s1[9], 900);
    assert_eq!(s1[10], 5);
}

#[test]
fn walk_steps_follow_the_answers() {
    let mut chain: Vec<String> = Vec::new();
    let next = walk_step(&mut chain, "/data/a".to_string(), true, Some("/data".to_string()));
    assert_eq!(next, Some("/data".to_string()));
    assert_eq!(chain, vec!["/data/a"]);
    let next = walk_step(&mut chain, "/data".to_string(), false, Some("/".to_string()));
    assert_eq!(next, None);
    assert_eq!(chain, vec!["/data/a"]);
    let next = walk_step(&mut chain, String::new(), true, None);
    assert_eq!(next, None);
    assert_eq!(chain.len(), 1);
}

#[test]
fn chains_start_at_a_directory_inside_the_root() {
    assert_eq!(chain_from("/data/a/b", "/data", true), vec!["/data/a/b", "/data/a", "/data"]);
    assert!(chain_from("/data/a/b", "/data", false).is_empty());
    assert!(chain_from("", "/data", true).is_empty());
}

#[test]
fn recorded_directories_keep_their_own_sizes() {
    let mut acc = ScanAccumulator::new();
    record(&mut acc, "/data", "/data/x.bin", 10, 0);
    record(&mut acc, "/data", "/data/sub/y.bin", 5, 0);
    let r = acc.finish("/data".to_string(), 0);
    assert_eq!(pairs(&r.dir_breakdown), vec![("/data", 15), ("/data/sub", 5)]);
    assert_eq!(r.dir_breakdown[0].1, r.total_size);
}

#[test]
fn extension_labels_follow_the_last_dot() {
    let mut acc = ScanAccumulator::new();
    record(&mut acc, "/r", "/r/archive.tar.GZ", 1, 0);
    record(&mut acc, "/r", "/r/README", 2, 0);
    record(&mut acc, "/r", "/r/.hidden", 3, 0);
    let r = acc.finish("/r".to_string(), 0);
    let mut labels: Vec<(String, u64)> = r.ext_breakdown.clone();
    labels.sort();
    assert_eq!(pairs(&labels), vec![("gz", 1), ("no extension", 5)]);
}

#[test]
fn the_root_collects_every_file_below_it() {
    let mut acc = ScanAccumulator::new();
    record(&mut acc, "/data", "/data/a/b/c/deep.bin", 7, 0);
    record(&mut acc, "/data", "/data/a/mid.bin", 5, 0);
    record(&mut acc, "/data", "/data/top.bin", 3, 0);
    record(&mut acc, "/data", "/data/z/side.bin", 11, 0);
    let r = acc.finish("/data".to_string(), 0);
    assert_eq!(r.dir_breakdown[0], ("/data".to_string(), r.total_size));
    assert_eq!(
        pairs(&r.dir_breakdown),
        vec![("/data", 26), ("/data/a", 12), ("/data/z", 11), ("/data/a/b", 7), ("/data/a/b/c", 7)]
    );
}
