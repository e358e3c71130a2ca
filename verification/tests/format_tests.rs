use disk_analyzer::format::{format_bytes, format_date, format_number};

#[test]
fn format_number_groups_thousands() {
    assert_eq!(format_number(0), "0");
    assert_eq!(format_number(7), "7");
    assert_eq!(format_number(999), "999");
    assert_eq!(format_number(1000), "1,000");
    assert_eq!(format_number(1234567), "1,234,567");
    assert_eq!(format_number(1000001), "1,000,001");
    assert_eq!(format_number(u64::MAX), "18,446,744,073,709,551,615");
}

#[test]
fn format_number_without_commas_is_plain_decimal() {
    for n in [0u64, 5, 42, 999, 1000, 65536, 1_000_000, 987_654_321, u64::MAX] {
        assert_eq!(format_number(n).replace(',', ""), n.to_string());
    }
}

#[test]
fn format_bytes_exact_values() {
    assert_eq!(format_bytes(0), "0 Bytes");
    assert_eq!(format_bytes(1), "1.00 Bytes");
    assert_eq!(format_bytes(1023), "1023.00 Bytes");
    assert_eq!(format_bytes(1024), "1.00 KB");
    assert_eq!(format_bytes(1536), "1.50 KB");
    assert_eq!(format_bytes(1048575), "1024.00 KB");
    assert_eq!(format_bytes(1048576), "1.00 MB");
    assert_eq!(format_bytes(123456789), "117.74 MB");
    assert_eq!(format_bytes(1099511627776), "1.00 TB");
    assert_eq!(format_bytes(1125899906842624), "1.00 PB");
    assert_eq!(format_bytes(u64::MAX), "16384.00 PB");
}

#[test]
fn format_bytes_halves_round_to_even() {
    // 1152 / 1024 = 1.125 exactly; 1.125 lies halfway and goes to the even 1.12
    assert_eq!(format_bytes(1152), "1.12 KB");
    // 1.135... is not a half and rounds normally
    assert_eq!(format_bytes(1162), "1.13 KB");
}

fn float_text(bytes: u64) -> String {
    if bytes == 0 {
        return "0 Bytes".to_string();
    }
    let k: f64 = 1024.0;
    let sizes = ["Bytes", "KB", "MB", "GB", "TB", "PB"];
    let i = ((bytes as f64).log(k).floor() as usize).min(sizes.len() - 1);
    let val = (bytes as f64) / k.powi(i as i32);
    format!("{:.2} {}", val, sizes[i])
}

#[test]
fn format_bytes_agrees_with_floating_point_rendering() {
    let mut samples: Vec<u64> = Vec::new();
    for b in 0u64..5000 {
        samples.push(b);
    }
    for k in 1..5u32 {
        let p = 1024u64.pow(k);
        for d in 0..3000u64 {
            samples.push(p - d - 1);
            samples.push(p + d);
        }
    }
    let mut x: u64 = 0x9e37_79b9_7f4a_7c15;
    for _ in 0..20000 {
        x ^= x << 13;
        x ^= x >> 7;
        x ^= x << 17;
        samples.push(x % (1u64 << 49));
    }
    for b in samples {
        assert_eq!(format_bytes(b), float_text(b), "bytes = {}", b);
    }
}

#[test]
fn format_date_unknown_for_zero() {
    assert_eq!(format_date(0), "Unknown");
}

#[test]
fn format_date_known_instants() {
    assert_eq!(format_date(1), "1970-01-01 00:00");
    assert_eq!(format_date(59), "1970-01-01 00:00");
    assert_eq!(format_date(3600), "1970-01-01 01:00");
    assert_eq!(format_date(86399), "1970-01-01 23:59");
    assert_eq!(format_date(86400), "1970-01-02 00:00");
    assert_eq!(format_date(31536000), "1971-01-01 00:00");
    assert_eq!(format_date(1700000000), "2023-11-14 22:13");
    assert_eq!(format_date(253402300799), "9999-12-31 23:59");
    assert_eq!(format_date(253402300800), "10000-01-01 00:00");
}

#[test]
fn format_date_leap_years() {
    // 2000 is a leap year (divisible by 400), 2100 is not (divisible by 100)
    assert_eq!(format_date(951782400), "2000-02-29 00:00");
    assert_eq!(format_date(951868800), "2000-03-01 00:00");
    assert_eq!(format_date(4102444800), "2100-01-01 00:00");
    assert_eq!(format_date(4102444800 - 86400), "2099-12-31 00:00");
    // 2100-02-28 is followed by 2100-03-01
    assert_eq!(format_date(4107542400), "2100-03-01 00:00");
    assert_eq!(format_date(4107542400 - 86400), "2100-02-28 00:00");
}

#[test]
fn later_timestamps_never_read_earlier() {
    let stamps: Vec<u64> = vec![
        1, 59, 60, 3599, 3600, 86399, 86400, 951_782_399, 951_782_400, 978_307_199, 978_307_200,
        1_700_000_000, 4_102_444_800, 253_402_300_740, 253_402_300_799,
    ];
    for w in stamps.windows(2) {
        let (a, b) = (format_date(w[0]), format_date(w[1]));
        assert!(a <= b, "{} then {}", a, b);
    }
    assert_eq!(format_date(253_402_300_799), "9999-12-31 23:59");
}
