use gaia_gmn::model::{files_summary, human_size, resolution_label, uptime_text, FileEntry, NightSummary};

fn float_size(bytes: u64) -> String {
    if bytes < 1024 {
        format!("{bytes} B")
    } else if bytes < 1024 * 1024 {
        format!("{:.1} KB", bytes as f64 / 1024.0)
    } else if bytes < 1024 * 1024 * 1024 {
        format!("{:.1} MB", bytes as f64 / (1024.0 * 1024.0))
    } else {
        format!("{:.2} GB", bytes as f64 / (1024.0 * 1024.0 * 1024.0))
    }
}

#[test]
fn human_size_exact_values() {
    assert_eq!(human_size(0), "0 B");
    assert_eq!(human_size(1023), "1023 B");
    assert_eq!(human_size(1024), "1.0 KB");
    assert_eq!(human_size(1536), "1.5 KB");
    assert_eq!(human_size(1048575), "1024.0 KB");
    assert_eq!(human_size(1048576), "1.0 MB");
    assert_eq!(human_size(1073741824), "1.00 GB");
    assert_eq!(human_size(1610612736), "1.50 GB");
}

#[test]
fn human_size_rounds_half_to_even() {
    // 1.25 KB and 1.75 KB are exact halves of a tenth.
    assert_eq!(human_size(1280), "1.2 KB");
    assert_eq!(human_size(1792), "1.8 KB");
    assert_eq!(human_size(1280), float_size(1280));
}

#[test]
fn human_size_matches_float_formatting() {
    let mut samples: Vec<u64> = Vec::new();
    let mut b: u64 = 1;
    while b < u64::MAX / 3 {
        samples.push(b);
        samples.push(b - 1);
        samples.push(b + 1);
        samples.push(b * 3 / 2);
        b = b * 3 + 7;
    }
    for k in 0..2000u64 {
        samples.push(k * 517 + 1000);
        samples.push(k * 1_048_573 + 1_048_000);
        samples.push(k * 1_073_741_827 + 1_073_000_000);
    }
    samples.push(u64::MAX);
    samples.push(u64::MAX - 1);
    samples.push((1u64 << 53) + 1);
    samples.push((1u64 << 60) + 12345);
    for s in samples {
        assert_eq!(human_size(s), float_size(s), "{s}");
    }
}

#[test]
fn entry_kinds_and_sizes() {
    let ff = FileEntry { name: "FF_AU000A.bin".to_string(), size: 2048 };
    let fs = FileEntry { name: "FS_AU000A.txt".to_string(), size: 10 };
    let other = FileEntry { name: "F".to_string(), size: 0 };
    assert!(ff.is_ff() && !ff.is_fs());
    assert!(fs.is_fs() && !fs.is_ff());
    assert!(!other.is_ff() && !other.is_fs());
    assert_eq!(ff.human_size(), "2.0 KB");
    let n = NightSummary {
        dir_name: "AU000A_20250301_210000_UTC".to_string(),
        station_id: "AU000A".to_string(),
        start_time: "2025-03-01 21:00:00 UTC".to_string(),
        ff_count: 1,
        fs_count: 1,
        total_bytes: 5 * 1024 * 1024,
    };
    assert_eq!(n.human_size(), "5.0 MB");
}

#[test]
fn dashboard_figures() {
    assert_eq!(uptime_text(0), "0h 0m");
    assert_eq!(uptime_text(3725), "1h 2m");
    assert_eq!(uptime_text(86399), "23h 59m");
    assert_eq!(resolution_label(1280, 720), "1280×720");
    let files = vec![
        FileEntry { name: "FF_1.bin".to_string(), size: 7 },
        FileEntry { name: "FS_1.txt".to_string(), size: 3 },
        FileEntry { name: "FF_2.bin".to_string(), size: 5 },
    ];
    assert_eq!(files_summary(&files), (2, 1, 15));
}

#[test]
fn candidates_are_unconfirmed_detections() {
    assert_eq!(gaia_gmn::model::candidate_count(10, 3), 7);
    assert_eq!(gaia_gmn::model::candidate_count(4, 4), 0);
    assert_eq!(gaia_gmn::model::candidate_count(0, 0), 0);
}
