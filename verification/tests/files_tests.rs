use gaia_gmn::files::{
    content_type, count_night_files, most_recent, night_dir_path, parse_night_dir_name,
    plain_name, select_capture_files, sort_nights, text_less, DirStamp,
};
use gaia_gmn::model::{FileEntry, NightSummary};

fn entry(name: &str, size: u64) -> FileEntry {
    FileEntry { name: name.to_string(), size }
}

fn night(dir: &str, start: &str) -> NightSummary {
    NightSummary {
        dir_name: dir.to_string(),
        station_id: "AU000A".to_string(),
        start_time: start.to_string(),
        ff_count: 0,
        fs_count: 0,
        total_bytes: 0,
    }
}

#[test]
fn plain_names_refuse_traversal() {
    assert!(plain_name("AU000A_20250301_210000_UTC"));
    assert!(plain_name("a.b.c"));
    assert!(plain_name(""));
    assert!(!plain_name(".."));
    assert!(!plain_name("a..b"));
    assert!(!plain_name("a/b"));
    assert!(!plain_name("a\\b"));
    assert!(!plain_name("/etc"));
}

#[test]
fn night_dir_path_joins_under_captured_files() {
    assert_eq!(
        night_dir_path("/data", "AU000A_20250301_210000_UTC"),
        Some("/data/CapturedFiles/AU000A_20250301_210000_UTC".to_string())
    );
    assert_eq!(
        night_dir_path("/data/", "N1"),
        Some("/data/CapturedFiles/N1".to_string())
    );
    assert_eq!(night_dir_path("/data", "../etc"), None);
    assert_eq!(night_dir_path("/data", "a/b"), None);
    assert_eq!(night_dir_path("/data", "a\\b"), None);
}

#[test]
fn content_types_by_extension() {
    assert_eq!(content_type("FF_AU000A_20250301_210000_000_000000.bin"), "application/octet-stream");
    assert_eq!(content_type("FS_AU000A_20250301_210000_000_000000_fieldsum.txt"), "text/plain");
    assert_eq!(content_type("bin"), "text/plain");
    assert_eq!(content_type(".bin"), "application/octet-stream");
}

#[test]
fn night_dir_names_split_into_station_and_time() {
    assert_eq!(
        parse_night_dir_name("AU000A_20250301_210000_UTC"),
        ("AU000A".to_string(), "2025-03-01 21:00:00 UTC".to_string())
    );
    assert_eq!(
        parse_night_dir_name("XX0001_19991231_235959_UTC_extra"),
        ("XX0001".to_string(), "1999-12-31 23:59:59 UTC".to_string())
    );
}

#[test]
fn other_night_dir_names_come_back_whole() {
    for name in ["random", "AU000A_2025_210000_UTC", "AU000A_20250301_2100_UTC", "A_B_C", ""] {
        assert_eq!(parse_night_dir_name(name), (name.to_string(), name.to_string()));
    }
}

#[test]
fn night_dir_names_cut_inside_a_character() {
    // "aé" + "ééé" has eight bytes, but byte 4 falls inside an "é": the
    // name comes back whole.
    let name = "S_aéééb_210000_UTC";
    assert_eq!(parse_night_dir_name(name), (name.to_string(), name.to_string()));
    let name = "X_aéééa_000000_UTC";
    assert_eq!(parse_night_dir_name(name), (name.to_string(), name.to_string()));
    let name = "S_ééééé_210000_UTC";
    assert_eq!(parse_night_dir_name(name), (name.to_string(), name.to_string()));
    assert_eq!(
        parse_night_dir_name("S_éééé_210000_UTC"),
        ("S".to_string(), "éé-é-é 21:00:00 UTC".to_string())
    );
}

#[test]
fn counts_every_entry_size() {
    let entries = vec![
        entry("FF_a.bin", 100),
        entry("FS_a.txt", 10),
        entry("FF_b.bin", 200),
        entry("notes.txt", 5),
    ];
    assert_eq!(count_night_files(&entries), (2, 1, 315));
    assert_eq!(count_night_files(&vec![]), (0, 0, 0));
}

#[test]
fn capture_files_are_selected_and_sorted() {
    let entries = vec![
        entry("FS_b.txt", 3),
        entry("live.jpg", 9),
        entry("FF_b.bin", 2),
        entry("FF_a.bin", 1),
        entry("ff_c.bin", 4),
    ];
    let files = select_capture_files(entries);
    let names: Vec<&str> = files.iter().map(|f| f.name.as_str()).collect();
    assert_eq!(names, vec!["FF_a.bin", "FF_b.bin", "FS_b.txt"]);
    assert_eq!(files[0].size, 1);
}

#[test]
fn nights_most_recent_first() {
    let nights = vec![
        night("A", "2025-03-01 21:00:00 UTC"),
        night("B", "2025-03-03 21:00:00 UTC"),
        night("C", "2025-03-02 21:00:00 UTC"),
        night("D", "2025-03-03 21:00:00 UTC"),
    ];
    let sorted = sort_nights(nights);
    let dirs: Vec<&str> = sorted.iter().map(|n| n.dir_name.as_str()).collect();
    assert_eq!(dirs, vec!["B", "D", "C", "A"]);
}

#[test]
fn text_order_is_string_order() {
    assert!(text_less("a", "b"));
    assert!(text_less("a", "ab"));
    assert!(!text_less("ab", "a"));
    assert!(!text_less("a", "a"));
    assert!(text_less("Z", "a"));
    assert!(text_less("z", "é"));
}

#[test]
fn most_recent_picks_latest_first_listed() {
    let dirs = vec![
        DirStamp { path: "a".to_string(), modified: 5 },
        DirStamp { path: "b".to_string(), modified: 9 },
        DirStamp { path: "c".to_string(), modified: 9 },
        DirStamp { path: "d".to_string(), modified: -3 },
    ];
    assert_eq!(most_recent(&dirs), Some(1));
    assert_eq!(most_recent(&vec![]), None);
}
