use chrono::{DateTime, Datelike, TimeZone, Timelike, Utc};
use gaia_gmn::ff::{FfData, UtcTime};
use gaia_gmn::files::content_type;
use gaia_gmn::model::FileEntry;

fn utc_time(dt: DateTime<Utc>) -> UtcTime {
    UtcTime {
        year: dt.year(),
        month: dt.month(),
        day: dt.day(),
        hour: dt.hour(),
        minute: dt.minute(),
        second: dt.second(),
        millis: dt.timestamp_subsec_millis(),
    }
}

fn sample(station: &str, start: UtcTime) -> FfData {
    FfData {
        nrows: 720,
        ncols: 1280,
        nframes: 256,
        fps_millis: 25000,
        station_id: station.into(),
        deinterlace_order: -1,
        start_time: start,
        maxpixel: vec![],
        maxframe: vec![],
        avepixel: vec![],
        stdpixel: vec![],
        field_sums: vec![],
    }
}

#[test]
fn test_ff_filename() {
    let ff = sample("US_0001", utc_time(Utc.with_ymd_and_hms(2026, 3, 1, 20, 15, 30).unwrap()));
    assert_eq!(ff.filename(), "FF_US0001_20260301_201530_000_0000000.bin");
}

#[test]
fn test_write_bin_roundtrip() {
    let n = 4usize; // 2×2
    let ff = FfData {
        nrows: 2,
        ncols: 2,
        nframes: 256,
        fps_millis: 25000,
        station_id: "1".into(),
        deinterlace_order: -1,
        start_time: utc_time(Utc::now()),
        maxpixel: vec![100, 200, 150, 50],
        maxframe: vec![10, 20, 30, 40],
        avepixel: vec![80, 90, 70, 60],
        stdpixel: vec![5, 6, 7, 8],
        field_sums: vec![],
    };
    let mut buf = Vec::new();
    ff.write_bin(&mut buf);
    // Header: 9 × 4 bytes = 36, then 4 planes × 4 bytes = 16 → total 52
    assert_eq!(buf.len(), 36 + n * 4);
    // Check version flag
    assert_eq!(&buf[0..4], &(-1i32).to_le_bytes());
}

#[test]
fn filename_strips_spaces_colons_and_pads_millis() {
    let dt = Utc.with_ymd_and_hms(2025, 12, 31, 23, 59, 59).unwrap() + chrono::Duration::milliseconds(7);
    let ff = sample(" A:B_C ", utc_time(dt));
    assert_eq!(ff.filename(), "FF_ABC_20251231_235959_007_0000000.bin");
    assert_eq!(ff.fs_filename(), "FS_ABC_20251231_235959_007_0000000_fieldsum.txt");
}

#[test]
fn filename_matches_chrono_formatting() {
    for secs in [0i64, 86_399, 951_782_400, 1_700_000_000, 4_102_444_800] {
        let dt = DateTime::<Utc>::from_timestamp(secs, 123_000_000).unwrap();
        let ff = sample("XX0001", utc_time(dt));
        let expected = format!(
            "FF_XX0001_{}_{}_{:03}_0000000.bin",
            dt.format("%Y%m%d"),
            dt.format("%H%M%S"),
            dt.timestamp_subsec_millis()
        );
        assert_eq!(ff.filename(), expected);
    }
}

#[test]
fn year_outside_four_digits_carries_a_sign() {
    let mut t = utc_time(Utc.with_ymd_and_hms(2026, 1, 2, 3, 4, 5).unwrap());
    t.year = 12345;
    assert_eq!(sample("S", t).filename(), "FF_S_+123450102_030405_000_0000000.bin");
    t.year = -44;
    assert_eq!(sample("S", t).filename(), "FF_S_-00440102_030405_000_0000000.bin");
    let dt = Utc.with_ymd_and_hms(-44, 1, 2, 3, 4, 5).unwrap();
    assert_eq!(format!("{}", dt.format("%Y%m%d")), "-00440102");
}

#[test]
fn header_fields_are_little_endian() {
    let ff = FfData {
        nrows: 2,
        ncols: 3,
        nframes: 256,
        fps_millis: 29970,
        station_id: "AB12_34".into(),
        deinterlace_order: 1,
        start_time: utc_time(Utc::now()),
        maxpixel: vec![1; 6],
        maxframe: vec![2; 6],
        avepixel: vec![3; 6],
        stdpixel: vec![4; 6],
        field_sums: vec![],
    };
    let mut buf = vec![9u8];
    ff.write_bin(&mut buf);
    let b = &buf[1..];
    let word = |i: usize| u32::from_le_bytes([b[4 * i], b[4 * i + 1], b[4 * i + 2], b[4 * i + 3]]);
    assert_eq!(buf[0], 9);
    assert_eq!(word(0), 0xffff_ffff);
    assert_eq!(word(1), 2);
    assert_eq!(word(2), 3);
    assert_eq!(word(3), 256);
    assert_eq!(word(4), 0);
    assert_eq!(word(5), 1234);
    assert_eq!(word(6), 1);
    assert_eq!(word(7), 2);
    assert_eq!(word(8), 29970);
    assert_eq!(&b[36..42], &[1; 6]);
    assert_eq!(&b[42..48], &[2; 6]);
    assert_eq!(&b[48..54], &[3; 6]);
    assert_eq!(&b[54..60], &[4; 6]);
    assert_eq!(b.len(), 60);
}

#[test]
fn camera_number_edge_cases() {
    let mut ff = FfData {
        nrows: 0,
        ncols: 0,
        nframes: 0,
        fps_millis: 0,
        station_id: "NODIGITS".into(),
        deinterlace_order: 0,
        start_time: utc_time(Utc::now()),
        maxpixel: vec![],
        maxframe: vec![],
        avepixel: vec![],
        stdpixel: vec![],
        field_sums: vec![],
    };
    let camno = |ff: &FfData| {
        let mut b = Vec::new();
        ff.write_bin(&mut b);
        (u32::from_le_bytes([b[20], b[21], b[22], b[23]]), u32::from_le_bytes([b[28], b[29], b[30], b[31]]))
    };
    assert_eq!(camno(&ff), (0, 1));
    ff.station_id = "X99999999999".into();
    ff.deinterlace_order = 7;
    assert_eq!(camno(&ff), (0, 0));
    ff.station_id = "X4294967295".into();
    assert_eq!(camno(&ff).0, 4294967295);
}

#[test]
fn field_sums_text_progressive_and_deinterlaced() {
    let mut ff = sample("US_0001", utc_time(Utc.with_ymd_and_hms(2026, 3, 1, 20, 15, 30).unwrap()));
    ff.field_sums = vec![10, 20, 30];
    assert_eq!(
        ff.field_sums_text(),
        "FS_US0001_20260301_201530_000_0000000_fieldsum.txt\n\nFrame, Intensity sum\n0.0, 10\n1.0, 20\n2.0, 30\n"
    );
    ff.deinterlace_order = 0;
    let text = ff.field_sums_text();
    assert!(text.ends_with("Frame, Intensity sum\n0.0, 10\n0.5, 20\n1.0, 30\n"));
    // Same text as floating-point formatting gives.
    let mut expected = String::new();
    for (i, v) in [10u32, 20, 30].iter().enumerate() {
        expected.push_str(&format!("{:.1}, {}\n", i as f64 / 2.0, v));
    }
    assert!(text.ends_with(&expected));
}

#[test]
fn written_files_are_listed_and_served() {
    let ff = sample("AU:00 0A", utc_time(Utc.with_ymd_and_hms(2025, 3, 1, 21, 0, 0).unwrap()));
    let ff_name = ff.filename();
    let fs_name = ff.fs_filename();
    assert_eq!(fs_name, "FS_AU000A_20250301_210000_000_0000000_fieldsum.txt");
    assert!(FileEntry { name: ff_name.clone(), size: 0 }.is_ff());
    assert!(FileEntry { name: fs_name.clone(), size: 0 }.is_fs());
    assert_eq!(content_type(&ff_name), "application/octet-stream");
    assert_eq!(content_type(&fs_name), "text/plain");
}
