use chrono::{DateTime, Datelike, Timelike, Utc};
use gaia_gmn::compression::{compress_frames, compression_sums_fit};
use gaia_gmn::ff::UtcTime;

fn utc_time(dt: DateTime<Utc>) -> UtcTime {
    UtcTime {
        year: dt.year(),
        month: dt.month(),
        day: dt.day(),
        hour: dt.hour(),
        minute: dt.minute(),
        second: dt.second(),
        millis: dt.timestamp_subsec_millis(),
    }
}

#[test]
fn test_compress_constant_frames() {
    // All pixels are 100 → max=100, mean≈100, std≈1 (clamped)
    let w = 4u32;
    let h = 4u32;
    let n = 256u32;
    let frames = vec![100u8; (n * h * w) as usize];

    let ff = compress_frames(&frames, w, h, n, 25000, "XX0001", -1, utc_time(Utc::now()));

    assert_eq!(ff.maxpixel.len(), (w * h) as usize);
    assert!(ff.maxpixel.iter().all(|&v| v == 100));
    // Mean should be close to 100 (top-4 exclusion of identical values
    // means we still average 252 values of 100)
    assert!(ff.avepixel.iter().all(|&v| v == 100));
    // Stddev should be 1 (clamped from 0)
    assert!(ff.stdpixel.iter().all(|&v| v == 1));
}

#[test]
fn test_compress_ramp() {
    // Pixel values ramp from 0..255 across 256 frames
    let w = 1u32;
    let h = 1u32;
    let n = 256u32;
    let frames: Vec<u8> = (0..256).map(|i| i as u8).collect();

    let ff = compress_frames(&frames, w, h, n, 25000, "XX0001", -1, utc_time(Utc::now()));

    assert_eq!(ff.maxpixel[0], 255);
    // Mean without top-4 (255,254,253,252) ≈ sum(0..252)/252
    let sum: u32 = (0u32..252).sum();
    let expected_mean = sum / 252;
    assert!((ff.avepixel[0] as i32 - expected_mean as i32).unsigned_abs() <= 1);
}

/// Straightforward floating-point model of one pixel, as the FTP algorithm
/// describes it (mean and deviation without the four brightest values).
fn reference_pixel(vals: &[u8]) -> (u8, u8, u8) {
    let n = vals.len();
    let mut sorted: Vec<u32> = vals.iter().map(|&v| v as u32).collect();
    sorted.sort_unstable_by(|a, b| b.cmp(a));
    let top4: u32 = sorted.iter().take(4).sum();
    let top4_sq: u64 = sorted.iter().take(4).map(|&v| (v as u64) * (v as u64)).sum();
    let acc: u32 = vals.iter().map(|&v| v as u32).sum();
    let var: u64 = vals.iter().map(|&v| (v as u64) * (v as u64)).sum();
    let n4 = if n >= 4 { n - 4 } else { 1 };
    let n5 = if n >= 5 { n - 5 } else { 1 };
    let acc_adj = acc - top4;
    let mean = acc_adj / n4 as u32;
    let var_adj = var - top4_sq;
    let variance = var_adj.saturating_sub((acc_adj as u64) * (mean as u64));
    let std = ((variance as f64 / n5 as f64).sqrt()) as u32;
    let std = if std == 0 { 1 } else { std };
    (sorted[0].min(255) as u8, mean.min(255) as u8, std.min(255) as u8)
}

#[test]
fn compress_matches_float_reference() {
    let (w, h, n) = (5u32, 3u32, 40u32);
    let npix = (w * h) as usize;
    let mut seed: u32 = 12345;
    let frames: Vec<u8> = (0..(n as usize * npix))
        .map(|_| {
            seed = seed.wrapping_mul(1103515245).wrapping_add(12345);
            (seed >> 16) as u8
        })
        .collect();
    let ff = compress_frames(&frames, w, h, n, 30000, "XX0001", -1, utc_time(Utc::now()));
    for p in 0..npix {
        let vals: Vec<u8> = (0..n as usize).map(|f| frames[f * npix + p]).collect();
        let (mx, mean, std) = reference_pixel(&vals);
        assert_eq!(ff.maxpixel[p], mx);
        assert_eq!(ff.avepixel[p], mean);
        assert_eq!(ff.stdpixel[p], std);
        // The max frame holds the maximum.
        assert_eq!(vals[ff.maxframe[p] as usize], mx);
    }
}

#[test]
fn five_frames_constant_and_varying() {
    // n = 5: the deviation divisor is zero.
    let frames = vec![7u8, 7, 7, 7, 7];
    let ff = compress_frames(&frames, 1, 1, 5, 25000, "S", -1, utc_time(Utc::now()));
    assert_eq!(ff.avepixel[0], 7);
    assert_eq!(ff.stdpixel[0], 1);
    let frames = vec![1u8, 9, 3, 200, 5];
    let ff = compress_frames(&frames, 1, 1, 5, 25000, "S", -1, utc_time(Utc::now()));
    assert_eq!(ff.maxpixel[0], 200);
    assert_eq!(ff.avepixel[0], 1);
    assert_eq!(ff.stdpixel[0], 1);
}

#[test]
fn field_sums_split_rows_when_deinterlacing() {
    // 2 frames of 2 rows × 1 column.
    let frames = vec![1u8, 2, 3, 4];
    let ff = compress_frames(&frames, 1, 2, 2, 25000, "S", 0, utc_time(Utc::now()));
    assert_eq!(ff.field_sums, vec![1, 2, 3, 4]);
    let ff = compress_frames(&frames, 1, 2, 2, 25000, "S", 1, utc_time(Utc::now()));
    assert_eq!(ff.field_sums, vec![2, 1, 4, 3]);
    let ff = compress_frames(&frames, 1, 2, 2, 25000, "S", -1, utc_time(Utc::now()));
    assert_eq!(ff.field_sums, vec![3, 7]);
}

#[test]
fn metadata_is_carried_over() {
    let frames = vec![0u8; 6 * 3];
    let t = UtcTime { year: 2024, month: 5, day: 6, hour: 7, minute: 8, second: 9, millis: 10 };
    let ff = compress_frames(&frames, 3, 2, 3, 12500, "ST_01", 1, t);
    assert_eq!((ff.nrows, ff.ncols, ff.nframes, ff.fps_millis), (2, 3, 3, 12500));
    assert_eq!(ff.station_id, "ST_01");
    assert_eq!(ff.deinterlace_order, 1);
    assert_eq!(ff.start_time, t);
    assert_eq!(ff.field_sums.len(), 6);
    // Fewer than four frames: the top four take every value, mean 0.
    assert!(ff.avepixel.iter().all(|&v| v == 0));
}

#[test]
fn max_frame_ties_follow_the_table() {
    // With every value equal, the recorded frame is where the table last
    // accepted a tie; it must be one of the frames.
    let frames = vec![50u8; 256 * 2];
    let ff = compress_frames(&frames, 2, 1, 256, 25000, "S", -1, utc_time(Utc::now()));
    for &f in &ff.maxframe {
        assert!((f as usize) < 256);
    }
    // Deterministic.
    let again = compress_frames(&frames, 2, 1, 256, 25000, "S", -1, utc_time(Utc::now()));
    assert_eq!(ff.maxframe, again.maxframe);
}

#[test]
fn zero_width_with_tall_deinterlaced_frames() {
    let start = UtcTime { year: 2025, month: 3, day: 1, hour: 21, minute: 0, second: 0, millis: 0 };
    let ff = compress_frames(&[], 0, 3_000_000_000, 2, 25000, "AU000A", 1, start);
    assert_eq!(ff.nrows, 3_000_000_000);
    assert_eq!(ff.ncols, 0);
    assert!(ff.maxpixel.is_empty() && ff.stdpixel.is_empty());
    assert_eq!(ff.field_sums, vec![0, 0, 0, 0]);
}

#[test]
fn sums_fit_checks_each_sum() {
    let frames = vec![200u8; 4 * 6];
    assert!(compression_sums_fit(&frames, 3, 2, 4, 0));
    assert!(compression_sums_fit(&[], 0, 3_000_000_000, 2, 1));
    // One pixel at full brightness in more frames than a u32 sum can hold.
    let n: u32 = 16_843_010;
    let bright = vec![255u8; n as usize];
    assert!(!compression_sums_fit(&bright, 1, 1, n, -1));
    assert!(compression_sums_fit(&bright[..16_843_009], 1, 1, n - 1, -1));
}
