use gaia_gmn::capture::{
    after_read, block_outcome, ffmpeg_args, frame_size, is_rtsp, listen_port, night_dir_name,
    pad_block, preview_jpeg, BlockOutcome, ReadOutcome,
};
use gaia_gmn::capture::{retry_start, MAX_START_ATTEMPTS, START_RETRY_DELAY_SECS};
use gaia_gmn::ff::UtcTime;
use gaia_gmn::files::parse_night_dir_name;

fn t() -> UtcTime {
    UtcTime { year: 2025, month: 3, day: 1, hour: 21, minute: 5, second: 9, millis: 0 }
}

#[test]
fn rtsp_devices_are_recognised() {
    assert!(is_rtsp("rtsp://cam/stream"));
    assert!(is_rtsp("rtsps://cam/stream"));
    assert!(!is_rtsp("/dev/video0"));
    assert!(!is_rtsp("rtsp:/x"));
    assert_eq!(frame_size(1280, 720), 921600);
}

#[test]
fn ffmpeg_args_for_v4l2() {
    let args = ffmpeg_args("/dev/video0", 1280, 720, "25");
    let expected = vec![
        "-hide_banner", "-loglevel", "warning", "-nostdin", "-f", "v4l2", "-video_size",
        "1280x720", "-framerate", "25", "-i", "/dev/video0", "-an", "-vf",
        "scale=1280:720,format=gray", "-f", "rawvideo", "-pix_fmt", "gray", "-",
    ];
    assert_eq!(args, expected);
}

#[test]
fn ffmpeg_args_for_rtsp() {
    let args = ffmpeg_args("rtsp://cam/s", 640, 480, "25");
    let expected = vec![
        "-hide_banner", "-loglevel", "warning", "-nostdin", "-rtsp_transport", "tcp", "-timeout",
        "10000000", "-i", "rtsp://cam/s", "-an", "-vf", "scale=640:480,format=gray", "-f",
        "rawvideo", "-pix_fmt", "gray", "-",
    ];
    assert_eq!(args, expected);
}

#[test]
fn night_directory_name() {
    assert_eq!(night_dir_name("AU000A", t()), "AU000A_20250301_210509_UTC");
}

#[test]
fn read_decisions() {
    let d = after_read(0, 0, ReadOutcome::Frame, 256);
    assert_eq!((d.frames_read, d.save_preview, d.block_done), (1, true, false));
    let d = after_read(65, 65, ReadOutcome::Frame, 256);
    assert_eq!((d.frames_read, d.save_preview, d.block_done), (66, false, false));
    let d = after_read(255, 255, ReadOutcome::Frame, 256);
    assert_eq!((d.frames_read, d.save_preview, d.block_done), (256, false, true));
    let d = after_read(128, 128, ReadOutcome::Eof, 256);
    assert_eq!((d.frames_read, d.save_preview, d.block_done), (128, false, true));
    let d = after_read(64, 64, ReadOutcome::Failed, 256);
    assert_eq!((d.frames_read, d.save_preview, d.block_done), (64, false, true));
}

#[test]
fn block_outcomes() {
    assert_eq!(block_outcome(0, 256), BlockOutcome::Stop);
    assert_eq!(block_outcome(10, 256), BlockOutcome::Pad);
    assert_eq!(block_outcome(256, 256), BlockOutcome::Full);
}

#[test]
fn padding_repeats_last_frame() {
    let mut buf = vec![1u8, 2, 3, 4, 0, 0, 0, 0];
    pad_block(&mut buf, 2, 4, 2);
    assert_eq!(buf, vec![1, 2, 3, 4, 3, 4, 3, 4]);
    let mut full = vec![9u8, 8, 7];
    pad_block(&mut full, 3, 3, 1);
    assert_eq!(full, vec![9, 8, 7]);
}

#[test]
fn preview_is_a_jpeg() {
    let frame: Vec<u8> = (0..64u32 * 48).map(|i| (i % 251) as u8).collect();
    let jpg = preview_jpeg(&frame, 64, 48).expect("encodes");
    assert_eq!(&jpg[0..2], &[0xFF, 0xD8]);
    assert_eq!(&jpg[jpg.len() - 2..], &[0xFF, 0xD9]);
    assert_ne!(jpg, frame);
    assert_eq!(preview_jpeg(&frame[..100], 64, 48), None);
}

#[test]
fn listen_ports() {
    assert_eq!(listen_port("0.0.0.0:8090"), 8090);
    assert_eq!(listen_port("[::]:9000"), 9000);
    assert_eq!(listen_port("8081"), 8081);
    assert_eq!(listen_port("localhost"), 8090);
    assert_eq!(listen_port("a:70000"), 8090);
    assert_eq!(listen_port("a:"), 8090);
    assert_eq!(listen_port("a:+80"), 80);
}

#[test]
fn night_directory_name_reads_back() {
    let name = night_dir_name("AU000A", t());
    assert_eq!(
        parse_night_dir_name(&name),
        ("AU000A".to_string(), "2025-03-01 21:05:09 UTC".to_string())
    );
    let early = UtcTime { year: 987, month: 12, day: 31, hour: 0, minute: 0, second: 0, millis: 999 };
    let name = night_dir_name("XX0001", early);
    assert_eq!(name, "XX0001_09871231_000000_UTC");
    assert_eq!(parse_night_dir_name(&name).1, "0987-12-31 00:00:00 UTC");
}

#[test]
fn start_is_retried_up_to_five_attempts() {
    assert_eq!(MAX_START_ATTEMPTS, 5);
    assert_eq!(START_RETRY_DELAY_SECS, 10);
    assert!(retry_start(1));
    assert!(retry_start(4));
    assert!(!retry_start(5));
}
