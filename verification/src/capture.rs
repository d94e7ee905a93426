//! Decisions of the capture loop: the ffmpeg command line, the night
//! directory name, how a block of frames is read and completed, and the
//! live preview image.
//!
//! The program runs the loop: it starts ffmpeg, reads frames from its pipe
//! and writes files; every choice in between is made here.

use image::codecs::jpeg::JpegEncoder;
use image::GrayImage;
use vstd::prelude::*;

use crate::ff::{date_digits, push_date_digits, push_time_digits, time_digits, UtcTime};
use crate::model::starts_with;
use crate::text::{chars_of, dec, parse_u32_range, parse_u32_spec, push_all, push_dec, string_of};

verus! {

// ---------------------------------------------------------------------------
// ffmpeg command line
// ---------------------------------------------------------------------------

/// The device is an RTSP(S) stream rather than a local V4L2 camera.
pub open spec fn is_rtsp_device(device: Seq<char>) -> bool {
    starts_with(device, "rtsp://"@) || starts_with(device, "rtsps://"@)
}

/// Whether `s` starts with `p`.
fn has_prefix(s: &[char], p: &[char]) -> (r: bool)
    ensures
        r == starts_with(s@, p@),
{
    if s.len() < p.len() {
        return false;
    }
    let mut i: usize = 0;
    while i < p.len()
        invariant
            p@.len() <= s@.len(),
            i <= p@.len(),
            forall|j: int| 0 <= j < i ==> s@[j] == p@[j],
        decreases p@.len() - i,
    {
        if s[i] != p[i] {
            assert(s@.subrange(0, p@.len() as int)[i as int] != p@[i as int]);
            return false;
        }
        i = i + 1;
    }
    assert(s@.subrange(0, p@.len() as int) =~= p@);
    true
}

/// Whether the video device is an RTSP(S) URL.
pub fn is_rtsp(device: &str) -> (r: bool)
    ensures
        r == is_rtsp_device(device@),
{
    let d = chars_of(device);
    let a = chars_of("rtsp://");
    let b = chars_of("rtsps://");
    has_prefix(d.as_slice(), a.as_slice()) || has_prefix(d.as_slice(), b.as_slice())
}

/// Bytes in one gray frame.
pub fn frame_size(width: u32, height: u32) -> (n: usize)
    requires
        width * height <= u32::MAX,
    ensures
        n == width * height,
{
    (width * height) as usize
}

/// `{w}x{h}`.
pub open spec fn video_size_text(width: u32, height: u32) -> Seq<char> {
    dec(width as nat) + seq!['x'] + dec(height as nat)
}

/// `scale={w}:{h},format=gray`.
pub open spec fn scale_filter_text(width: u32, height: u32) -> Seq<char> {
    "scale="@ + dec(width as nat) + seq![':'] + dec(height as nat) + ",format=gray"@
}

/// The ffmpeg arguments: quiet, no stdin; the RTSP input over TCP with a
/// 10 s timeout, or the V4L2 device at the configured size and frame rate;
/// then raw gray frames of the configured size on stdout, without audio.
pub open spec fn ffmpeg_arg_list(
    device: Seq<char>,
    width: u32,
    height: u32,
    framerate: Seq<char>,
) -> Seq<Seq<char>> {
    let head = seq!["-hide_banner"@, "-loglevel"@, "warning"@, "-nostdin"@];
    let input = if is_rtsp_device(device) {
        seq!["-rtsp_transport"@, "tcp"@, "-timeout"@, "10000000"@, "-i"@, device]
    } else {
        seq![
            "-f"@,
            "v4l2"@,
            "-video_size"@,
            video_size_text(width, height),
            "-framerate"@,
            framerate,
            "-i"@,
            device,
        ]
    };
    let output = seq![
        "-an"@,
        "-vf"@,
        scale_filter_text(width, height),
        "-f"@,
        "rawvideo"@,
        "-pix_fmt"@,
        "gray"@,
        "-"@,
    ];
    head + input + output
}

fn push_arg(args: &mut Vec<String>, a: &str)
    ensures
        final(args)@.map_values(|s: String| s@) == old(args)@.map_values(|s: String| s@).push(a@),
{
    broadcast use vstd::string::group_string_axioms;

    args.push(a.to_string());
    assert(args@.map_values(|s: String| s@) =~= old(args)@.map_values(|s: String| s@).push(a@));
}

fn push_arg_chars(args: &mut Vec<String>, a: &[char])
    ensures
        final(args)@.map_values(|s: String| s@) == old(args)@.map_values(|s: String| s@).push(a@),
{
    args.push(string_of(a));
    assert(args@.map_values(|s: String| s@) =~= old(args)@.map_values(|s: String| s@).push(a@));
}

/// The ffmpeg command-line arguments for the configured device.  The frame
/// rate is passed already written out (it is a floating-point setting).
pub fn ffmpeg_args(device: &str, width: u32, height: u32, framerate: &str) -> (args: Vec<String>)
    ensures
        args@.map_values(|s: String| s@) == ffmpeg_arg_list(device@, width, height, framerate@),
{
    let mut args: Vec<String> = Vec::new();
    push_arg(&mut args, "-hide_banner");
    push_arg(&mut args, "-loglevel");
    push_arg(&mut args, "warning");
    push_arg(&mut args, "-nostdin");
    let ghost head = args@.map_values(|s: String| s@);
    if is_rtsp(device) {
        push_arg(&mut args, "-rtsp_transport");
        push_arg(&mut args, "tcp");
        push_arg(&mut args, "-timeout");
        push_arg(&mut args, "10000000");
        push_arg(&mut args, "-i");
        push_arg(&mut args, device);
    } else {
        push_arg(&mut args, "-f");
        push_arg(&mut args, "v4l2");
        push_arg(&mut args, "-video_size");
        let mut size: Vec<char> = Vec::new();
        push_dec(&mut size, width as u64);
        size.push('x');
        push_dec(&mut size, height as u64);
        assert(size@ =~= video_size_text(width, height));
        push_arg_chars(&mut args, size.as_slice());
        push_arg(&mut args, "-framerate");
        push_arg(&mut args, framerate);
        push_arg(&mut args, "-i");
        push_arg(&mut args, device);
    }
    push_arg(&mut args, "-an");
    push_arg(&mut args, "-vf");
    let mut filter: Vec<char> = chars_of("scale=");
    push_dec(&mut filter, width as u64);
    filter.push(':');
    push_dec(&mut filter, height as u64);
    let tail = chars_of(",format=gray");
    push_all(&mut filter, tail.as_slice());
    assert(filter@ =~= scale_filter_text(width, height));
    push_arg_chars(&mut args, filter.as_slice());
    push_arg(&mut args, "-f");
    push_arg(&mut args, "rawvideo");
    push_arg(&mut args, "-pix_fmt");
    push_arg(&mut args, "gray");
    push_arg(&mut args, "-");
    assert(args@.map_values(|s: String| s@) =~= ffmpeg_arg_list(
        device@,
        width,
        height,
        framerate@,
    ));
    args
}

// ---------------------------------------------------------------------------
// Starting ffmpeg
// ---------------------------------------------------------------------------

/// How many times starting ffmpeg is tried before the server runs without
/// capture.
pub const MAX_START_ATTEMPTS: u32 = 5;

/// Seconds waited between two attempts to start ffmpeg.
pub const START_RETRY_DELAY_SECS: u64 = 10;

/// After start attempt `attempt` (counted from 1) failed: whether to wait
/// [`START_RETRY_DELAY_SECS`] and try again.
pub fn retry_start(attempt: u32) -> (again: bool)
    ensures
        again == (attempt < MAX_START_ATTEMPTS),
{
    attempt < MAX_START_ATTEMPTS
}

// ---------------------------------------------------------------------------
// Night directory
// ---------------------------------------------------------------------------

/// `{station}_{YYYYMMDD}_{HHMMSS}_UTC`.
pub open spec fn night_dir_name_text(station: Seq<char>, t: UtcTime) -> Seq<char> {
    station + seq!['_'] + date_digits(t) + seq!['_'] + time_digits(t) + seq!['_', 'U', 'T', 'C']
}

/// Name of the night directory opened when capture starts at `t`.
pub fn night_dir_name(station: &str, t: UtcTime) -> (name: String)
    ensures
        name@ == night_dir_name_text(station@, t),
{
    let mut out = chars_of(station);
    out.push('_');
    push_date_digits(&mut out, t);
    out.push('_');
    push_time_digits(&mut out, t);
    push_all(&mut out, &['_', 'U', 'T', 'C']);
    assert(out@ =~= night_dir_name_text(station@, t));
    string_of(out.as_slice())
}

// ---------------------------------------------------------------------------
// Reading a block
// ---------------------------------------------------------------------------

/// What reading one frame from ffmpeg gave.
#[derive(Clone, Copy, Debug, PartialEq, Eq, Structural)]
pub enum ReadOutcome {
    /// A whole frame.
    Frame,
    /// The pipe ended.
    Eof,
    /// The read failed.
    Failed,
}

/// What to do after reading frame `i` of a block.
#[derive(Clone, Copy, Debug, PartialEq, Eq, Structural)]
pub struct ReadDecision {
    /// Frames read so far in this block.
    pub frames_read: usize,
    /// Save this frame as the live preview.
    pub save_preview: bool,
    /// Stop reading this block.
    pub block_done: bool,
}

/// After the read of frame `i` (of `nframes`) with `frames_read` frames
/// already read: a frame counts, every 64th frame becomes the live preview,
/// and the block ends after its last frame or at the first end of pipe or
/// read error.
pub fn after_read(i: usize, frames_read: usize, outcome: ReadOutcome, nframes: usize) -> (d:
    ReadDecision)
    requires
        i < nframes,
        frames_read <= i,
    ensures
        d.frames_read == (if outcome == ReadOutcome::Frame {
            frames_read + 1
        } else {
            frames_read as int
        }),
        d.save_preview == (outcome == ReadOutcome::Frame && i % 64 == 0),
        d.block_done == (outcome != ReadOutcome::Frame || i + 1 == nframes),
{
    match outcome {
        ReadOutcome::Frame => ReadDecision {
            frames_read: frames_read + 1,
            save_preview: i % 64 == 0,
            block_done: i + 1 == nframes,
        },
        _ => ReadDecision { frames_read, save_preview: false, block_done: true },
    }
}

/// What to do with a block once reading it ended.
#[derive(Clone, Copy, Debug, PartialEq, Eq, Structural)]
pub enum BlockOutcome {
    /// No frame was read: capture stops.
    Stop,
    /// Some frames are missing: pad them with the last one read.
    Pad,
    /// The block is complete.
    Full,
}

/// The fate of a block from the number of frames read into it.
pub fn block_outcome(frames_read: usize, nframes: usize) -> (o: BlockOutcome)
    ensures
        o == (if frames_read == 0 {
            BlockOutcome::Stop
        } else if frames_read < nframes {
            BlockOutcome::Pad
        } else {
            BlockOutcome::Full
        }),
{
    if frames_read == 0 {
        BlockOutcome::Stop
    } else if frames_read < nframes {
        BlockOutcome::Pad
    } else {
        BlockOutcome::Full
    }
}

/// Fills frames `frames_read..nframes` of a block with copies of frame
/// `frames_read - 1`; the frames read stay as they are.
pub fn pad_block(buf: &mut Vec<u8>, frames_read: usize, nframes: usize, npix: usize)
    requires
        0 < frames_read <= nframes,
        old(buf)@.len() == nframes * npix,
    ensures
        final(buf)@.len() == old(buf)@.len(),
        forall|f: int, p: int|
            0 <= f < frames_read && 0 <= p < npix ==> #[trigger] final(buf)@[f * npix + p] == old(
                buf,
            )@[f * npix + p],
        forall|f: int, p: int|
            frames_read <= f < nframes && 0 <= p < npix ==> #[trigger] final(buf)@[f * npix + p]
                == old(buf)@[(frames_read - 1) * npix + p],
{
    let ghost orig = buf@;
    let ghost kept = frames_read * npix;
    let total: usize = buf.len();
    proof {
        assert((frames_read - 1) * npix <= nframes * npix) by (nonlinear_arith)
            requires
                frames_read <= nframes,
                frames_read >= 1,
        ;
    }
    let last: usize = (frames_read - 1) * npix;
    proof {
        assert(last + npix == kept) by (nonlinear_arith)
            requires
                last == (frames_read - 1) * npix,
                kept == frames_read * npix,
        ;
        assert(kept <= nframes * npix) by (nonlinear_arith)
            requires
                frames_read <= nframes,
                kept == frames_read * npix,
        ;
    }
    let mut f: usize = frames_read;
    while f < nframes
        invariant
            0 < frames_read <= f <= nframes,
            kept == frames_read * npix,
            last + npix == kept,
            kept <= f * npix,
            f * npix <= nframes * npix,
            total == nframes * npix,
            buf@.len() == nframes * npix,
            orig.len() == nframes * npix,
            forall|i: int| 0 <= i < kept ==> #[trigger] buf@[i] == orig[i],
            forall|g: int, q: int|
                frames_read <= g < f && 0 <= q < npix ==> #[trigger] buf@[g * npix + q] == orig[last
                    + q],
        decreases nframes - f,
    {
        let ghost before = buf@;
        proof {
            assert(f * npix + npix <= nframes * npix) by (nonlinear_arith)
                requires
                    f < nframes,
            ;
            assert(f * npix + npix == (f + 1) * npix) by (nonlinear_arith);
        }
        let off: usize = f * npix;
        let mut p: usize = 0;
        while p < npix
            invariant
                off + npix <= nframes * npix,
                kept <= off,
                last + npix == kept,
                p <= npix,
                total == nframes * npix,
                buf@.len() == before.len(),
                before.len() == nframes * npix,
                forall|i: int|
                    0 <= i < before.len() && !(off <= i < off + p) ==> #[trigger] buf@[i]
                        == before[i],
                forall|q: int| 0 <= q < p ==> #[trigger] buf@[off + q] == before[last + q],
            decreases npix - p,
        {
            let v = buf[last + p];
            buf.set(off + p, v);
            p = p + 1;
        }
        proof {
            assert forall|i: int| 0 <= i < kept implies #[trigger] buf@[i] == orig[i] by {
                assert(buf@[i] == before[i]);
            }
            assert forall|g: int, q: int|
                frames_read <= g < f + 1 && 0 <= q < npix implies #[trigger] buf@[g * npix + q]
                == orig[last + q] by {
                if g == f {
                    assert(g * npix + q == off + q);
                    assert(before[last + q] == orig[last + q]);
                } else {
                    assert(g * npix + q < f * npix) by (nonlinear_arith)
                        requires
                            g < f,
                            0 <= q < npix,
                    ;
                    assert(g * npix + q >= 0) by (nonlinear_arith)
                        requires
                            g >= 0,
                            0 <= q,
                            npix >= 0,
                    ;
                    assert(buf@[g * npix + q] == before[g * npix + q]);
                }
            }
        }
        f = f + 1;
    }
    proof {
        assert forall|g: int, q: int|
            0 <= g < frames_read && 0 <= q < npix implies #[trigger] buf@[g * npix + q] == orig[g
                * npix + q] by {
            assert(g * npix + q < kept) by (nonlinear_arith)
                requires
                    g < frames_read,
                    0 <= q < npix,
                    kept == frames_read * npix,
            ;
        }
    }
}

// ---------------------------------------------------------------------------
// Live preview
// ---------------------------------------------------------------------------

/// Quality of the live preview JPEG.
pub const PREVIEW_QUALITY: u8 = 75;

/// The JPEG file that the image crate produces for a gray frame of
/// `width × height` pixels at the given quality, or `None` where it
/// produces none.
pub uninterp spec fn gray_jpeg(width: u32, height: u32, pixels: Seq<u8>, quality: u8) -> Option<
    Seq<u8>,
>;

/// Encodes a gray frame as JPEG with the image crate: `GrayImage::from_raw`
/// wraps the pixels (it refuses a buffer shorter than `width × height`),
/// and `write_with_encoder` with `JpegEncoder::new_with_quality` encodes it.
/// The bytes are named by [`gray_jpeg`]; beyond the short-buffer case the
/// contract says nothing of when encoding fails.
#[verifier::external_body]
fn encode_gray_jpeg(width: u32, height: u32, pixels: &[u8], quality: u8) -> (r: Option<Vec<u8>>)
    requires
        1 <= quality <= 100,
    ensures
        match r {
            Some(b) => gray_jpeg(width, height, pixels@, quality) == Some(b@),
            None => gray_jpeg(width, height, pixels@, quality) is None,
        },
        pixels@.len() < width * height ==> r is None,
{
    let img = GrayImage::from_raw(width, height, pixels.to_vec())?;
    let mut out: Vec<u8> = Vec::new();
    let encoder = JpegEncoder::new_with_quality(&mut out, quality);
    match img.write_with_encoder(encoder) {
        Ok(()) => Some(out),
        Err(_) => None,
    }
}

/// The live-preview JPEG of a frame (quality 75), or `None` when the frame
/// is shorter than `width × height` or cannot be encoded.
pub fn preview_jpeg(frame: &[u8], width: u32, height: u32) -> (r: Option<Vec<u8>>)
    ensures
        match r {
            Some(b) => gray_jpeg(width, height, frame@, PREVIEW_QUALITY) == Some(b@),
            None => gray_jpeg(width, height, frame@, PREVIEW_QUALITY) is None,
        },
        frame@.len() < width * height ==> r is None,
{
    encode_gray_jpeg(width, height, frame, PREVIEW_QUALITY)
}


// ---------------------------------------------------------------------------
// Listening port
// ---------------------------------------------------------------------------

/// Index of the last `c` in `s`.
pub open spec fn rfind_char(s: Seq<char>, c: char) -> Option<int>
    decreases s.len(),
{
    if s.len() == 0 {
        None
    } else if s.last() == c {
        Some(s.len() - 1)
    } else {
        rfind_char(s.drop_last(), c)
    }
}

/// The port announced for service discovery: what follows the last `:` of
/// the listen address (the whole address when it has none), read as a
/// `u16`, or 8090 when that does not parse.
pub open spec fn listen_port_of(addr: Seq<char>) -> u16 {
    let tail = match rfind_char(addr, ':') {
        Some(i) => addr.subrange(i + 1, addr.len() as int),
        None => addr,
    };
    match parse_u32_spec(tail) {
        Some(v) => if v <= 65535 {
            v as u16
        } else {
            8090
        },
        None => 8090,
    }
}

/// Port of the listen address.
pub fn listen_port(addr: &str) -> (port: u16)
    ensures
        port == listen_port_of(addr@),
{
    let s = chars_of(addr);
    let mut j = s.len();
    assert(s@.subrange(0, s@.len() as int) =~= s@);
    while j > 0 && s[j - 1] != ':'
        invariant
            s@ == addr@,
            j <= s@.len(),
            rfind_char(s@, ':') == rfind_char(s@.subrange(0, j as int), ':'),
        decreases j,
    {
        assert(s@.subrange(0, j as int).drop_last() =~= s@.subrange(0, j - 1));
        j = j - 1;
    }
    let start = if j == 0 {
        assert(s@.subrange(0, 0) =~= Seq::<char>::empty());
        0
    } else {
        assert(rfind_char(s@.subrange(0, j as int), ':') == Some(j - 1));
        j
    };
    assert(s@.subrange(start as int, s@.len() as int) =~= (match rfind_char(s@, ':') {
        Some(i) => s@.subrange(i + 1, s@.len() as int),
        None => s@,
    }));
    match parse_u32_range(s.as_slice(), start, s.len()) {
        Some(v) => {
            if v <= 65535 {
                v as u16
            } else {
                8090
            }
        },
        None => 8090,
    }
}

/// The ffmpeg command line opens an RTSP or RTSPS stream (a device
/// starting with `rtsp://` or `rtsps://`) over TCP with a 10 s timeout, and
/// any other device as a V4L2 camera at the configured size and frame rate;
/// either way it writes raw gray frames of the configured size to stdout.
pub proof fn law_ffmpeg_input(device: Seq<char>, width: u32, height: u32, framerate: Seq<char>)
    ensures
        ({
            let args = ffmpeg_arg_list(device, width, height, framerate);
            let stream = (device.len() >= 7 && device.subrange(0, 7) == seq![
                'r',
                't',
                's',
                'p',
                ':',
                '/',
                '/',
            ]) || (device.len() >= 8 && device.subrange(0, 8) == seq![
                'r',
                't',
                's',
                'p',
                's',
                ':',
                '/',
                '/',
            ]);
            let filter = "scale="@ + dec(width as nat) + seq![':'] + dec(height as nat)
                + ",format=gray"@;
            let tail = seq![
                "-an"@,
                "-vf"@,
                filter,
                "-f"@,
                "rawvideo"@,
                "-pix_fmt"@,
                "gray"@,
                "-"@,
            ];
            let head = seq!["-hide_banner"@, "-loglevel"@, "warning"@, "-nostdin"@];
            &&& stream ==> args == head + seq![
                "-rtsp_transport"@,
                "tcp"@,
                "-timeout"@,
                "10000000"@,
                "-i"@,
                device,
            ] + tail
            &&& !stream ==> args == head + seq![
                "-f"@,
                "v4l2"@,
                "-video_size"@,
                dec(width as nat) + seq!['x'] + dec(height as nat),
                "-framerate"@,
                framerate,
                "-i"@,
                device,
            ] + tail
        }),
{
    reveal_strlit("rtsp://");
    reveal_strlit("rtsps://");
    assert("rtsp://"@ =~= seq!['r', 't', 's', 'p', ':', '/', '/']);
    assert("rtsps://"@ =~= seq!['r', 't', 's', 'p', 's', ':', '/', '/']);
}

} // verus!
