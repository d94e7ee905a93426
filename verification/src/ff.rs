//! The FF binary file (CAMS "new" format v2) and its FS field-sum
//! companion: file names, the byte layout, and the text of the sums.

use byteorder::{LittleEndian, WriteBytesExt};
use vstd::prelude::*;

use crate::text::{all_digits, chars_of, dec, dec_padded, digits_value, drop_sign, is_digit, parse_u32_range, parse_u32_spec, push_all, push_dec, push_dec_padded, string_of};

verus! {

/// A UTC instant broken into the calendar fields that file and directory
/// names are made of.  `millis` is the sub-second part in milliseconds.
#[derive(Clone, Copy, Debug, PartialEq, Eq, Structural)]
pub struct UtcTime {
    pub year: i32,
    pub month: u32,
    pub day: u32,
    pub hour: u32,
    pub minute: u32,
    pub second: u32,
    pub millis: u32,
}

/// Result of the FTP compression of one block of frames.
///
/// The planes are row-major `nrows × ncols` images; `fps_millis` is the
/// frame rate times 1000, as the file header stores it.
#[derive(Clone, Debug)]
pub struct FfData {
    pub nrows: u32,
    pub ncols: u32,
    pub nframes: u32,
    pub fps_millis: u32,
    pub station_id: String,
    pub deinterlace_order: i32,
    /// Time of the first frame in this block.
    pub start_time: UtcTime,
    pub maxpixel: Vec<u8>,
    pub maxframe: Vec<u8>,
    pub avepixel: Vec<u8>,
    pub stdpixel: Vec<u8>,
    /// Per-field intensity sums.
    pub field_sums: Vec<u32>,
}


// ---------------------------------------------------------------------------
// Names
// ---------------------------------------------------------------------------

/// Station-id characters kept in file names (underscores, spaces and colons
/// are dropped).
pub open spec fn keeps_station_char(c: char) -> bool {
    c != '_' && c != ' ' && c != ':'
}

/// The station id with underscores, spaces and colons removed.
pub open spec fn strip_station(s: Seq<char>) -> Seq<char>
    decreases s.len(),
{
    if s.len() == 0 {
        Seq::empty()
    } else {
        let r = strip_station(s.drop_last());
        if keeps_station_char(s.last()) {
            r.push(s.last())
        } else {
            r
        }
    }
}

/// The year as `%Y` prints it: four digits, with a sign outside `0..=9999`.
pub open spec fn fmt_year(y: int) -> Seq<char> {
    if 0 <= y <= 9999 {
        dec_padded(y as nat, 4)
    } else if y > 9999 {
        seq!['+'] + dec_padded(y as nat, 4)
    } else {
        seq!['-'] + dec_padded((0 - y) as nat, 4)
    }
}

/// `YYYYMMDD` of a time stamp.
pub open spec fn date_digits(t: UtcTime) -> Seq<char> {
    fmt_year(t.year as int) + dec_padded(t.month as nat, 2) + dec_padded(t.day as nat, 2)
}

/// `HHMMSS` of a time stamp.
pub open spec fn time_digits(t: UtcTime) -> Seq<char> {
    dec_padded(t.hour as nat, 2) + dec_padded(t.minute as nat, 2) + dec_padded(
        t.second as nat,
        2,
    )
}

/// `FF_{station}_{YYYYMMDD}_{HHMMSS}_{mmm}_0000000.bin`.
pub open spec fn ff_filename(station: Seq<char>, t: UtcTime) -> Seq<char> {
    seq!['F', 'F', '_'] + strip_station(station) + seq!['_'] + date_digits(t) + seq!['_']
        + time_digits(t) + seq!['_'] + dec_padded(t.millis as nat, 3) + seq![
        '_',
        '0',
        '0',
        '0',
        '0',
        '0',
        '0',
        '0',
        '.',
        'b',
        'i',
        'n',
    ]
}

/// `FS_{base}_fieldsum.txt`, where `base` is the FF name without its `FF_`
/// prefix and `.bin` suffix.
pub open spec fn fs_filename(station: Seq<char>, t: UtcTime) -> Seq<char> {
    let ff = ff_filename(station, t);
    seq!['F', 'S', '_'] + ff.subrange(3, ff.len() - 4) + seq![
        '_',
        'f',
        'i',
        'e',
        'l',
        'd',
        's',
        'u',
        'm',
        '.',
        't',
        'x',
        't',
    ]
}

/// Appends the station id without underscores, spaces and colons.
pub fn push_stripped_station(out: &mut Vec<char>, station: &[char])
    ensures
        final(out)@ == old(out)@ + strip_station(station@),
{
    let ghost start = out@;
    let mut i: usize = 0;
    while i < station.len()
        invariant
            i <= station@.len(),
            out@ == start + strip_station(station@.subrange(0, i as int)),
        decreases station@.len() - i,
    {
        let c = station[i];
        assert(station@.subrange(0, i + 1).drop_last() =~= station@.subrange(0, i as int));
        if c != '_' && c != ' ' && c != ':' {
            out.push(c);
        }
        i = i + 1;
        assert(out@ =~= start + strip_station(station@.subrange(0, i as int)));
    }
    assert(station@.subrange(0, station@.len() as int) =~= station@);
}

/// Appends `%Y` of a year.
pub fn push_year(out: &mut Vec<char>, y: i32)
    ensures
        final(out)@ == old(out)@ + fmt_year(y as int),
{
    let ghost start = out@;
    if 0 <= y && y <= 9999 {
        push_dec_padded(out, y as u64, 4);
    } else if y > 9999 {
        out.push('+');
        push_dec_padded(out, y as u64, 4);
        assert(out@ =~= start + fmt_year(y as int));
    } else {
        out.push('-');
        let a: i64 = 0 - (y as i64);
        push_dec_padded(out, a as u64, 4);
        assert(out@ =~= start + fmt_year(y as int));
    }
}

/// Appends `YYYYMMDD`.
pub fn push_date_digits(out: &mut Vec<char>, t: UtcTime)
    ensures
        final(out)@ == old(out)@ + date_digits(t),
{
    let ghost start = out@;
    push_year(out, t.year);
    push_dec_padded(out, t.month as u64, 2);
    push_dec_padded(out, t.day as u64, 2);
    assert(out@ =~= start + date_digits(t));
}

/// Appends `HHMMSS`.
pub fn push_time_digits(out: &mut Vec<char>, t: UtcTime)
    ensures
        final(out)@ == old(out)@ + time_digits(t),
{
    let ghost start = out@;
    push_dec_padded(out, t.hour as u64, 2);
    push_dec_padded(out, t.minute as u64, 2);
    push_dec_padded(out, t.second as u64, 2);
    assert(out@ =~= start + time_digits(t));
}

/// Appends `{station}_{YYYYMMDD}_{HHMMSS}_{mmm}_0000000`, the part shared by
/// the FF and FS names.
fn push_ff_base(out: &mut Vec<char>, station: &[char], t: UtcTime)
    ensures
        final(out)@ == old(out)@ + strip_station(station@) + seq!['_'] + date_digits(t) + seq!['_']
            + time_digits(t) + seq!['_'] + dec_padded(t.millis as nat, 3) + seq![
            '_',
            '0',
            '0',
            '0',
            '0',
            '0',
            '0',
            '0',
        ],
{
    let ghost start = out@;
    push_stripped_station(out, station);
    out.push('_');
    push_date_digits(out, t);
    out.push('_');
    push_time_digits(out, t);
    out.push('_');
    push_dec_padded(out, t.millis as u64, 3);
    push_all(out, &['_', '0', '0', '0', '0', '0', '0', '0']);
    assert(out@ =~= start + strip_station(station@) + seq!['_'] + date_digits(t) + seq!['_']
        + time_digits(t) + seq!['_'] + dec_padded(t.millis as nat, 3) + seq![
        '_',
        '0',
        '0',
        '0',
        '0',
        '0',
        '0',
        '0',
    ]);
}

impl FfData {
    /// The canonical FF file name,
    /// `FF_{station}_{YYYYMMDD}_{HHMMSS}_{mmm}_0000000.bin`, where `mmm` is
    /// the millisecond part of the start time and the station id loses its
    /// underscores, spaces and colons.
    pub fn filename(&self) -> (name: String)
        ensures
            name@ == ff_filename(self.station_id@, self.start_time),
    {
        let station = chars_of(self.station_id.as_str());
        let mut out: Vec<char> = Vec::new();
        push_all(&mut out, &['F', 'F', '_']);
        push_ff_base(&mut out, station.as_slice(), self.start_time);
        push_all(&mut out, &['.', 'b', 'i', 'n']);
        assert(out@ =~= ff_filename(self.station_id@, self.start_time));
        string_of(out.as_slice())
    }

    /// Name of the field-sum companion file, `FS_{base}_fieldsum.txt`.
    pub fn fs_filename(&self) -> (name: String)
        ensures
            name@ == fs_filename(self.station_id@, self.start_time),
    {
        let station = chars_of(self.station_id.as_str());
        let mut out: Vec<char> = Vec::new();
        push_all(&mut out, &['F', 'S', '_']);
        let ghost before = out@;
        push_ff_base(&mut out, station.as_slice(), self.start_time);
        let ghost base = out@.subrange(3, out@.len() as int);
        push_all(
            &mut out,
            &['_', 'f', 'i', 'e', 'l', 'd', 's', 'u', 'm', '.', 't', 'x', 't'],
        );
        proof {
            let ff = ff_filename(self.station_id@, self.start_time);
            assert(ff =~= seq!['F', 'F', '_'] + base + seq!['.', 'b', 'i', 'n']);
            assert(ff.subrange(3, ff.len() - 4) =~= base);
        }
        assert(out@ =~= fs_filename(self.station_id@, self.start_time));
        string_of(out.as_slice())
    }
}


// ---------------------------------------------------------------------------
// Binary layout
// ---------------------------------------------------------------------------

/// Little-endian bytes of a value in `0..2^32`.
pub open spec fn le_bytes(v: int) -> Seq<u8> {
    seq![
        (v % 256) as u8,
        ((v / 256) % 256) as u8,
        ((v / 65536) % 256) as u8,
        ((v / 16777216) % 256) as u8,
    ]
}

/// Little-endian bytes of a `u32`.
pub open spec fn le_u32(v: u32) -> Seq<u8> {
    le_bytes(v as int)
}

/// Little-endian two's-complement bytes of an `i32`.
pub open spec fn le_i32(v: i32) -> Seq<u8> {
    le_bytes(if v < 0 {
        v + 0x1_0000_0000
    } else {
        v as int
    })
}

/// Appends `v` in little-endian order with byteorder's
/// `WriteBytesExt::write_u32::<LittleEndian>`.  Writing into a `Vec<u8>`
/// appends and cannot fail, so the `io::Result` carries nothing.
#[verifier::external_body]
fn write_u32_le(out: &mut Vec<u8>, v: u32)
    ensures
        final(out)@ == old(out)@ + le_u32(v),
{
    let _ = out.write_u32::<LittleEndian>(v);
}

/// Appends `v` in little-endian two's complement with byteorder's
/// `WriteBytesExt::write_i32::<LittleEndian>`; as above, it cannot fail on a
/// `Vec<u8>`.
#[verifier::external_body]
fn write_i32_le(out: &mut Vec<u8>, v: i32)
    ensures
        final(out)@ == old(out)@ + le_i32(v),
{
    let _ = out.write_i32::<LittleEndian>(v);
}

/// The ASCII digits of a station id, in order.
pub open spec fn station_digits(s: Seq<char>) -> Seq<char>
    decreases s.len(),
{
    if s.len() == 0 {
        Seq::empty()
    } else {
        let r = station_digits(s.drop_last());
        if is_digit(s.last()) {
            r.push(s.last())
        } else {
            r
        }
    }
}

/// Camera number of the header: the station id's digits read as a `u32`,
/// or 0 when there are none or they overflow.
pub open spec fn camera_number(s: Seq<char>) -> u32 {
    match parse_u32_spec(station_digits(s)) {
        Some(v) => v,
        None => 0,
    }
}

/// Interleave flag of the header: 1 for even-first, 2 for odd-first, 0 for
/// progressive.
pub open spec fn interleave_flag(order: i32) -> u32 {
    if order == 0 {
        1
    } else if order == 1 {
        2
    } else {
        0
    }
}

/// The nine header words: version flag -1, rows, columns, frames, first
/// frame 0, camera number, decimation 1, interleave flag, fps × 1000.
pub open spec fn ff_header(ff: FfData) -> Seq<u8> {
    le_i32(-1i32) + le_u32(ff.nrows) + le_u32(ff.ncols) + le_u32(ff.nframes) + le_u32(0) + le_u32(
        camera_number(ff.station_id@),
    ) + le_u32(1) + le_u32(interleave_flag(ff.deinterlace_order)) + le_u32(ff.fps_millis)
}

/// The whole FF file: header, then the max, max-frame, mean and std planes.
pub open spec fn ff_bin(ff: FfData) -> Seq<u8> {
    ff_header(ff) + ff.maxpixel@ + ff.maxframe@ + ff.avepixel@ + ff.stdpixel@
}

/// The planes have `nrows × ncols` bytes each and that count fits a `u32`.
pub open spec fn planes_fit(ff: FfData) -> bool {
    &&& ff.nrows * ff.ncols <= u32::MAX
    &&& ff.maxpixel@.len() == ff.nrows * ff.ncols
    &&& ff.maxframe@.len() == ff.nrows * ff.ncols
    &&& ff.avepixel@.len() == ff.nrows * ff.ncols
    &&& ff.stdpixel@.len() == ff.nrows * ff.ncols
}

/// The digits of a station id, read as the header's camera number.
pub fn station_camera_number(station: &str) -> (n: u32)
    ensures
        n == camera_number(station@),
{
    let chars = chars_of(station);
    let mut digits: Vec<char> = Vec::new();
    let mut i: usize = 0;
    while i < chars.len()
        invariant
            chars@ == station@,
            i <= chars@.len(),
            digits@ == station_digits(chars@.subrange(0, i as int)),
        decreases chars@.len() - i,
    {
        let c = chars[i];
        assert(chars@.subrange(0, i + 1).drop_last() =~= chars@.subrange(0, i as int));
        if '0' <= c && c <= '9' {
            digits.push(c);
        }
        i = i + 1;
    }
    assert(chars@.subrange(0, chars@.len() as int) =~= chars@);
    let len = digits.len();
    assert(digits@.subrange(0, len as int) =~= digits@);
    match parse_u32_range(digits.as_slice(), 0, len) {
        Some(v) => v,
        None => 0,
    }
}

impl FfData {
    /// Writes the binary (v2 / new format) representation: the nine
    /// little-endian header words, then the four planes.
    pub fn write_bin(&self, w: &mut Vec<u8>)
        requires
            planes_fit(*self),
        ensures
            final(w)@ == old(w)@ + ff_bin(*self),
    {
        let ghost start = w@;
        let camno = station_camera_number(self.station_id.as_str());
        let interleave: u32 = if self.deinterlace_order == 0 {
            1
        } else if self.deinterlace_order == 1 {
            2
        } else {
            0
        };
        write_i32_le(w, -1);
        write_u32_le(w, self.nrows);
        write_u32_le(w, self.ncols);
        write_u32_le(w, self.nframes);
        write_u32_le(w, 0);
        write_u32_le(w, camno);
        write_u32_le(w, 1);
        write_u32_le(w, interleave);
        write_u32_le(w, self.fps_millis);
        assert(w@ =~= start + ff_header(*self));
        w.extend_from_slice(self.maxpixel.as_slice());
        w.extend_from_slice(self.maxframe.as_slice());
        w.extend_from_slice(self.avepixel.as_slice());
        w.extend_from_slice(self.stdpixel.as_slice());
        assert(w@ =~= start + ff_bin(*self));
    }
}

// ---------------------------------------------------------------------------
// Field-sum text
// ---------------------------------------------------------------------------

/// The half-frame number of field sum `i` with one decimal: `i / 2` when
/// deinterlacing (`.0` or `.5`), else `i` followed by `.0`.
pub open spec fn half_frame_text(i: nat, deinterlaced: bool) -> Seq<char> {
    if deinterlaced {
        dec(i / 2) + seq!['.', if i % 2 == 1 { '5' } else { '0' }]
    } else {
        dec(i) + seq!['.', '0']
    }
}

/// One line of the FS file: `{half_frame:.1}, {sum}`.
pub open spec fn fs_line(i: nat, sum: u32, deinterlaced: bool) -> Seq<char> {
    half_frame_text(i, deinterlaced) + seq![',', ' '] + dec(sum as nat) + seq!['\n']
}

/// The lines of the first `k` field sums.
pub open spec fn fs_lines(sums: Seq<u32>, deinterlaced: bool, k: nat) -> Seq<char>
    decreases k,
{
    if k == 0 {
        Seq::empty()
    } else {
        fs_lines(sums, deinterlaced, (k - 1) as nat) + fs_line(
            (k - 1) as nat,
            sums[k - 1],
            deinterlaced,
        )
    }
}

/// Column header line of the FS file.
pub open spec fn fs_column_header() -> Seq<char> {
    seq![
        'F',
        'r',
        'a',
        'm',
        'e',
        ',',
        ' ',
        'I',
        'n',
        't',
        'e',
        'n',
        's',
        'i',
        't',
        'y',
        ' ',
        's',
        'u',
        'm',
        '\n',
    ]
}

/// The FS file: its name and a blank line, the column header, then one line
/// per field sum.
pub open spec fn fs_text(ff: FfData) -> Seq<char> {
    fs_filename(ff.station_id@, ff.start_time) + seq!['\n', '\n'] + fs_column_header() + fs_lines(
        ff.field_sums@,
        ff.deinterlace_order >= 0,
        ff.field_sums@.len(),
    )
}

impl FfData {
    /// Contents of the field-sum companion file.
    pub fn field_sums_text(&self) -> (text: String)
        ensures
            text@ == fs_text(*self),
    {
        let name = self.fs_filename();
        let mut out: Vec<char> = chars_of(name.as_str());
        out.push('\n');
        out.push('\n');
        push_all(
            &mut out,
            &[
                'F',
                'r',
                'a',
                'm',
                'e',
                ',',
                ' ',
                'I',
                'n',
                't',
                'e',
                'n',
                's',
                'i',
                't',
                'y',
                ' ',
                's',
                'u',
                'm',
                '\n',
            ],
        );
        let ghost head = out@;
        let deinterlaced = self.deinterlace_order >= 0;
        let mut i: usize = 0;
        while i < self.field_sums.len()
            invariant
                i <= self.field_sums@.len(),
                deinterlaced == (self.deinterlace_order >= 0),
                out@ == head + fs_lines(self.field_sums@, deinterlaced, i as nat),
            decreases self.field_sums@.len() - i,
        {
            let ghost before = out@;
            if deinterlaced {
                push_dec(&mut out, (i / 2) as u64);
                out.push('.');
                out.push(if i % 2 == 1 {
                    '5'
                } else {
                    '0'
                });
            } else {
                push_dec(&mut out, i as u64);
                out.push('.');
                out.push('0');
            }
            out.push(',');
            out.push(' ');
            push_dec(&mut out, self.field_sums[i] as u64);
            out.push('\n');
            assert(out@ =~= before + fs_line(i as nat, self.field_sums@[i as int], deinterlaced));
            i = i + 1;
            assert(out@ =~= head + fs_lines(self.field_sums@, deinterlaced, i as nat));
        }
        assert(out@ =~= fs_text(*self));
        string_of(out.as_slice())
    }
}


// ---------------------------------------------------------------------------
// Laws
// ---------------------------------------------------------------------------

/// The little-endian 32-bit word at byte `at`.
pub open spec fn le_word(b: Seq<u8>, at: int) -> int {
    b[at] as int + 256 * b[at + 1] as int + 65536 * b[at + 2] as int + 16777216 * b[at + 3] as int
}

proof fn lemma_le_bytes(v: int)
    requires
        0 <= v < 0x1_0000_0000,
    ensures
        le_bytes(v).len() == 4,
        le_word(le_bytes(v), 0) == v,
{
    let b0 = v % 256;
    let b1 = (v / 256) % 256;
    let b2 = (v / 65536) % 256;
    let b3 = (v / 16777216) % 256;
    assert(b0 + 256 * b1 + 65536 * b2 + 16777216 * b3 == v) by (nonlinear_arith)
        requires
            0 <= v < 0x1_0000_0000,
            b0 == v % 256,
            b1 == (v / 256) % 256,
            b2 == (v / 65536) % 256,
            b3 == (v / 16777216) % 256,
    ;
    assert(0 <= b0 < 256 && 0 <= b1 < 256 && 0 <= b2 < 256 && 0 <= b3 < 256);
    let s = le_bytes(v);
    assert(s[0] as int == b0 && s[1] as int == b1 && s[2] as int == b2 && s[3] as int == b3);
}

/// The FF file reads back: it is 36 header bytes plus the four planes; each
/// header word, read little-endian, is the value written (the version flag
/// -1 reads as `0xffff_ffff`); the planes follow in the order max, max
/// frame, mean, standard deviation.
#[verifier::spinoff_prover]
#[verifier::rlimit(40)]
pub proof fn law_ff_layout(ff: FfData)
    requires
        planes_fit(ff),
    ensures
        ({
            let b = ff_bin(ff);
            let n = ff.nrows * ff.ncols;
            &&& b.len() == 36 + 4 * n
            &&& le_word(b, 0) == 0xffff_ffff
            &&& le_word(b, 4) == ff.nrows
            &&& le_word(b, 8) == ff.ncols
            &&& le_word(b, 12) == ff.nframes
            &&& le_word(b, 16) == 0
            &&& le_word(b, 20) == camera_number(ff.station_id@)
            &&& le_word(b, 24) == 1
            &&& le_word(b, 28) == interleave_flag(ff.deinterlace_order)
            &&& le_word(b, 32) == ff.fps_millis
            &&& b.subrange(36, 36 + n) == ff.maxpixel@
            &&& b.subrange(36 + n, 36 + 2 * n) == ff.maxframe@
            &&& b.subrange(36 + 2 * n, 36 + 3 * n) == ff.avepixel@
            &&& b.subrange(36 + 3 * n, 36 + 4 * n) == ff.stdpixel@
        }),
{
    let n = ff.nrows * ff.ncols;
    let words = seq![
        0xffff_ffffint,
        ff.nrows as int,
        ff.ncols as int,
        ff.nframes as int,
        0int,
        camera_number(ff.station_id@) as int,
        1int,
        interleave_flag(ff.deinterlace_order) as int,
        ff.fps_millis as int,
    ];
    let h = ff_header(ff);
    assert(le_i32(-1i32) == le_bytes(0xffff_ffff));
    assert(h =~= le_bytes(words[0]) + le_bytes(words[1]) + le_bytes(words[2]) + le_bytes(words[3])
        + le_bytes(words[4]) + le_bytes(words[5]) + le_bytes(words[6]) + le_bytes(words[7])
        + le_bytes(words[8]));
    assert forall|k: int| 0 <= k < 9 implies le_word(h, 4 * k) == words[k] by {
        lemma_le_bytes(words[k]);
        assert(h.subrange(4 * k, 4 * k + 4) =~= le_bytes(words[k]));
        assert(h[4 * k] == le_bytes(words[k])[0]);
        assert(h[4 * k + 1] == le_bytes(words[k])[1]);
        assert(h[4 * k + 2] == le_bytes(words[k])[2]);
        assert(h[4 * k + 3] == le_bytes(words[k])[3]);
    }
    assert(h.len() == 36);
    let b = ff_bin(ff);
    assert(le_word(h, 0) == words[0]);
    assert(le_word(h, 4) == words[1]);
    assert(le_word(h, 8) == words[2]);
    assert(le_word(h, 12) == words[3]);
    assert(le_word(h, 16) == words[4]);
    assert(le_word(h, 20) == words[5]);
    assert(le_word(h, 24) == words[6]);
    assert(le_word(h, 28) == words[7]);
    assert(le_word(h, 32) == words[8]);
    assert(b.subrange(0, 36) =~= h);
    assert(b.subrange(36, 36 + n) =~= ff.maxpixel@);
    assert(b.subrange(36 + n, 36 + 2 * n) =~= ff.maxframe@);
    assert(b.subrange(36 + 2 * n, 36 + 3 * n) =~= ff.avepixel@);
    assert(b.subrange(36 + 3 * n, 36 + 4 * n) =~= ff.stdpixel@);
    assert(le_word(b, 0) == le_word(h, 0));
    assert(le_word(b, 4) == le_word(h, 4));
    assert(le_word(b, 8) == le_word(h, 8));
    assert(le_word(b, 12) == le_word(h, 12));
    assert(le_word(b, 16) == le_word(h, 16));
    assert(le_word(b, 20) == le_word(h, 20));
    assert(le_word(b, 24) == le_word(h, 24));
    assert(le_word(b, 28) == le_word(h, 28));
    assert(le_word(b, 32) == le_word(h, 32));
}

/// The station part of the file names carries no underscore, space or
/// colon, and keeps every other character of the station id in order.
pub proof fn law_station_part_clean(s: Seq<char>)
    ensures
        forall|i: int|
            0 <= i < strip_station(s).len() ==> keeps_station_char(#[trigger] strip_station(s)[i]),
        (forall|i: int| 0 <= i < s.len() ==> keeps_station_char(#[trigger] s[i])) ==> strip_station(s)
            == s,
    decreases s.len(),
{
    if s.len() > 0 {
        law_station_part_clean(s.drop_last());
        let r = strip_station(s.drop_last());
        if forall|i: int| 0 <= i < s.len() ==> keeps_station_char(#[trigger] s[i]) {
            assert forall|i: int| 0 <= i < s.drop_last().len() implies keeps_station_char(
                #[trigger] s.drop_last()[i],
            ) by {
                assert(s.drop_last()[i] == s[i]);
            }
            assert(keeps_station_char(s[s.len() - 1]));
            assert(s =~= s.drop_last().push(s.last()));
        }
    } else {
        assert(strip_station(s) =~= s);
    }
}

/// The interleave word of the FF header (bytes 28..32) says how the video
/// was recorded: 1 for even-first (order 0), 2 for odd-first (order 1), and
/// 0 for progressive video, which is every other order (the default -1
/// among them).
pub proof fn law_interleave_word(ff: FfData)
    ensures
        ff_bin(ff).len() >= 36,
        ff_bin(ff)[29] == 0 && ff_bin(ff)[30] == 0 && ff_bin(ff)[31] == 0,
        ff.deinterlace_order == 0 ==> ff_bin(ff)[28] == 1,
        ff.deinterlace_order == 1 ==> ff_bin(ff)[28] == 2,
        ff.deinterlace_order != 0 && ff.deinterlace_order != 1 ==> ff_bin(ff)[28] == 0,
{
    let h = ff_header(ff);
    let f = interleave_flag(ff.deinterlace_order);
    let pre = le_i32(-1i32) + le_u32(ff.nrows) + le_u32(ff.ncols) + le_u32(ff.nframes) + le_u32(0)
        + le_u32(camera_number(ff.station_id@)) + le_u32(1);
    assert(pre.len() == 28);
    assert(h == pre + le_u32(f) + le_u32(ff.fps_millis));
    assert(h[28] == le_u32(f)[0]);
    assert(h[29] == le_u32(f)[1]);
    assert(h[30] == le_u32(f)[2]);
    assert(h[31] == le_u32(f)[3]);
    assert(ff_bin(ff)[28] == h[28] && ff_bin(ff)[29] == h[29] && ff_bin(ff)[30] == h[30]
        && ff_bin(ff)[31] == h[31]);
}

/// Appending a field sum appends exactly one line to the FS text: the
/// field's half-frame number with one decimal — `i / 2` (`.0` or `.5`) for
/// interlaced video (order 0 or 1, any order >= 0), `i.0` for progressive
/// video — then `, ` and the sum.
pub proof fn law_fs_text_appends_line(a: FfData, b: FfData, v: u32)
    requires
        b.station_id@ == a.station_id@,
        b.start_time == a.start_time,
        b.deinterlace_order == a.deinterlace_order,
        b.field_sums@ == a.field_sums@.push(v),
    ensures
        ({
            let i = a.field_sums@.len();
            let number = if a.deinterlace_order >= 0 {
                dec(i / 2) + seq!['.', if i % 2 == 1 { '5' } else { '0' }]
            } else {
                dec(i) + seq!['.', '0']
            };
            fs_text(b) == fs_text(a) + number + seq![',', ' '] + dec(v as nat) + seq!['\n']
        }),
{
    let d = a.deinterlace_order >= 0;
    let n = a.field_sums@.len();
    assert forall|k: nat| k <= n implies fs_lines(b.field_sums@, d, k) == fs_lines(
        a.field_sums@,
        d,
        k,
    ) by {
        lemma_fs_lines_prefix(a.field_sums@, b.field_sums@, d, k);
    }
    assert(b.field_sums@[n as int] == v);
    assert(fs_lines(b.field_sums@, d, n + 1) == fs_lines(b.field_sums@, d, n) + fs_line(
        n,
        v,
        d,
    ));
}

proof fn lemma_fs_lines_prefix(s: Seq<u32>, t: Seq<u32>, d: bool, k: nat)
    requires
        k <= s.len(),
        k <= t.len(),
        forall|i: int| 0 <= i < k ==> s[i] == t[i],
    ensures
        fs_lines(s, d, k) == fs_lines(t, d, k),
    decreases k,
{
    if k > 0 {
        lemma_fs_lines_prefix(s, t, d, (k - 1) as nat);
    }
}

/// An FS text with no field sums is the file's name, a blank line and the
/// column header `Frame, Intensity sum`.
pub proof fn law_fs_text_heading(ff: FfData)
    requires
        ff.field_sums@.len() == 0,
    ensures
        fs_text(ff) == fs_filename(ff.station_id@, ff.start_time) + seq!['\n', '\n']
            + "Frame, Intensity sum\n"@,
{
    reveal_strlit("Frame, Intensity sum\n");
    assert(fs_column_header() =~= "Frame, Intensity sum\n"@);
    assert(fs_lines(ff.field_sums@, ff.deinterlace_order >= 0, 0) =~= Seq::<char>::empty());
    assert(fs_text(ff) =~= fs_filename(ff.station_id@, ff.start_time) + seq!['\n', '\n']
        + "Frame, Intensity sum\n"@);
}

proof fn lemma_station_digits_concat(a: Seq<char>, b: Seq<char>)
    ensures
        station_digits(a + b) == station_digits(a) + station_digits(b),
    decreases b.len(),
{
    if b.len() == 0 {
        assert(a + b =~= a);
        assert(station_digits(a) + station_digits(b) =~= station_digits(a));
    } else {
        lemma_station_digits_concat(a, b.drop_last());
        assert((a + b).drop_last() =~= a + b.drop_last());
        assert((a + b).last() == b.last());
        if is_digit(b.last()) {
            assert(station_digits(a) + station_digits(b) =~= (station_digits(a) + station_digits(
                b.drop_last(),
            )).push(b.last()));
        }
    }
}

proof fn lemma_station_digits_all(a: Seq<char>)
    requires
        all_digits(a),
    ensures
        station_digits(a) == a,
    decreases a.len(),
{
    if a.len() > 0 {
        assert(all_digits(a.drop_last())) by {
            assert forall|i: int| 0 <= i < a.drop_last().len() implies #[trigger] is_digit(
                a.drop_last()[i],
            ) by {
                assert(a.drop_last()[i] == a[i]);
            }
        }
        lemma_station_digits_all(a.drop_last());
        assert(is_digit(a[a.len() - 1]));
        assert(a.drop_last().push(a.last()) =~= a);
    } else {
        assert(a =~= Seq::<char>::empty());
    }
}

proof fn lemma_station_digits_none(a: Seq<char>)
    requires
        forall|i: int| 0 <= i < a.len() ==> !is_digit(#[trigger] a[i]),
    ensures
        station_digits(a).len() == 0,
    decreases a.len(),
{
    if a.len() > 0 {
        assert(!is_digit(a[a.len() - 1]));
        lemma_station_digits_none(a.drop_last());
    }
}

proof fn lemma_digits_value_small(a: Seq<char>)
    requires
        all_digits(a),
    ensures
        digits_value(a) < crate::text::pow10(a.len()),
    decreases a.len(),
{
    if a.len() > 0 {
        assert(all_digits(a.drop_last())) by {
            assert forall|i: int| 0 <= i < a.drop_last().len() implies #[trigger] is_digit(
                a.drop_last()[i],
            ) by {
                assert(a.drop_last()[i] == a[i]);
            }
        }
        lemma_digits_value_small(a.drop_last());
        assert(is_digit(a[a.len() - 1]));
    }
}

/// The camera number in the FF header reads only the station id's ASCII
/// digits: a character that is not a digit may stand anywhere in the id
/// without changing it; an id without digits has number 0; and appending
/// a digit `d` to an id of at most nine digits gives `10 × number + d`
/// while that fits in 32 bits.
pub proof fn law_camera_number(a: Seq<char>, b: Seq<char>, c: char, d: char)
    ensures
        !('0' <= c && c <= '9') ==> camera_number(a + seq![c] + b) == camera_number(a + b),
        (forall|i: int| 0 <= i < a.len() ==> !('0' <= #[trigger] a[i] && a[i] <= '9'))
            ==> camera_number(a) == 0,
        ('0' <= d && d <= '9' && 0 < a.len() <= 9 && (forall|i: int|
            0 <= i < a.len() ==> '0' <= #[trigger] a[i] && a[i] <= '9') && camera_number(a) as int
            * 10 + (d as int - 48) <= u32::MAX) ==> camera_number(a.push(d)) == camera_number(a)
            as int * 10 + (d as int - 48),
{
    if !('0' <= c && c <= '9') {
        lemma_station_digits_concat(a + seq![c], b);
        lemma_station_digits_concat(a, seq![c]);
        lemma_station_digits_concat(a, b);
        assert(station_digits(seq![c]) =~= station_digits(Seq::<char>::empty()).push(c).drop_last())
            by {
            assert(seq![c].drop_last() =~= Seq::<char>::empty());
        }
        assert(station_digits(a) + station_digits(seq![c]) =~= station_digits(a));
    }
    if forall|i: int| 0 <= i < a.len() ==> !('0' <= #[trigger] a[i] && a[i] <= '9') {
        lemma_station_digits_none(a);
        assert(drop_sign(station_digits(a), '+').len() == 0);
    }
    if '0' <= d && d <= '9' && 0 < a.len() <= 9 && (forall|i: int|
        0 <= i < a.len() ==> '0' <= #[trigger] a[i] && a[i] <= '9') {
        let e = a.push(d);
        assert(all_digits(a));
        assert(all_digits(e)) by {
            assert forall|i: int| 0 <= i < e.len() implies #[trigger] is_digit(e[i]) by {
                if i < a.len() {
                    assert(e[i] == a[i]);
                }
            }
        }
        lemma_station_digits_all(a);
        lemma_station_digits_all(e);
        assert(drop_sign(a, '+') == a);
        assert(drop_sign(e, '+') == e);
        lemma_digits_value_small(a);
        assert(crate::text::pow10(a.len()) <= 1_000_000_000) by {
            lemma_pow10_mono(a.len(), 9);
            reveal_with_fuel(crate::text::pow10, 10);
        }
        assert(camera_number(a) == digits_value(a));
        assert(e.drop_last() =~= a);
        assert(digits_value(e) == digits_value(a) * 10 + (d as int - 48));
    }
}

proof fn lemma_pow10_mono(i: nat, j: nat)
    requires
        i <= j,
    ensures
        crate::text::pow10(i) <= crate::text::pow10(j),
    decreases j,
{
    if i < j {
        lemma_pow10_mono(i, (j - 1) as nat);
    }
}

} // verus!
