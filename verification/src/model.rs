//! Records shown by the dashboard (capture status, captured files, capture
//! nights) and the way sizes, counts and durations are written for it.

use vstd::prelude::*;

use crate::text::{chars_of, dec, dec_padded, push_all, push_dec, push_dec_padded, string_of};

verus! {

/// Real-time capture status reported by the capture server.
#[derive(Clone, Debug)]
pub struct CaptureStatus {
    pub uptime_secs: u64,
    pub ff_files_written: u64,
    pub total_frames: u64,
}

/// An FF or FS file listed by the capture server.
#[derive(Clone, Debug)]
pub struct FileEntry {
    pub name: String,
    pub size: u64,
}

/// Summary of one capture night as found on disk.
#[derive(Clone, Debug)]
pub struct NightSummary {
    /// Directory name, e.g. `AU000A_20250301_210000_UTC`.
    pub dir_name: String,
    /// Station id taken from the directory name.
    pub station_id: String,
    /// Start time written as `2025-03-01 21:00:00 UTC`.
    pub start_time: String,
    /// Number of FF files in the directory.
    pub ff_count: u32,
    /// Number of FS files in the directory.
    pub fs_count: u32,
    /// Sum of all file sizes in the directory.
    pub total_bytes: u64,
}

/// `s` begins with `p`.
pub open spec fn starts_with(s: Seq<char>, p: Seq<char>) -> bool {
    s.len() >= p.len() && s.subrange(0, p.len() as int) == p
}

/// Whether `s` begins with the three characters `a b c`.
pub fn starts_with3(s: &str, a: char, b: char, c: char) -> (r: bool)
    ensures
        r == starts_with(s@, seq![a, b, c]),
{
    let v = chars_of(s);
    let r = v.len() >= 3 && v[0] == a && v[1] == b && v[2] == c;
    proof {
        if v@.len() >= 3 {
            if r {
                assert(v@.subrange(0, 3) =~= seq![a, b, c]);
            } else {
                if v@.subrange(0, 3) == seq![a, b, c] {
                    assert(v@.subrange(0, 3)[0] == a);
                    assert(v@.subrange(0, 3)[1] == b);
                    assert(v@.subrange(0, 3)[2] == c);
                }
            }
        }
    }
    r
}

// ---------------------------------------------------------------------------
// Human-readable sizes
// ---------------------------------------------------------------------------

/// `2^k`.
pub open spec fn pow2(k: nat) -> nat
    decreases k,
{
    if k == 0 {
        1
    } else {
        2 * pow2((k - 1) as nat)
    }
}

/// How many times `b` must be halved to fit in the 53-bit mantissa of an
/// `f64`.
pub open spec fn f64_shift(b: nat) -> nat
    decreases b,
{
    if b < 0x20_0000_0000_0000 {
        0
    } else {
        1 + f64_shift(b / 2)
    }
}

/// The value of `b as f64` (nearest representable value, ties to even).
pub open spec fn f64_value(b: nat) -> nat {
    let e = f64_shift(b);
    if e == 0 {
        b
    } else {
        let unit = pow2(e);
        let m = b / unit;
        let r = b % unit;
        let up = 2 * r > unit || (2 * r == unit && m % 2 == 1);
        ((if up {
            m + 1
        } else {
            m
        }) * unit) as nat
    }
}

/// `v × scale / d` rounded to the nearest integer, ties to even: the
/// digits that `{:.k}` prints for `v / d` when `scale = 10^k`.
pub open spec fn rounded_quotient(v: nat, d: nat, scale: nat) -> nat {
    let q = (v * scale) / d;
    let r = (v * scale) % d;
    if 2 * r > d || (2 * r == d && q % 2 == 1) {
        q + 1
    } else {
        q
    }
}

/// `t / 10` with one decimal.
pub open spec fn tenths_text(t: nat) -> Seq<char> {
    dec(t / 10) + seq!['.'] + dec(t % 10)
}

/// `t / 100` with two decimals.
pub open spec fn hundredths_text(t: nat) -> Seq<char> {
    dec(t / 100) + seq!['.'] + dec_padded(t % 100, 2)
}

/// A byte count as the dashboard writes it: `{n} B` below 1 KiB, then KB
/// and MB with one decimal and GB with two (powers of 1024, values rounded
/// as floating-point formatting rounds them).
pub open spec fn human_size_text(bytes: nat) -> Seq<char> {
    if bytes < 1024 {
        dec(bytes) + seq![' ', 'B']
    } else if bytes < 1048576 {
        tenths_text(rounded_quotient(bytes, 1024, 10)) + seq![' ', 'K', 'B']
    } else if bytes < 1073741824 {
        tenths_text(rounded_quotient(bytes, 1048576, 10)) + seq![' ', 'M', 'B']
    } else {
        hundredths_text(rounded_quotient(f64_value(bytes), 1073741824, 100)) + seq![' ', 'G', 'B']
    }
}

proof fn lemma_pow2_values()
    ensures
        pow2(10) == 1024,
        pow2(20) == 1048576,
        pow2(30) == 1073741824,
        pow2(53) == 0x20_0000_0000_0000,
{
    reveal_with_fuel(pow2, 54);
}

proof fn lemma_pow2_pos(k: nat)
    ensures
        pow2(k) >= 1,
    decreases k,
{
    if k > 0 {
        lemma_pow2_pos((k - 1) as nat);
    }
}

proof fn lemma_pow2_ge(k: nat)
    ensures
        pow2(k) >= k + 1,
    decreases k,
{
    if k > 0 {
        lemma_pow2_ge((k - 1) as nat);
    }
}

/// Halving `e` times divides by `2^e`.
proof fn lemma_halve(b: nat, e: nat)
    ensures
        b / pow2(e) / 2 == b / pow2(e + 1),
{
    lemma_pow2_pos(e);
    assert(pow2(e + 1) == 2 * pow2(e));
    vstd::arithmetic::div_mod::lemma_div_denominator(b as int, pow2(e) as int, 2);
}

/// `rounded_quotient` as the exec code computes it.
fn rounded_quotient_exec(v: u128, d: u128, scale: u128) -> (t: u128)
    requires
        0 < d <= 0xffff_ffff_ffff_ffff,
        v * scale < 0x1_0000_0000_0000_0000_0000_0000,
    ensures
        t as nat == rounded_quotient(v as nat, d as nat, scale as nat),
        t <= (v as int * scale as int) / (d as int) + 1,
{
    let p: u128 = v * scale;
    let q: u128 = p / d;
    let r: u128 = p % d;
    assert(r < d);
    assert(q <= p) by (nonlinear_arith)
        requires
            q == p / d,
            d > 0,
    ;
    if 2 * r > d || (2 * r == d && q % 2 == 1) {
        q + 1
    } else {
        q
    }
}

/// The value of `b as f64`, as an integer.
fn f64_value_exec(b: u64) -> (v: u128)
    ensures
        v as nat == f64_value(b as nat),
        v <= 0x4_0000_0000_0000_0000,
{
    proof {
        lemma_pow2_values();
    }
    let mut e: u32 = 0;
    let mut m: u64 = b;
    let mut unit: u128 = 1;
    let ghost bb = b as nat;
    assert(pow2(0) == 1);
    assert(bb / 1 == bb);
    while m >= 0x20_0000_0000_0000
        invariant
            m as nat == bb / pow2(e as nat),
            unit as nat == pow2(e as nat),
            1 <= unit <= 4096,
            m * unit <= b,
            e <= 4096,
            f64_shift(bb) == e + f64_shift(m as nat),
            pow2(53) == 0x20_0000_0000_0000,
            b == bb,
        decreases m,
    {
        proof {
            lemma_halve(bb, e as nat);
            assert(unit * 2 == pow2((e + 1) as nat));
            assert(unit <= 2048) by (nonlinear_arith)
                requires
                    m >= 0x20_0000_0000_0000,
                    m * unit <= b,
                    b <= 0xffff_ffff_ffff_ffff,
                    unit >= 1,
            ;
            assert((m / 2) * (unit * 2) <= m * unit) by (nonlinear_arith)
                requires
                    unit >= 1,
            ;
            assert(f64_shift(m as nat) == 1 + f64_shift((m / 2) as nat));
            lemma_pow2_ge(e as nat);
        }
        m = m / 2;
        e = e + 1;
        unit = unit * 2;
    }
    assert(f64_shift(m as nat) == 0);
    if e == 0 {
        return b as u128;
    }
    let r: u128 = (b as u128) % unit;
    let half2: u128 = 2 * r;
    let up = half2 > unit || (half2 == unit && m % 2 == 1);
    let mm: u128 = if up {
        m as u128 + 1
    } else {
        m as u128
    };
    assert(mm * unit <= 0x4_0000_0000_0000_0000) by (nonlinear_arith)
        requires
            mm <= m + 1,
            m < 0x20_0000_0000_0000,
            unit <= 4096,
    ;
    mm * unit
}

/// A byte count as the dashboard writes it.
pub fn human_size(bytes: u64) -> (s: String)
    ensures
        s@ == human_size_text(bytes as nat),
{
    let mut out: Vec<char> = Vec::new();
    if bytes < 1024 {
        push_dec(&mut out, bytes);
        push_all(&mut out, &[' ', 'B']);
    } else if bytes < 1048576 {
        let t = rounded_quotient_exec(bytes as u128, 1024, 10);
        push_tenths(&mut out, t);
        push_all(&mut out, &[' ', 'K', 'B']);
    } else if bytes < 1073741824 {
        let t = rounded_quotient_exec(bytes as u128, 1048576, 10);
        push_tenths(&mut out, t);
        push_all(&mut out, &[' ', 'M', 'B']);
    } else {
        let v = f64_value_exec(bytes);
        let t = rounded_quotient_exec(v, 1073741824, 100);
        assert((v as int * 100) / 1073741824 + 1 <= 0xffff_ffff_ffff) by (nonlinear_arith)
            requires
                v <= 0x4_0000_0000_0000_0000,
        ;
        push_hundredths(&mut out, t);
        push_all(&mut out, &[' ', 'G', 'B']);
    }
    assert(out@ =~= human_size_text(bytes as nat));
    string_of(out.as_slice())
}

fn push_tenths(out: &mut Vec<char>, t: u128)
    requires
        t <= 0xffff_ffff_ffff_ffff,
    ensures
        final(out)@ == old(out)@ + tenths_text(t as nat),
{
    let ghost start = out@;
    push_dec(out, (t / 10) as u64);
    out.push('.');
    push_dec(out, (t % 10) as u64);
    assert(out@ =~= start + tenths_text(t as nat));
}

fn push_hundredths(out: &mut Vec<char>, t: u128)
    requires
        t <= 0xffff_ffff_ffff_ffff,
    ensures
        final(out)@ == old(out)@ + hundredths_text(t as nat),
{
    let ghost start = out@;
    push_dec(out, (t / 100) as u64);
    out.push('.');
    push_dec_padded(out, (t % 100) as u64, 2);
    assert(out@ =~= start + hundredths_text(t as nat));
}

impl FileEntry {
    /// Human-readable size of the file.
    pub fn human_size(&self) -> (s: String)
        ensures
            s@ == human_size_text(self.size as nat),
    {
        human_size(self.size)
    }

    /// `true` for FF binary files (compressed frame data).
    pub fn is_ff(&self) -> (r: bool)
        ensures
            r == starts_with(self.name@, seq!['F', 'F', '_']),
    {
        starts_with3(self.name.as_str(), 'F', 'F', '_')
    }

    /// `true` for FS field-sum text files.
    pub fn is_fs(&self) -> (r: bool)
        ensures
            r == starts_with(self.name@, seq!['F', 'S', '_']),
    {
        starts_with3(self.name.as_str(), 'F', 'S', '_')
    }
}

impl NightSummary {
    /// Human-readable total size of the night's files.
    pub fn human_size(&self) -> (s: String)
        ensures
            s@ == human_size_text(self.total_bytes as nat),
    {
        human_size(self.total_bytes)
    }
}


// ---------------------------------------------------------------------------
// Dashboard figures
// ---------------------------------------------------------------------------

/// Uptime as the status card writes it: `{hours}h {minutes}m`.
pub open spec fn uptime_text_of(secs: nat) -> Seq<char> {
    dec(secs / 3600) + seq!['h', ' '] + dec((secs % 3600) / 60) + seq!['m']
}

/// The status card's uptime.
pub fn uptime_text(secs: u64) -> (s: String)
    ensures
        s@ == uptime_text_of(secs as nat),
{
    let mut out: Vec<char> = Vec::new();
    push_dec(&mut out, secs / 3600);
    push_all(&mut out, &['h', ' ']);
    push_dec(&mut out, (secs % 3600) / 60);
    out.push('m');
    assert(out@ =~= uptime_text_of(secs as nat));
    string_of(out.as_slice())
}

/// FF files, FS files and total bytes of a file list.
pub open spec fn files_summary_of(files: Seq<FileEntry>, k: nat) -> (int, int, int)
    decreases k,
{
    if k == 0 {
        (0, 0, 0)
    } else {
        let c = files_summary_of(files, (k - 1) as nat);
        let f = files[k - 1];
        (
            c.0 + if starts_with(f.name@, seq!['F', 'F', '_']) {
                1int
            } else {
                0
            },
            c.1 + if starts_with(f.name@, seq!['F', 'S', '_']) {
                1int
            } else {
                0
            },
            c.2 + f.size,
        )
    }
}

proof fn lemma_files_summary_bounds(files: Seq<FileEntry>, k: nat, m: nat)
    requires
        k <= m <= files.len(),
    ensures
        0 <= files_summary_of(files, k).0 <= k,
        0 <= files_summary_of(files, k).1 <= k,
        0 <= files_summary_of(files, k).2 <= files_summary_of(files, m).2,
    decreases m,
{
    if m > k {
        lemma_files_summary_bounds(files, k, (m - 1) as nat);
    } else if k > 0 {
        lemma_files_summary_bounds(files, (k - 1) as nat, (k - 1) as nat);
    }
}

/// The summary line of a file list: how many FF files, how many FS files,
/// and their total size.
pub fn files_summary(files: &Vec<FileEntry>) -> (r: (usize, usize, u64))
    requires
        files_summary_of(files@, files@.len()).2 <= u64::MAX,
    ensures
        (r.0 as int, r.1 as int, r.2 as int) == files_summary_of(files@, files@.len()),
{
    let mut ff: usize = 0;
    let mut fs: usize = 0;
    let mut total: u64 = 0;
    let mut i: usize = 0;
    while i < files.len()
        invariant
            i <= files@.len(),
            files_summary_of(files@, files@.len()).2 <= u64::MAX,
            (ff as int, fs as int, total as int) == files_summary_of(files@, i as nat),
        decreases files@.len() - i,
    {
        proof {
            lemma_files_summary_bounds(files@, (i + 1) as nat, files@.len());
            lemma_files_summary_bounds(files@, i as nat, i as nat);
        }
        if files[i].is_ff() {
            ff = ff + 1;
        }
        if files[i].is_fs() {
            fs = fs + 1;
        }
        total = total + files[i].size;
        i = i + 1;
    }
    (ff, fs, total)
}

/// Camera resolution as the station card writes it: `{width}×{height}`.
pub fn resolution_label(width: u32, height: u32) -> (s: String)
    ensures
        s@ == dec(width as nat) + seq!['\u{d7}'] + dec(height as nat),
{
    let mut out: Vec<char> = Vec::new();
    push_dec(&mut out, width as u64);
    out.push('\u{d7}');
    push_dec(&mut out, height as u64);
    string_of(out.as_slice())
}

/// Candidate detections on the detections page: those not yet confirmed
/// (`total - confirmed`).
pub fn candidate_count(total: u64, confirmed: u64) -> (c: u64)
    requires
        confirmed <= total,
    ensures
        c == total - confirmed,
{
    total - confirmed
}

} // verus!
