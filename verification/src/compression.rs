//! FTP (Four-frame Temporal Pixel) compression.
//!
//! A block of `n` grayscale frames is reduced to four planes per pixel:
//!
//! - **maxpixel**: the maximum intensity over the block;
//! - **maxframe**: the frame in which the maximum was seen, ties broken by a
//!   fixed pseudo-random table so that trails are not biased toward later
//!   frames;
//! - **avepixel**: the mean intensity without the four brightest values;
//! - **stdpixel**: the standard deviation without the four brightest values.
//!
//! Per-field intensity sums are produced alongside, for cloud detection.

use vstd::prelude::*;

use crate::ff::{FfData, UtcTime};

verus! {

// ---------------------------------------------------------------------------
// Tie-break table
// ---------------------------------------------------------------------------

/// The generator behind the tie-break table:
/// `a(0) = 0`, `a(i + 1) = (32719 * a(i) + 3) mod 32749`.
pub open spec fn tie_prng(i: nat) -> int
    decreases i,
{
    if i == 0 {
        0
    } else {
        (tie_prng((i - 1) as nat) * 32719 + 3) % 32749
    }
}

/// Entry `j` of the tie-break table: `32767 / (1 + a(j + 1) mod 32767)`,
/// saturated to 255.
pub open spec fn tie_table_entry(j: int) -> int {
    let a = tie_prng((j + 1) as nat);
    let q: int = 32767int / (1int + a % 32767int);
    if q > 255 {
        255
    } else {
        q
    }
}

/// Number of entries of the tie-break table (one per `u16` counter value).
pub const TIE_TABLE_LEN: usize = 65536;

/// `t` is the tie-break table.
pub open spec fn is_tie_table(t: Seq<u8>) -> bool {
    &&& t.len() == 65536
    &&& forall|j: int| 0 <= j < 65536 ==> #[trigger] t[j] == tie_table_entry(j)
}

/// Builds the tie-break table.
fn tie_table() -> (t: Vec<u8>)
    ensures
        is_tie_table(t@),
{
    let mut t: Vec<u8> = Vec::new();
    let mut arand: u32 = 0;
    let mut i: usize = 0;
    while i < TIE_TABLE_LEN
        invariant
            i <= 65536,
            t@.len() == i,
            arand as int == tie_prng(i as nat),
            arand < 32749,
            forall|j: int| 0 <= j < i ==> #[trigger] t@[j] == tie_table_entry(j),
        decreases 65536 - i,
    {
        assert(arand * 32719 + 3 < 0x1_0000_0000) by (nonlinear_arith)
            requires
                arand < 32749,
        ;
        arand = (arand * 32719 + 3) % 32749;
        let q: u32 = 32767 / (1 + arand % 32767);
        let e: u8 = if q > 255 {
            255
        } else {
            q as u8
        };
        t.push(e);
        i = i + 1;
    }
    t
}

// ---------------------------------------------------------------------------
// Per-pixel model
// ---------------------------------------------------------------------------

/// Intensity of pixel `p` in frame `f` (frames are stored one after the other,
/// `npix` bytes each).
pub open spec fn frame_value(frames: Seq<u8>, npix: int, f: int, p: int) -> int {
    frames[f * npix + p] as int
}

/// Sum of the intensities of pixel `p` over frames `0..k`.
pub open spec fn pixel_sum(frames: Seq<u8>, npix: int, p: int, k: nat) -> int
    decreases k,
{
    if k == 0 {
        0
    } else {
        pixel_sum(frames, npix, p, (k - 1) as nat) + frame_value(frames, npix, k - 1, p)
    }
}

/// Sum of the squared intensities of pixel `p` over frames `0..k`.
pub open spec fn pixel_sum_sq(frames: Seq<u8>, npix: int, p: int, k: nat) -> int
    decreases k,
{
    if k == 0 {
        0
    } else {
        let v = frame_value(frames, npix, k - 1, p);
        pixel_sum_sq(frames, npix, p, (k - 1) as nat) + v * v
    }
}

/// Inserts `v` into the descending list of the four largest values seen.
pub open spec fn top4_insert(t: (int, int, int, int), v: int) -> (int, int, int, int) {
    if v > t.0 {
        (v, t.0, t.1, t.2)
    } else if v > t.1 {
        (t.0, v, t.1, t.2)
    } else if v > t.2 {
        (t.0, t.1, v, t.2)
    } else if v > t.3 {
        (t.0, t.1, t.2, v)
    } else {
        t
    }
}

/// The four largest intensities of pixel `p` over frames `0..k`, largest
/// first, zeros standing in while fewer than four frames were seen.
pub open spec fn pixel_top4(frames: Seq<u8>, npix: int, p: int, k: nat) -> (int, int, int, int)
    decreases k,
{
    if k == 0 {
        (0, 0, 0, 0)
    } else {
        top4_insert(
            pixel_top4(frames, npix, p, (k - 1) as nat),
            frame_value(frames, npix, k - 1, p),
        )
    }
}

pub open spec fn top4_sum(t: (int, int, int, int)) -> int {
    t.0 + t.1 + t.2 + t.3
}

pub open spec fn top4_sum_sq(t: (int, int, int, int)) -> int {
    t.0 * t.0 + t.1 * t.1 + t.2 * t.2 + t.3 * t.3
}

/// One frame of the max-frame search, on the state
/// `(max, max_frame, number_of_ties, counter)`: a new maximum resets the
/// count of equal values; a value equal to the maximum advances the `u16`
/// counter and moves the max frame here when the count does not exceed the
/// table entry at the counter.
pub open spec fn tie_step(s: (int, int, int, int), f: int, v: int) -> (int, int, int, int) {
    if v > s.0 {
        (v, f, 1, s.3)
    } else if v == s.0 {
        let rc = (s.3 + 1) % 65536;
        (s.0, if s.2 + 1 <= tie_table_entry(rc) {
            f
        } else {
            s.1
        }, s.2 + 1, rc)
    } else {
        s
    }
}

/// The max-frame search of pixel `p` over frames `0..k`, starting from the
/// counter value `rc0`.
pub open spec fn pixel_tie(frames: Seq<u8>, npix: int, p: int, k: nat, rc0: int) -> (
    int,
    int,
    int,
    int,
)
    decreases k,
{
    if k == 0 {
        (0, 0, 0, rc0)
    } else {
        tie_step(
            pixel_tie(frames, npix, p, (k - 1) as nat, rc0),
            k - 1,
            frame_value(frames, npix, k - 1, p),
        )
    }
}

/// Counter value when pixel `p` is reached: the counter starts at 1 and
/// carries over from pixel to pixel in row-major order.
pub open spec fn rc_before(frames: Seq<u8>, npix: int, n: nat, p: nat) -> int
    decreases p,
{
    if p == 0 {
        1
    } else {
        pixel_tie(frames, npix, p - 1, n, rc_before(frames, npix, n, (p - 1) as nat)).3
    }
}

/// Divisor of the mean: `n - 4`, or 1 when fewer than four frames.
pub open spec fn mean_divisor(n: int) -> int {
    if n >= 4 {
        n - 4
    } else {
        1
    }
}

/// Divisor of the variance: `n - 5`, or 1 when fewer than five frames.
pub open spec fn std_divisor(n: int) -> int {
    if n >= 5 {
        n - 5
    } else {
        1
    }
}

/// Largest `s` with `s * s <= x`.
pub open spec fn isqrt(x: nat) -> nat
    decreases x,
{
    if x == 0 {
        0
    } else {
        let s = isqrt((x - 1) as nat);
        if (s + 1) * (s + 1) <= x {
            (s + 1) as nat
        } else {
            s
        }
    }
}

pub open spec fn clamp255(v: int) -> int {
    if v > 255 {
        255
    } else {
        v
    }
}

/// Maximum intensity of pixel `p` over the `n` frames.
pub open spec fn ftp_max(frames: Seq<u8>, npix: int, n: nat, p: int) -> int {
    pixel_top4(frames, npix, p, n).0
}

/// Frame index recorded for the maximum of pixel `p`.
pub open spec fn ftp_max_frame(frames: Seq<u8>, npix: int, n: nat, p: int) -> int {
    pixel_tie(frames, npix, p, n, rc_before(frames, npix, n, p as nat)).1
}

/// Sum of the intensities of pixel `p` without the four largest.
pub open spec fn ftp_sum_adj(frames: Seq<u8>, npix: int, n: nat, p: int) -> int {
    pixel_sum(frames, npix, p, n) - top4_sum(pixel_top4(frames, npix, p, n))
}

/// Mean intensity of pixel `p` without the four largest (integer division).
pub open spec fn ftp_mean(frames: Seq<u8>, npix: int, n: nat, p: int) -> int {
    ftp_sum_adj(frames, npix, n, p) / mean_divisor(n as int)
}

/// `sum(v²) - sum(v) * mean` over the values other than the four largest,
/// floored at zero.
pub open spec fn ftp_variance(frames: Seq<u8>, npix: int, n: nat, p: int) -> int {
    let sq = pixel_sum_sq(frames, npix, p, n) - top4_sum_sq(pixel_top4(frames, npix, p, n));
    let v = sq - ftp_sum_adj(frames, npix, n, p) * ftp_mean(frames, npix, n, p);
    if v < 0 {
        0
    } else {
        v
    }
}

/// Standard deviation of pixel `p` before the floor of 1: the integer
/// square root of `variance / (n - 5)`; with exactly five frames the
/// divisor is 0, which gives 0 for a zero variance and `u32::MAX` otherwise.
pub open spec fn ftp_std_raw(frames: Seq<u8>, npix: int, n: nat, p: int) -> int {
    let v = ftp_variance(frames, npix, n, p);
    let d = std_divisor(n as int);
    if d == 0 {
        if v == 0 {
            0
        } else {
            0xffff_ffff
        }
    } else {
        isqrt((v / d) as nat) as int
    }
}

/// Standard deviation of pixel `p`, at least 1.
pub open spec fn ftp_std(frames: Seq<u8>, npix: int, n: nat, p: int) -> int {
    let s = ftp_std_raw(frames, npix, n, p);
    if s == 0 {
        1
    } else {
        s
    }
}

// ---------------------------------------------------------------------------
// Field sums
// ---------------------------------------------------------------------------

/// Number of field sums per frame: 2 when deinterlacing (order >= 0), else 1.
pub open spec fn field_mult(order: int) -> int {
    if order >= 0 {
        2
    } else {
        1
    }
}

/// Field (0 or 1) of image row `y` when deinterlacing with the given order.
pub open spec fn field_parity(order: int, y: int) -> int {
    if order >= 0 {
        (y + order) % 2
    } else {
        0
    }
}

/// Frame that field sum `k` belongs to.
pub open spec fn field_frame(order: int, k: int) -> int {
    if order >= 0 {
        k / 2
    } else {
        k
    }
}

/// Field (0 or 1) that field sum `k` belongs to.
pub open spec fn field_slot(order: int, k: int) -> int {
    if order >= 0 {
        k % 2
    } else {
        0
    }
}

/// What pixel `p` adds to field sum `k`: its value in frame
/// `field_frame(k)` when its row lies in field `field_slot(k)`.
pub open spec fn field_contrib(
    frames: Seq<u8>,
    width: int,
    npix: int,
    order: int,
    k: int,
    p: int,
) -> int {
    if field_slot(order, k) == field_parity(order, p / width) {
        frame_value(frames, npix, field_frame(order, k), p)
    } else {
        0
    }
}

/// Field sum `k` over the pixels `0..q`.
pub open spec fn field_sum_upto(
    frames: Seq<u8>,
    width: int,
    npix: int,
    order: int,
    k: int,
    q: nat,
) -> int
    decreases q,
{
    if q == 0 {
        0
    } else {
        field_sum_upto(frames, width, npix, order, k, (q - 1) as nat) + field_contrib(
            frames,
            width,
            npix,
            order,
            k,
            q - 1,
        )
    }
}

/// Field sum `k` of the whole block.
pub open spec fn ftp_field_sum(
    frames: Seq<u8>,
    width: int,
    npix: int,
    order: int,
    k: int,
) -> int {
    field_sum_upto(frames, width, npix, order, k, npix as nat)
}

// ---------------------------------------------------------------------------
// Lemmas
// ---------------------------------------------------------------------------

proof fn lemma_frame_index(f: int, p: int, n: int, npix: int)
    requires
        0 <= f < n,
        0 <= p < npix,
    ensures
        0 <= f * npix + p < n * npix,
{
    assert(f * npix <= (n - 1) * npix) by (nonlinear_arith)
        requires
            0 <= f < n,
            0 <= npix,
    ;
    assert((n - 1) * npix + npix == n * npix) by (nonlinear_arith);
    assert(0 <= f * npix) by (nonlinear_arith)
        requires
            0 <= f,
            0 <= npix,
    ;
}

proof fn lemma_frame_value_range(frames: Seq<u8>, npix: int, f: int, p: int, n: int)
    requires
        frames.len() == n * npix,
        0 <= f < n,
        0 <= p < npix,
    ensures
        0 <= frame_value(frames, npix, f, p) <= 255,
{
    lemma_frame_index(f, p, n, npix);
}

/// The running top-4 stays sorted, within byte range, and never exceeds the
/// sums it is subtracted from.
proof fn lemma_top4_bounds(frames: Seq<u8>, npix: int, p: int, k: nat, n: int)
    requires
        frames.len() == n * npix,
        k <= n,
        0 <= p < npix,
    ensures
        ({
            let t = pixel_top4(frames, npix, p, k);
            &&& 0 <= t.3 <= t.2 <= t.1 <= t.0 <= 255
            &&& top4_sum(t) <= pixel_sum(frames, npix, p, k)
            &&& top4_sum_sq(t) <= pixel_sum_sq(frames, npix, p, k)
        }),
        0 <= pixel_sum(frames, npix, p, k) <= 255 * k,
        0 <= pixel_sum_sq(frames, npix, p, k) <= 65025 * k,
    decreases k,
{
    if k > 0 {
        lemma_top4_bounds(frames, npix, p, (k - 1) as nat, n);
        lemma_frame_value_range(frames, npix, k - 1, p, n);
        let v = frame_value(frames, npix, k - 1, p);
        let t = pixel_top4(frames, npix, p, (k - 1) as nat);
        assert(v * v <= 65025) by (nonlinear_arith)
            requires
                0 <= v <= 255,
        ;
        assert(0 <= v * v) by (nonlinear_arith);
        assert(t.3 * t.3 >= 0) by (nonlinear_arith);
        assert(t.3 * t.3 <= t.2 * t.2 && t.2 * t.2 <= t.1 * t.1 && t.1 * t.1 <= t.0 * t.0)
            by (nonlinear_arith)
            requires
                0 <= t.3 <= t.2 <= t.1 <= t.0,
        ;
    }
}

/// The maximum tracked by the tie search is the largest of the top four.
proof fn lemma_tie_max(frames: Seq<u8>, npix: int, p: int, k: nat, rc0: int)
    ensures
        pixel_tie(frames, npix, p, k, rc0).0 == pixel_top4(frames, npix, p, k).0,
    decreases k,
{
    if k > 0 {
        lemma_tie_max(frames, npix, p, (k - 1) as nat, rc0);
    }
}

/// Bounds of the tie search state.
proof fn lemma_tie_bounds(frames: Seq<u8>, npix: int, p: int, k: nat, rc0: int)
    requires
        0 <= rc0 < 65536,
    ensures
        ({
            let s = pixel_tie(frames, npix, p, k, rc0);
            &&& 0 <= s.1 <= k
            &&& (k > 0 ==> s.1 < k)
            &&& 0 <= s.2 <= k
            &&& 0 <= s.3 < 65536
        }),
    decreases k,
{
    if k > 0 {
        lemma_tie_bounds(frames, npix, p, (k - 1) as nat, rc0);
    }
}

proof fn lemma_rc_before_bounds(frames: Seq<u8>, npix: int, n: nat, p: nat)
    ensures
        0 <= rc_before(frames, npix, n, p) < 65536,
    decreases p,
{
    if p > 0 {
        lemma_rc_before_bounds(frames, npix, n, (p - 1) as nat);
        lemma_tie_bounds(
            frames,
            npix,
            p - 1,
            n,
            rc_before(frames, npix, n, (p - 1) as nat),
        );
    }
}

/// `isqrt` is the integer square root.
pub proof fn lemma_isqrt(x: nat)
    ensures
        isqrt(x) * isqrt(x) <= x < (isqrt(x) + 1) * (isqrt(x) + 1),
    decreases x,
{
    if x > 0 {
        lemma_isqrt((x - 1) as nat);
        let s = isqrt((x - 1) as nat);
        assert(s * s <= x - 1 && x - 1 < (s + 1) * (s + 1));
        if (s + 1) * (s + 1) <= x {
            let t = s + 1;
            assert(isqrt(x) == t);
            assert(x < (t + 1) * (t + 1)) by (nonlinear_arith)
                requires
                    x - 1 < t * t,
                    t >= 1,
            ;
            assert(t * t <= x);
        } else {
            assert(isqrt(x) == s);
            assert(s * s <= x);
            assert(x < (s + 1) * (s + 1));
        }
    } else {
        assert(isqrt(0) == 0);
        assert(0 * 0 <= 0 < (0 + 1) * (0 + 1)) by (nonlinear_arith);
    }
}

/// The integer square root is the only `s` with `s² <= x < (s + 1)²`.
pub proof fn lemma_isqrt_unique(x: nat, s: nat)
    requires
        s * s <= x < (s + 1) * (s + 1),
    ensures
        isqrt(x) == s,
{
    lemma_isqrt(x);
    let r = isqrt(x);
    if r < s {
        assert((r + 1) * (r + 1) <= s * s) by (nonlinear_arith)
            requires
                r + 1 <= s,
                r >= 0,
        ;
    } else if r > s {
        assert((s + 1) * (s + 1) <= r * r) by (nonlinear_arith)
            requires
                s + 1 <= r,
                s >= 0,
        ;
    }
}

proof fn lemma_field_sum_monotone(
    frames: Seq<u8>,
    width: int,
    npix: int,
    n: int,
    order: int,
    k: int,
    q: nat,
    r: nat,
)
    requires
        frames.len() == n * npix,
        q <= r <= npix,
        width > 0,
        0 <= k < n * field_mult(order),
    ensures
        0 <= field_sum_upto(frames, width, npix, order, k, q) <= field_sum_upto(
            frames,
            width,
            npix,
            order,
            k,
            r,
        ),
    decreases r,
{
    let m = field_mult(order);
    if r > 0 {
        lemma_field_sum_monotone(frames, width, npix, n, order, k, if q < r { q } else { (r - 1) as nat }, (r - 1) as nat);
        assert(0 <= field_frame(order, k) < n) by {
            if m == 2 {
                assert(k / 2 < n) by (nonlinear_arith)
                    requires
                        0 <= k < n * 2,
                ;
            }
        }
        lemma_frame_value_range(frames, npix, field_frame(order, k), r - 1, n);
        assert(field_contrib(frames, width, npix, order, k, r - 1) >= 0);
    }
}

// ---------------------------------------------------------------------------
// Executable compression
// ---------------------------------------------------------------------------

/// Integer square root of a `u64`.
fn isqrt_u64(x: u64) -> (s: u32)
    ensures
        s as nat == isqrt(x as nat),
{
    let mut lo: u64 = 0;
    let mut hi: u64 = 0x1_0000_0000;
    assert(x < hi * hi) by (nonlinear_arith)
        requires
            x < 0x1_0000_0000_0000_0000,
            hi == 0x1_0000_0000,
    ;
    while hi - lo > 1
        invariant
            lo < hi <= 0x1_0000_0000,
            lo * lo <= x,
            x < hi * hi,
        decreases hi - lo,
    {
        let mid: u64 = lo + (hi - lo) / 2;
        assert(mid * mid < 0x1_0000_0000_0000_0000) by (nonlinear_arith)
            requires
                mid < 0x1_0000_0000,
        ;
        if mid * mid <= x {
            lo = mid;
        } else {
            hi = mid;
        }
    }
    proof {
        lemma_isqrt_unique(x as nat, lo as nat);
    }
    lo as u32
}

/// Compresses one pixel: returns its max, max frame, mean and standard
/// deviation (each saturated to 255) and the tie counter after the pixel.
fn compress_pixel(
    frames: &[u8],
    npix: usize,
    n: usize,
    p: usize,
    rc0: u16,
    table: &Vec<u8>,
) -> (res: (u8, u8, u8, u8, u16))
    requires
        frames@.len() == n * npix,
        p < npix,
        n <= u32::MAX,
        n != 4,
        is_tie_table(table@),
        pixel_sum(frames@, npix as int, p as int, n as nat) <= u32::MAX,
    ensures
        res.0 as int == clamp255(ftp_max(frames@, npix as int, n as nat, p as int)),
        res.1 as int == clamp255(pixel_tie(frames@, npix as int, p as int, n as nat, rc0 as int).1),
        res.2 as int == clamp255(ftp_mean(frames@, npix as int, n as nat, p as int)),
        res.3 as int == clamp255(ftp_std(frames@, npix as int, n as nat, p as int)),
        res.4 as int == pixel_tie(frames@, npix as int, p as int, n as nat, rc0 as int).3,
{
    let ghost fr = frames@;
    let ghost np = npix as int;
    let ghost pp = p as int;
    let mut acc: u32 = 0;
    let mut var: u64 = 0;
    let mut max_val: u32 = 0;
    let mut max_val_2: u32 = 0;
    let mut max_val_3: u32 = 0;
    let mut max_val_4: u32 = 0;
    let mut max_frame_idx: u32 = 0;
    let mut num_equal: u32 = 0;
    let mut rand_count: u16 = rc0;
    let mut f: usize = 0;
    let total: usize = frames.len();
    proof {
        lemma_top4_bounds(fr, np, pp, n as nat, n as int);
    }
    while f < n
        invariant
            frames@ == fr,
            total == n * npix,
            np == npix,
            pp == p,
            f <= n,
            n <= u32::MAX,
            frames@.len() == n * npix,
            p < npix,
            is_tie_table(table@),
            pixel_sum(fr, np, pp, n as nat) <= u32::MAX,
            acc as int == pixel_sum(fr, np, pp, f as nat),
            var as int == pixel_sum_sq(fr, np, pp, f as nat),
            (max_val as int, max_val_2 as int, max_val_3 as int, max_val_4 as int)
                == pixel_top4(fr, np, pp, f as nat),
            (max_val as int, max_frame_idx as int, num_equal as int, rand_count as int)
                == pixel_tie(fr, np, pp, f as nat, rc0 as int),
        decreases n - f,
    {
        proof {
            lemma_frame_index(f as int, pp, n as int, np);
            lemma_top4_bounds(fr, np, pp, f as nat, n as int);
            lemma_top4_bounds(fr, np, pp, (f + 1) as nat, n as int);
            lemma_tie_bounds(fr, np, pp, f as nat, rc0 as int);
            lemma_pixel_sum_monotone(fr, np, pp, (f + 1) as nat, n as nat, n as int);
        }
        let pixel: u32 = frames[f * npix + p] as u32;
        acc = acc + pixel;
        assert(var + pixel * pixel <= 65025 * (f + 1)) by (nonlinear_arith)
            requires
                var <= 65025 * f,
                pixel <= 255,
        ;
        assert(65025 * (f + 1) <= 65025 * 0x1_0000_0000) by (nonlinear_arith)
            requires
                f < n,
                n <= u32::MAX,
        ;
        var = var + (pixel as u64) * (pixel as u64);
        if pixel > max_val {
            max_val_4 = max_val_3;
            max_val_3 = max_val_2;
            max_val_2 = max_val;
            max_val = pixel;
            max_frame_idx = f as u32;
            num_equal = 1;
        } else {
            if pixel == max_val {
                num_equal = num_equal + 1;
                rand_count = if rand_count == 65535 {
                    0
                } else {
                    rand_count + 1
                };
                if num_equal <= table[rand_count as usize] as u32 {
                    max_frame_idx = f as u32;
                }
            }
            if pixel > max_val_2 {
                max_val_4 = max_val_3;
                max_val_3 = max_val_2;
                max_val_2 = pixel;
            } else if pixel > max_val_3 {
                max_val_4 = max_val_3;
                max_val_3 = pixel;
            } else if pixel > max_val_4 {
                max_val_4 = pixel;
            }
        }
        f = f + 1;
    }
    proof {
        lemma_top4_bounds(fr, np, pp, n as nat, n as int);
        lemma_tie_bounds(fr, np, pp, n as nat, rc0 as int);
    }
    let n_minus_4: usize = if n >= 4 {
        n - 4
    } else {
        1
    };
    let n_minus_5: usize = if n >= 5 {
        n - 5
    } else {
        1
    };
    let acc_adj: u32 = acc - (max_val + max_val_2 + max_val_3 + max_val_4);
    let mean: u32 = acc_adj / (n_minus_4 as u32);
    let var_top4: u64 = (max_val as u64) * (max_val as u64) + (max_val_2 as u64) * (
    max_val_2 as u64) + (max_val_3 as u64) * (max_val_3 as u64) + (max_val_4 as u64) * (
    max_val_4 as u64);
    let var_adj: u64 = var - var_top4;
    assert(mean <= acc_adj);
    assert((acc_adj as u64) * (mean as u64) <= 0xffff_ffff * 0xffff_ffff) by (nonlinear_arith)
        requires
            mean <= acc_adj,
            acc_adj <= 0xffff_ffff,
    ;
    let prod: u64 = (acc_adj as u64) * (mean as u64);
    let variance: u64 = if var_adj >= prod {
        var_adj - prod
    } else {
        0
    };
    let std_raw: u32 = if n_minus_5 == 0 {
        if variance == 0 {
            0
        } else {
            0xffff_ffff
        }
    } else {
        isqrt_u64(variance / (n_minus_5 as u64))
    };
    let std: u32 = if std_raw == 0 {
        1
    } else {
        std_raw
    };
    proof {
        lemma_tie_max(fr, np, pp, n as nat, rc0 as int);
    }
    let out_max: u8 = if max_val > 255 {
        255
    } else {
        max_val as u8
    };
    let out_frame: u8 = if max_frame_idx > 255 {
        255
    } else {
        max_frame_idx as u8
    };
    let out_mean: u8 = if mean > 255 {
        255
    } else {
        mean as u8
    };
    let out_std: u8 = if std > 255 {
        255
    } else {
        std as u8
    };
    (out_max, out_frame, out_mean, out_std, rand_count)
}

proof fn lemma_pixel_sum_monotone(frames: Seq<u8>, npix: int, p: int, k: nat, r: nat, n: int)
    requires
        frames.len() == n * npix,
        k <= r <= n,
        0 <= p < npix,
    ensures
        pixel_sum(frames, npix, p, k) <= pixel_sum(frames, npix, p, r),
    decreases r,
{
    if k < r {
        lemma_pixel_sum_monotone(frames, npix, p, k, (r - 1) as nat, n);
        lemma_frame_value_range(frames, npix, r - 1, p, n);
    }
}


/// The row parity of every pixel that is read can be taken in `i32`: the
/// last row index plus `order` fits, or no pixel is read (no row, no
/// column or no frame), or there is no deinterlacing.
pub open spec fn parity_fits(order: int, width: int, height: int, nframes: int) -> bool {
    order < 0 || width == 0 || height == 0 || nframes == 0 || (height - 1) + order <= i32::MAX
}

/// Adds the values of pixel `p` in every frame to the field sums.
fn add_field_sums(
    field_sums: &mut Vec<u32>,
    frames: &[u8],
    width: usize,
    npix: usize,
    n: usize,
    order: i32,
    p: usize,
)
    requires
        frames@.len() == n * npix,
        n * npix <= usize::MAX,
        p < npix,
        width > 0,
        old(field_sums)@.len() == n * field_mult(order as int),
        n * field_mult(order as int) <= usize::MAX,
        n == 0 || order < 0 || (p / width) + order <= i32::MAX,
        forall|k: int|
            0 <= k < n * field_mult(order as int) ==> #[trigger] old(field_sums)@[k]
                == field_sum_upto(frames@, width as int, npix as int, order as int, k, p as nat),
        forall|k: int|
            0 <= k < n * field_mult(order as int) ==> #[trigger] ftp_field_sum(
                frames@,
                width as int,
                npix as int,
                order as int,
                k,
            ) <= u32::MAX,
    ensures
        final(field_sums)@.len() == old(field_sums)@.len(),
        forall|k: int|
            0 <= k < n * field_mult(order as int) ==> #[trigger] final(field_sums)@[k]
                == field_sum_upto(frames@, width as int, npix as int, order as int, k, (p + 1) as nat),
{
    let ghost m = field_mult(order as int);
    let ghost fr = frames@;
    let ghost w = width as int;
    let ghost np = npix as int;
    let ghost d = order as int;
    if n == 0 {
        return;
    }
    let y: usize = p / width;
    let mult: usize = if order >= 0 {
        2
    } else {
        1
    };
    let par: usize = if order >= 0 {
        ((y as i32 + order) % 2) as usize
    } else {
        0
    };
    assert(par as int == field_parity(d, p as int / w));
    assert(n * m == (if m == 1 { n as int } else { 2 * n })) by (nonlinear_arith)
        requires
            m == 1 || m == 2,
    ;
    let mut f: usize = 0;
    while f < n
        invariant
            frames@ == fr,
            w == width,
            np == npix,
            d == order,
            m == mult,
            m == 1 || m == 2,
            m == field_mult(d),
            0 <= par < m,
            par as int == field_parity(d, p as int / w),
            frames@.len() == n * npix,
            n * npix <= usize::MAX,
            n * m <= usize::MAX,
            n * m == (if m == 1 { n as int } else { 2 * n }),
            p < npix,
            width > 0,
            f <= n,
            field_sums@.len() == n * m,
            forall|k: int|
                0 <= k < n * m ==> #[trigger] ftp_field_sum(fr, w, np, d, k) <= u32::MAX,
            forall|k: int|
                0 <= k < n * m ==> #[trigger] field_sums@[k] == field_sum_upto(
                    fr,
                    w,
                    np,
                    d,
                    k,
                    p as nat,
                ) + (if field_frame(d, k) < f && field_slot(d, k) == par {
                    frame_value(fr, np, field_frame(d, k), p as int)
                } else {
                    0
                }),
        decreases n - f,
    {
        proof {
            lemma_frame_index(f as int, p as int, n as int, np);
        }
        let ghost kk: int = if m == 1 {
            f as int
        } else {
            2 * f + par
        };
        assert(field_frame(d, kk) == f as int && field_slot(d, kk) == par as int && kk < n * m) by {
            if m == 1 {
                assert(par == 0);
                assert(d < 0);
                assert(field_frame(d, kk) == f as int);
                assert(field_slot(d, kk) == par as int);
            } else {
                assert(d >= 0);
                assert(field_frame(d, kk) == f as int);
                assert(field_slot(d, kk) == par as int);
                assert(kk < n * 2) by (nonlinear_arith)
                    requires
                        kk == 2 * f + par,
                        f < n,
                        par < 2,
                ;
            }
        }
        assert(mult * f + par == kk) by (nonlinear_arith)
            requires
                mult == m,
                kk == (if m == 1 { f as int } else { 2 * f + par }),
                m == 1 || m == 2,
                m == 1 ==> par == 0,
        ;
        let k: usize = mult * f + par;
        let v: u32 = frames[f * npix + p] as u32;
        proof {
            lemma_field_sum_monotone(fr, w, np, n as int, d, k as int, (p + 1) as nat, npix as nat);
            assert(field_contrib(fr, w, np, d, k as int, p as int) == v);
            assert(ftp_field_sum(fr, w, np, d, k as int) <= u32::MAX);
            assert(field_sum_upto(fr, w, np, d, k as int, (p + 1) as nat) == field_sum_upto(
                fr,
                w,
                np,
                d,
                k as int,
                p as nat,
            ) + field_contrib(fr, w, np, d, k as int, p as int));
            assert(field_sums@[k as int] == field_sum_upto(fr, w, np, d, k as int, p as nat));
        }
        let cur: u32 = field_sums[k];
        field_sums.set(k, cur + v);
        f = f + 1;
        proof {
            assert forall|j: int| 0 <= j < n * m implies #[trigger] field_sums@[j]
                == field_sum_upto(fr, w, np, d, j, p as nat) + (if field_frame(d, j) < f && field_slot(d, j) == par {
                frame_value(fr, np, field_frame(d, j), p as int)
            } else {
                0
            }) by {
                if j != k {
                    if m == 1 {
                    } else {
                    }
                }
            }
        }
    }
    proof {
        assert forall|k: int| 0 <= k < n * m implies #[trigger] field_sums@[k]
            == field_sum_upto(fr, w, np, d, k, (p + 1) as nat) by {
            assert(field_frame(d, k) < n) by {
                if m == 2 {
                    assert(k / 2 < n) by (nonlinear_arith)
                        requires
                            0 <= k < n * 2,
                    ;
                }
            }
            assert(field_sum_upto(fr, w, np, d, k, (p + 1) as nat) == field_sum_upto(
                fr,
                w,
                np,
                d,
                k,
                p as nat,
            ) + field_contrib(fr, w, np, d, k, p as int));
        }
    }
}

/// Whether every sum that [`compress_frames`] keeps in 32 bits fits there:
/// each pixel's intensity summed over the block, and each field sum.  These
/// are the sums whose overflow [`compress_frames`] leaves out of its inputs.
pub fn compression_sums_fit(
    frames: &[u8],
    width: u32,
    height: u32,
    nframes: u32,
    deinterlace_order: i32,
) -> (ok: bool)
    requires
        height * width <= usize::MAX,
        frames@.len() == nframes * (height * width),
        nframes * field_mult(deinterlace_order as int) <= usize::MAX,
    ensures
        ok == ((forall|p: int|
            0 <= p < height * width ==> #[trigger] pixel_sum(
                frames@,
                height * width,
                p,
                nframes as nat,
            ) <= u32::MAX) && (forall|k: int|
            0 <= k < nframes * field_mult(deinterlace_order as int) ==> #[trigger] ftp_field_sum(
                frames@,
                width as int,
                height * width,
                deinterlace_order as int,
                k,
            ) <= u32::MAX)),
{
    let ghost fr = frames@;
    let ghost d = deinterlace_order as int;
    let h = height as usize;
    let w = width as usize;
    let npix: usize = h * w;
    let ghost np = npix as int;
    let n = nframes as usize;
    let total: usize = frames.len();
    if npix == 0 {
        assert forall|k: int|
            0 <= k < nframes * field_mult(d) implies #[trigger] ftp_field_sum(fr, width as int, np, d, k)
            <= u32::MAX by {
            assert(ftp_field_sum(fr, width as int, np, d, k) == 0);
        }
        return true;
    }
    assert(w > 0) by (nonlinear_arith)
        requires
            npix == h * w,
            npix > 0,
    ;
    let mut p: usize = 0;
    while p < npix
        invariant
            frames@ == fr,
            p <= npix,
            np == npix,
            npix == height * width,
            n == nframes,
            frames@.len() == n * npix,
            total == n * npix,
            forall|q: int| 0 <= q < p ==> #[trigger] pixel_sum(fr, np, q, n as nat) <= u32::MAX,
        decreases npix - p,
    {
        let mut s: u64 = 0;
        let mut f: usize = 0;
        while f < n
            invariant
                frames@ == fr,
                f <= n,
                p < npix,
                np == npix,
                n == nframes,
                frames@.len() == n * npix,
                total == n * npix,
            total == n * npix,
                s == pixel_sum(fr, np, p as int, f as nat),
                s <= 255 * f,
            decreases n - f,
        {
            proof {
                lemma_frame_index(f as int, p as int, n as int, np);
            }
            s = s + frames[f * npix + p] as u64;
            f = f + 1;
        }
        if s > 0xffff_ffff {
            assert(pixel_sum(fr, np, p as int, n as nat) > u32::MAX);
            return false;
        }
        p = p + 1;
    }
    let m: usize = if deinterlace_order >= 0 {
        2
    } else {
        1
    };
    let nk: usize = n * m;
    let mut k: usize = 0;
    while k < nk
        invariant
            frames@ == fr,
            np == npix,
            npix == height * width,
            npix == h * w,
            w == width,
            h == height,
            w > 0,
            n == nframes,
            d == deinterlace_order,
            m == field_mult(d),
            nk == n * m,
            k <= nk,
            frames@.len() == n * npix,
            total == n * npix,
            forall|q: int| 0 <= q < npix ==> #[trigger] pixel_sum(fr, np, q, n as nat) <= u32::MAX,
            forall|j: int| 0 <= j < k ==> #[trigger] ftp_field_sum(fr, w as int, np, d, j) <= u32::MAX,
        decreases nk - k,
    {
        let f: usize = if m == 2 {
            k / 2
        } else {
            k
        };
        let slot: u64 = if m == 2 {
            (k % 2) as u64
        } else {
            0
        };
        assert(f == field_frame(d, k as int) && slot == field_slot(d, k as int));
        assert(f < n) by (nonlinear_arith)
            requires
                k < n * m,
                m == 1 || m == 2,
                f == (if m == 2 { k as int / 2 } else { k as int }),
        ;
        let mut s: u64 = 0;
        let mut q: usize = 0;
        while q < npix
            invariant
                frames@ == fr,
                np == npix,
                npix == h * w,
                w == width,
                h == height,
                w > 0,
                n == nframes,
                d == deinterlace_order,
                m == field_mult(d),
                k < n * m,
                f < n,
                f == field_frame(d, k as int),
                slot == field_slot(d, k as int),
                q <= npix,
                frames@.len() == n * npix,
                total == n * npix,
            total == n * npix,
                s == field_sum_upto(fr, w as int, np, d, k as int, q as nat),
                s <= u32::MAX,
            decreases npix - q,
        {
            let y: usize = q / w;
            assert(y < h) by (nonlinear_arith)
                requires
                    q < h * w,
                    w > 0,
                    y == q / w,
            ;
            let par: u64 = if deinterlace_order >= 0 {
                (y as u64 + deinterlace_order as u64) % 2
            } else {
                0
            };
            assert(par == field_parity(d, q as int / w as int));
            proof {
                lemma_frame_index(f as int, q as int, n as int, np);
            }
            if par == slot {
                s = s + frames[f * npix + q] as u64;
            }
            q = q + 1;
            if s > 0xffff_ffff {
                proof {
                    lemma_field_sum_monotone(fr, w as int, np, n as int, d, k as int, q as nat, npix as nat);
                }
                assert(ftp_field_sum(fr, width as int, np, d, k as int) > u32::MAX);
                return false;
            }
        }
        k = k + 1;
    }
    true
}

/// Compresses a block of grayscale frames into an [`FfData`].
///
/// `frames` holds `nframes` frames of `height × width` pixels, one after the
/// other, row-major.  `deinterlace_order` is -1 for progressive video, 0
/// for even-first and 1 for odd-first; with deinterlacing there are two
/// field sums per frame, `2f + (row + order) mod 2`, else one per frame.
pub fn compress_frames(
    frames: &[u8],
    width: u32,
    height: u32,
    nframes: u32,
    fps_millis: u32,
    station_id: &str,
    deinterlace_order: i32,
    start_time: UtcTime,
) -> (ff: FfData)
    requires
        height * width <= usize::MAX,
        frames@.len() == nframes * (height * width),
        nframes * field_mult(deinterlace_order as int) <= usize::MAX,
        nframes != 4 || height * width == 0,
        parity_fits(deinterlace_order as int, width as int, height as int, nframes as int),
        forall|p: int|
            0 <= p < height * width ==> #[trigger] pixel_sum(
                frames@,
                height * width,
                p,
                nframes as nat,
            ) <= u32::MAX,
        forall|k: int|
            0 <= k < nframes * field_mult(deinterlace_order as int) ==> #[trigger] ftp_field_sum(
                frames@,
                width as int,
                height * width,
                deinterlace_order as int,
                k,
            ) <= u32::MAX,
    ensures
        ff.nrows == height,
        ff.ncols == width,
        ff.nframes == nframes,
        ff.fps_millis == fps_millis,
        ff.station_id@ == station_id@,
        ff.deinterlace_order == deinterlace_order,
        ff.start_time == start_time,
        ff.maxpixel@.len() == height * width,
        ff.maxframe@.len() == height * width,
        ff.avepixel@.len() == height * width,
        ff.stdpixel@.len() == height * width,
        ff.field_sums@.len() == nframes * field_mult(deinterlace_order as int),
        forall|p: int|
            0 <= p < height * width ==> {
                &&& #[trigger] ff.maxpixel@[p] as int == ftp_max(
                    frames@,
                    height * width,
                    nframes as nat,
                    p,
                )
                &&& ff.maxframe@[p] as int == clamp255(
                    ftp_max_frame(frames@, height * width, nframes as nat, p),
                )
                &&& ff.avepixel@[p] as int == clamp255(
                    ftp_mean(frames@, height * width, nframes as nat, p),
                )
                &&& ff.stdpixel@[p] as int == clamp255(
                    ftp_std(frames@, height * width, nframes as nat, p),
                )
            },
        forall|k: int|
            0 <= k < nframes * field_mult(deinterlace_order as int) ==> #[trigger] ff.field_sums@[k]
                == ftp_field_sum(
                frames@,
                width as int,
                height * width,
                deinterlace_order as int,
                k,
            ),
{
    broadcast use vstd::string::group_string_axioms;

    let w: usize = width as usize;
    let h: usize = height as usize;
    let n: usize = nframes as usize;
    let npix: usize = h * w;
    let ghost fr = frames@;
    let ghost np = npix as int;
    let ghost d = deinterlace_order as int;
    let mut maxpixel: Vec<u8> = vec![0u8; npix];
    let mut maxframe: Vec<u8> = vec![0u8; npix];
    let mut avepixel: Vec<u8> = vec![0u8; npix];
    let mut stdpixel: Vec<u8> = vec![0u8; npix];
    let deinterlace_mult: usize = if deinterlace_order >= 0 {
        2
    } else {
        1
    };
    let mut field_sums: Vec<u32> = vec![0u32; n * deinterlace_mult];
    let table = tie_table();
    let mut rand_count: u16 = 1;
    let mut p: usize = 0;
    let total: usize = frames.len();
    while p < npix
        invariant
            frames@ == fr,
            np == npix,
            npix == h * w,
            w == width,
            h == height,
            n == nframes,
            d == deinterlace_order,
            deinterlace_mult == field_mult(d),
            frames@.len() == n * npix,
            total == n * npix,
            n * deinterlace_mult <= usize::MAX,
            n != 4 || npix == 0,
            parity_fits(d, width as int, height as int, n as int),
            is_tie_table(table@),
            p <= npix,
            maxpixel@.len() == npix,
            maxframe@.len() == npix,
            avepixel@.len() == npix,
            stdpixel@.len() == npix,
            field_sums@.len() == n * deinterlace_mult,
            rand_count as int == rc_before(fr, np, n as nat, p as nat),
            forall|q: int| 0 <= q < npix ==> #[trigger] pixel_sum(fr, np, q, n as nat) <= u32::MAX,
            forall|k: int|
                0 <= k < n * deinterlace_mult ==> #[trigger] ftp_field_sum(
                    fr,
                    w as int,
                    np,
                    d,
                    k,
                ) <= u32::MAX,
            forall|q: int|
                0 <= q < p ==> {
                    &&& #[trigger] maxpixel@[q] as int == ftp_max(fr, np, n as nat, q)
                    &&& maxframe@[q] as int == clamp255(ftp_max_frame(fr, np, n as nat, q))
                    &&& avepixel@[q] as int == clamp255(ftp_mean(fr, np, n as nat, q))
                    &&& stdpixel@[q] as int == clamp255(ftp_std(fr, np, n as nat, q))
                },
            forall|k: int|
                0 <= k < n * deinterlace_mult ==> #[trigger] field_sums@[k] == field_sum_upto(
                    fr,
                    w as int,
                    np,
                    d,
                    k,
                    p as nat,
                ),
        decreases npix - p,
    {
        proof {
            lemma_top4_bounds(fr, np, p as int, n as nat, n as int);
            assert(w > 0) by (nonlinear_arith)
                requires
                    p < npix,
                    npix == h * w,
            ;
            assert(p as int / w as int <= h - 1) by (nonlinear_arith)
                requires
                    p < h * w,
                    w > 0,
            ;
        }
        let ghost old_max = maxpixel@;
        let ghost old_frame = maxframe@;
        let ghost old_ave = avepixel@;
        let ghost old_std = stdpixel@;
        let (mx, mf, mean, std, rc2) = compress_pixel(frames, npix, n, p, rand_count, &table);
        maxpixel.set(p, mx);
        maxframe.set(p, mf);
        avepixel.set(p, mean);
        stdpixel.set(p, std);
        add_field_sums(&mut field_sums, frames, w, npix, n, deinterlace_order, p);
        proof {
            assert forall|q: int| 0 <= q < p + 1 implies {
                &&& #[trigger] maxpixel@[q] as int == ftp_max(fr, np, n as nat, q)
                &&& maxframe@[q] as int == clamp255(ftp_max_frame(fr, np, n as nat, q))
                &&& avepixel@[q] as int == clamp255(ftp_mean(fr, np, n as nat, q))
                &&& stdpixel@[q] as int == clamp255(ftp_std(fr, np, n as nat, q))
            } by {
                if q < p {
                    assert(maxpixel@[q] == old_max[q]);
                    assert(maxframe@[q] == old_frame[q]);
                    assert(avepixel@[q] == old_ave[q]);
                    assert(stdpixel@[q] == old_std[q]);
                }
                if q == p {
                    assert(maxpixel@[q] == mx);
                    assert(mx as int == ftp_max(fr, np, n as nat, q));
                    assert(maxframe@[q] as int == clamp255(ftp_max_frame(fr, np, n as nat, q)));
                    assert(avepixel@[q] as int == clamp255(ftp_mean(fr, np, n as nat, q)));
                    assert(stdpixel@[q] as int == clamp255(ftp_std(fr, np, n as nat, q)));
                }
            }
        }
        rand_count = rc2;
        p = p + 1;
    }
    FfData {
        nrows: height,
        ncols: width,
        nframes,
        fps_millis,
        station_id: station_id.to_string(),
        deinterlace_order,
        start_time,
        maxpixel,
        maxframe,
        avepixel,
        stdpixel,
        field_sums,
    }
}


// ---------------------------------------------------------------------------
// Laws
// ---------------------------------------------------------------------------

/// The max plane holds the maximum: no frame is brighter at that pixel, and
/// (for a non-empty block) some frame reaches it.
pub proof fn law_max_is_maximum(frames: Seq<u8>, npix: int, n: nat, p: int)
    requires
        frames.len() == n * npix,
        0 <= p < npix,
    ensures
        forall|f: int| 0 <= f < n ==> #[trigger] frame_value(frames, npix, f, p) <= ftp_max(frames, npix, n, p),
        n > 0 ==> exists|f: int| 0 <= f < n && #[trigger] frame_value(frames, npix, f, p) == ftp_max(frames, npix, n, p),
{
    lemma_top4_max(frames, npix, p, n, n as int);
}

proof fn lemma_top4_max(frames: Seq<u8>, npix: int, p: int, k: nat, n: int)
    requires
        frames.len() == n * npix,
        k <= n,
        0 <= p < npix,
    ensures
        forall|f: int| 0 <= f < k ==> #[trigger] frame_value(frames, npix, f, p) <= pixel_top4(frames, npix, p, k).0,
        k > 0 ==> exists|f: int| 0 <= f < k && #[trigger] frame_value(frames, npix, f, p) == pixel_top4(frames, npix, p, k).0,
        pixel_top4(frames, npix, p, k).0 >= 0,
    decreases k,
{
    if k > 0 {
        lemma_top4_max(frames, npix, p, (k - 1) as nat, n);
        lemma_frame_value_range(frames, npix, k - 1, p, n);
        let t = pixel_top4(frames, npix, p, (k - 1) as nat);
        let v = frame_value(frames, npix, k - 1, p);
        if v > t.0 {
        } else if k - 1 > 0 {
            let g = choose|f: int| 0 <= f < k - 1 && #[trigger] frame_value(frames, npix, f, p) == t.0;
            assert(frame_value(frames, npix, g, p) == pixel_top4(frames, npix, p, k).0);
        } else {
            assert(frame_value(frames, npix, 0, p) == pixel_top4(frames, npix, p, k).0);
        }
    }
}

/// The max-frame plane points at a frame where the maximum occurs (when the
/// block is non-empty and its frame indices fit the byte plane).
pub proof fn law_max_frame_holds_max(frames: Seq<u8>, npix: int, n: nat, p: int)
    requires
        frames.len() == n * npix,
        0 <= p < npix,
        0 < n <= 256,
    ensures
        0 <= ftp_max_frame(frames, npix, n, p) < n,
        clamp255(ftp_max_frame(frames, npix, n, p)) == ftp_max_frame(frames, npix, n, p),
        frame_value(frames, npix, ftp_max_frame(frames, npix, n, p), p) == ftp_max(frames, npix, n, p),
{
    let rc = rc_before(frames, npix, n, p as nat);
    lemma_rc_before_bounds(frames, npix, n, p as nat);
    lemma_tie_bounds(frames, npix, p, n, rc);
    lemma_tie_frame(frames, npix, p, n, rc, n as int);
    lemma_tie_max(frames, npix, p, n, rc);
}

proof fn lemma_tie_frame(frames: Seq<u8>, npix: int, p: int, k: nat, rc0: int, n: int)
    requires
        frames.len() == n * npix,
        0 < k <= n,
        0 <= p < npix,
        0 <= rc0 < 65536,
    ensures
        frame_value(frames, npix, pixel_tie(frames, npix, p, k, rc0).1, p) == pixel_tie(
            frames,
            npix,
            p,
            k,
            rc0,
        ).0,
    decreases k,
{
    lemma_tie_bounds(frames, npix, p, k, rc0);
    lemma_frame_value_range(frames, npix, k - 1, p, n);
    if k > 1 {
        lemma_tie_frame(frames, npix, p, (k - 1) as nat, rc0, n);
    } else {
        assert(pixel_tie(frames, npix, p, 0, rc0) == (0int, 0int, 0int, rc0));
        assert(pixel_tie(frames, npix, p, k, rc0).1 == 0);
    }
}

/// A pixel that keeps the same value `c` over a block of at least five
/// frames gets mean `c` and the floor standard deviation 1.
pub proof fn law_constant_pixel(frames: Seq<u8>, npix: int, n: nat, p: int, c: int)
    requires
        frames.len() == n * npix,
        0 <= p < npix,
        n >= 5,
        forall|f: int| 0 <= f < n ==> #[trigger] frame_value(frames, npix, f, p) == c,
    ensures
        ftp_max(frames, npix, n, p) == c,
        ftp_mean(frames, npix, n, p) == c,
        ftp_std(frames, npix, n, p) == 1,
{
    lemma_frame_value_range(frames, npix, 0, p, n as int);
    lemma_constant_prefix(frames, npix, p, n, c, n as int);
    let t = pixel_top4(frames, npix, p, n);
    assert(t == (c, c, c, c));
    assert(n * c - 4 * c == (n - 4) * c) by (nonlinear_arith);
    assert(((n - 4) * c) / (n - 4) as int == c) by (nonlinear_arith)
        requires
            n >= 5,
    ;
    assert(n * (c * c) - 4 * (c * c) - (n - 4) * c * c == 0) by (nonlinear_arith);
    assert(ftp_variance(frames, npix, n, p) == 0);
    assert(isqrt(0) == 0);
}

#[verifier::spinoff_prover]
proof fn lemma_constant_prefix(frames: Seq<u8>, npix: int, p: int, k: nat, c: int, n: int)
    requires
        frames.len() == n * npix,
        k <= n,
        0 <= p < npix,
        0 <= c <= 255,
        forall|f: int| 0 <= f < n ==> #[trigger] frame_value(frames, npix, f, p) == c,
    ensures
        pixel_sum(frames, npix, p, k) == k * c,
        pixel_sum_sq(frames, npix, p, k) == k * (c * c),
        k >= 4 ==> pixel_top4(frames, npix, p, k) == (c, c, c, c),
        k == 3 ==> pixel_top4(frames, npix, p, k) == (c, c, c, 0int),
        k == 2 ==> pixel_top4(frames, npix, p, k) == (c, c, 0int, 0int),
        k == 1 ==> pixel_top4(frames, npix, p, k) == (c, 0int, 0int, 0int),
    decreases k,
{
    if k > 0 {
        lemma_constant_prefix(frames, npix, p, (k - 1) as nat, c, n);
        let v = frame_value(frames, npix, k - 1, p);
        assert(v == c);
        assert(v * v == c * c);
        if k == 1 {
            assert(pixel_top4(frames, npix, p, 0) == (0int, 0int, 0int, 0int));
        }
        assert((k - 1) * c + c == k * c) by (nonlinear_arith);
        assert((k - 1) * (c * c) + c * c == k * (c * c)) by (nonlinear_arith);
        assert(pixel_sum(frames, npix, p, k) == pixel_sum(frames, npix, p, (k - 1) as nat) + v);
        assert(pixel_sum_sq(frames, npix, p, k) == pixel_sum_sq(frames, npix, p, (k - 1) as nat)
            + v * v);
    }
}

/// Sum of the intensities of frame `f` over the pixels `0..q`.
pub open spec fn frame_total(frames: Seq<u8>, npix: int, f: int, q: nat) -> int
    decreases q,
{
    if q == 0 {
        0
    } else {
        frame_total(frames, npix, f, (q - 1) as nat) + frame_value(frames, npix, f, q - 1)
    }
}

/// The field sums of a frame add up to the frame's total intensity: one sum
/// per frame for progressive video, two (one per field) when deinterlacing.
pub proof fn law_field_sums_partition_frame(
    frames: Seq<u8>,
    width: int,
    npix: int,
    order: int,
    f: int,
)
    requires
        width > 0,
        npix >= 0,
        f >= 0,
    ensures
        order >= 0 ==> ftp_field_sum(frames, width, npix, order, 2 * f) + ftp_field_sum(
            frames,
            width,
            npix,
            order,
            2 * f + 1,
        ) == frame_total(frames, npix, f, npix as nat),
        order < 0 ==> ftp_field_sum(frames, width, npix, order, f) == frame_total(
            frames,
            npix,
            f,
            npix as nat,
        ),
{
    lemma_field_partition_upto(frames, width, npix, order, f, npix as nat);
}

proof fn lemma_field_partition_upto(
    frames: Seq<u8>,
    width: int,
    npix: int,
    order: int,
    f: int,
    q: nat,
)
    requires
        width > 0,
        f >= 0,
    ensures
        order >= 0 ==> field_sum_upto(frames, width, npix, order, 2 * f, q) + field_sum_upto(
            frames,
            width,
            npix,
            order,
            2 * f + 1,
            q,
        ) == frame_total(frames, npix, f, q),
        order < 0 ==> field_sum_upto(frames, width, npix, order, f, q) == frame_total(
            frames,
            npix,
            f,
            q,
        ),
    decreases q,
{
    if q > 0 {
        lemma_field_partition_upto(frames, width, npix, order, f, (q - 1) as nat);
        let y = (q - 1) / width;
        assert(y >= 0) by (nonlinear_arith)
            requires
                q >= 1,
                width > 0,
                y == (q - 1) / width,
        ;
    }
}

/// How the field sums are made: field sum `k` adds up, pixel by pixel, the
/// pixels of frame `k / 2` whose row `y` has `(y + order) % 2 == k % 2`
/// when deinterlacing (every order >= 0, odd-first as well as even-first),
/// and every pixel of frame `k` for progressive video (order < 0).
pub proof fn law_field_sum_rows(
    frames: Seq<u8>,
    width: int,
    npix: int,
    order: int,
    k: int,
    q: nat,
)
    requires
        width > 0,
    ensures
        ftp_field_sum(frames, width, npix, order, k) == field_sum_upto(
            frames,
            width,
            npix,
            order,
            k,
            npix as nat,
        ),
        field_sum_upto(frames, width, npix, order, k, 0) == 0,
        order >= 0 ==> field_sum_upto(frames, width, npix, order, k, q + 1) == field_sum_upto(
            frames,
            width,
            npix,
            order,
            k,
            q,
        ) + if (q as int / width + order) % 2 == k % 2 {
            frames[(k / 2) * npix + q] as int
        } else {
            0
        },
        order < 0 ==> field_sum_upto(frames, width, npix, order, k, q + 1) == field_sum_upto(
            frames,
            width,
            npix,
            order,
            k,
            q,
        ) + frames[k * npix + q] as int,
{
}

} // verus!
