//! Capture nights on disk: night directories under `CapturedFiles/` named
//! `{station}_{YYYYMMDD}_{HHMMSS}_UTC`, the FF/FS files inside them, and the
//! checks that keep requested names inside that tree.

use vstd::prelude::*;

use crate::capture::night_dir_name_text;
use crate::ff::{date_digits, ff_filename, fmt_year, fs_filename, time_digits, UtcTime};
use crate::model::{starts_with, FileEntry, NightSummary};
use crate::text::{
    all_digits, dec_padded, is_digit, lemma_dec_padded_len, lemma_dec_padded_reads_back,
    lemma_digits_bytes, lemma_find_char_append, pow10,
    byte_boundary, byte_boundary_of, chars_of, find_char, find_in, join_path, lemma_find_char_range,
    lemma_byte_boundary_order, lemma_split_fields_len, path_join, push_all, split_fields, string_of, utf8_len, utf8_len_is,
};

verus! {

// ---------------------------------------------------------------------------
// Name checks
// ---------------------------------------------------------------------------

/// `s` contains the character `c`.
pub open spec fn has_char(s: Seq<char>, c: char) -> bool {
    exists|i: int| 0 <= i < s.len() && s[i] == c
}

/// `s` contains two consecutive dots.
pub open spec fn has_dot_dot(s: Seq<char>) -> bool {
    exists|i: int| 0 <= i < s.len() - 1 && #[trigger] s[i] == '.' && s[i + 1] == '.'
}

/// A requested name that cannot leave its directory: no `..`, no `/` and
/// no `\`.
pub open spec fn is_plain_name(s: Seq<char>) -> bool {
    !has_dot_dot(s) && !has_char(s, '/') && !has_char(s, '\\')
}

/// Whether `name` is safe to use as a single path component.
pub fn plain_name(name: &str) -> (ok: bool)
    ensures
        ok == is_plain_name(name@),
{
    let s = chars_of(name);
    let mut i: usize = 0;
    while i < s.len()
        invariant
            s@ == name@,
            i <= s@.len(),
            forall|j: int| 0 <= j < i ==> s@[j] != '/' && s@[j] != '\\',
            forall|j: int| 0 <= j < i && j + 1 < s@.len() ==> !(#[trigger] s@[j] == '.' && s@[j + 1] == '.'),
        decreases s@.len() - i,
    {
        if s[i] == '/' || s[i] == '\\' {
            return false;
        }
        if i + 1 < s.len() && s[i] == '.' && s[i + 1] == '.' {
            return false;
        }
        i = i + 1;
    }
    true
}

/// Path of a night directory, `{data_dir}/CapturedFiles/{night_dir}`, when
/// the night name is a plain name; `None` for names that could escape the
/// data directory.  Whether the directory exists is for the caller to check.
pub fn night_dir_path(data_dir: &str, night_dir: &str) -> (p: Option<String>)
    ensures
        p is None <==> !is_plain_name(night_dir@),
        p matches Some(s) ==> s@ == path_join(
            path_join(data_dir@, "CapturedFiles"@),
            night_dir@,
        ),
{
    if !plain_name(night_dir) {
        return None;
    }
    let captured = join_path(data_dir, "CapturedFiles");
    Some(join_path(captured.as_str(), night_dir))
}

/// `s` ends with `p`.
pub open spec fn ends_with(s: Seq<char>, p: Seq<char>) -> bool {
    s.len() >= p.len() && s.subrange(s.len() - p.len(), s.len() as int) == p
}

/// Content type under which a captured file is served: FF files (`.bin`)
/// as binary, everything else as plain text.
pub open spec fn content_type_of(name: Seq<char>) -> Seq<char> {
    if ends_with(name, seq!['.', 'b', 'i', 'n']) {
        "application/octet-stream"@
    } else {
        "text/plain"@
    }
}

/// Content type of a captured file.
pub fn content_type(name: &str) -> (t: &'static str)
    ensures
        t@ == content_type_of(name@),
{
    let s = chars_of(name);
    let n = s.len();
    if n >= 4 && s[n - 4] == '.' && s[n - 3] == 'b' && s[n - 2] == 'i' && s[n - 1] == 'n' {
        assert(s@.subrange(n - 4, n as int) =~= seq!['.', 'b', 'i', 'n']);
        "application/octet-stream"
    } else {
        proof {
            if n >= 4 && s@.subrange(n - 4, n as int) == seq!['.', 'b', 'i', 'n'] {
                assert(s@.subrange(n - 4, n as int)[0] == s@[n - 4]);
                assert(s@.subrange(n - 4, n as int)[1] == s@[n - 3]);
                assert(s@.subrange(n - 4, n as int)[2] == s@[n - 2]);
                assert(s@.subrange(n - 4, n as int)[3] == s@[n - 1]);
            }
        }
        "text/plain"
    }
}

// ---------------------------------------------------------------------------
// Night statistics
// ---------------------------------------------------------------------------

/// FF files, FS files and total bytes of the first `k` directory entries.
pub open spec fn night_counts(entries: Seq<FileEntry>, k: nat) -> (int, int, int)
    decreases k,
{
    if k == 0 {
        (0, 0, 0)
    } else {
        let c = night_counts(entries, (k - 1) as nat);
        let e = entries[k - 1];
        let ff = if starts_with(e.name@, seq!['F', 'F', '_']) {
            1int
        } else {
            0
        };
        let fs = if !starts_with(e.name@, seq!['F', 'F', '_']) && starts_with(
            e.name@,
            seq!['F', 'S', '_'],
        ) {
            1int
        } else {
            0
        };
        (c.0 + ff, c.1 + fs, c.2 + e.size)
    }
}

proof fn lemma_night_counts_bounds(entries: Seq<FileEntry>, k: nat, m: nat)
    requires
        k <= m <= entries.len(),
    ensures
        0 <= night_counts(entries, k).0 <= k,
        0 <= night_counts(entries, k).1 <= k,
        0 <= night_counts(entries, k).2 <= night_counts(entries, m).2,
    decreases m,
{
    if m > k {
        lemma_night_counts_bounds(entries, k, (m - 1) as nat);
    } else if k > 0 {
        lemma_night_counts_bounds(entries, (k - 1) as nat, (k - 1) as nat);
    }
}

/// Counts the FF files, the FS files and the bytes among the entries of a
/// night directory (every entry's size counts toward the total).
pub fn count_night_files(entries: &Vec<FileEntry>) -> (r: (u32, u32, u64))
    requires
        entries@.len() <= u32::MAX,
        night_counts(entries@, entries@.len()).2 <= u64::MAX,
    ensures
        (r.0 as int, r.1 as int, r.2 as int) == night_counts(entries@, entries@.len()),
{
    let mut ff: u32 = 0;
    let mut fs: u32 = 0;
    let mut bytes: u64 = 0;
    let mut i: usize = 0;
    while i < entries.len()
        invariant
            i <= entries@.len() <= u32::MAX,
            night_counts(entries@, entries@.len()).2 <= u64::MAX,
            (ff as int, fs as int, bytes as int) == night_counts(entries@, i as nat),
        decreases entries@.len() - i,
    {
        proof {
            lemma_night_counts_bounds(entries@, (i + 1) as nat, entries@.len());
            lemma_night_counts_bounds(entries@, i as nat, i as nat);
        }
        bytes = bytes + entries[i].size;
        if entries[i].is_ff() {
            ff = ff + 1;
        } else if entries[i].is_fs() {
            fs = fs + 1;
        }
        i = i + 1;
    }
    (ff, fs, bytes)
}

/// A night directory and the time it was last modified, in nanoseconds
/// from the Unix epoch (negative before it).
pub struct DirStamp {
    pub path: String,
    pub modified: i128,
}

/// Index of the most recently modified directory; the first one listed
/// among equally recent ones.
pub fn most_recent(dirs: &Vec<DirStamp>) -> (r: Option<usize>)
    ensures
        r is None <==> dirs@.len() == 0,
        r matches Some(i) ==> {
            &&& i < dirs@.len()
            &&& forall|j: int| 0 <= j < dirs@.len() ==> dirs@[j].modified <= dirs@[i as int].modified
            &&& forall|j: int| 0 <= j < i ==> dirs@[j].modified < dirs@[i as int].modified
        },
{
    if dirs.len() == 0 {
        return None;
    }
    let mut best: usize = 0;
    let mut i: usize = 1;
    while i < dirs.len()
        invariant
            1 <= i <= dirs@.len(),
            best < i,
            forall|j: int| 0 <= j < i ==> dirs@[j].modified <= dirs@[best as int].modified,
            forall|j: int| 0 <= j < best ==> dirs@[j].modified < dirs@[best as int].modified,
        decreases dirs@.len() - i,
    {
        if dirs[i].modified > dirs[best].modified {
            best = i;
        }
        i = i + 1;
    }
    Some(best)
}


// ---------------------------------------------------------------------------
// Night directory names
// ---------------------------------------------------------------------------

/// The name has at least four `_`-separated fields, the second 8 bytes long
/// (`YYYYMMDD`) and the third 6 bytes long (`HHMMSS`).
pub open spec fn night_is_stamped(name: Seq<char>) -> bool {
    let p = split_fields(name, '_');
    p.len() >= 4 && utf8_len(p[1]) == 8 && utf8_len(p[2]) == 6
}

/// The byte offsets at which a stamped name's date and time are cut fall on
/// character boundaries (always so for ASCII names).
pub open spec fn night_dir_cuttable(name: Seq<char>) -> bool {
    let p = split_fields(name, '_');
    night_is_stamped(name) ==> {
        &&& byte_boundary(p[1], 4) is Some
        &&& byte_boundary(p[1], 6) is Some
        &&& byte_boundary(p[2], 2) is Some
        &&& byte_boundary(p[2], 4) is Some
    }
}

/// `YYYY-MM-DD HH:MM:SS UTC` from the date field `d` and time field `t`,
/// each cut at its byte offsets as string slicing cuts them.
pub open spec fn stamp_text(d: Seq<char>, t: Seq<char>) -> Seq<char> {
    let d4 = byte_boundary(d, 4)->0;
    let d6 = byte_boundary(d, 6)->0;
    let t2 = byte_boundary(t, 2)->0;
    let t4 = byte_boundary(t, 4)->0;
    d.subrange(0, d4) + seq!['-'] + d.subrange(d4, d6) + seq!['-'] + d.subrange(d6, d.len() as int)
        + seq![' '] + t.subrange(0, t2) + seq![':'] + t.subrange(t2, t4) + seq![':'] + t.subrange(
        t4,
        t.len() as int,
    ) + seq![' ', 'U', 'T', 'C']
}

/// Writes [`stamp_text`] of `s[dlo..dhi]` and `s[tlo..thi]`.
fn format_stamp(s: &[char], dlo: usize, dhi: usize, tlo: usize, thi: usize) -> (out: Vec<char>)
    requires
        dlo <= dhi <= s@.len(),
        tlo <= thi <= s@.len(),
        byte_boundary(s@.subrange(dlo as int, dhi as int), 4) is Some,
        byte_boundary(s@.subrange(dlo as int, dhi as int), 6) is Some,
        byte_boundary(s@.subrange(tlo as int, thi as int), 2) is Some,
        byte_boundary(s@.subrange(tlo as int, thi as int), 4) is Some,
    ensures
        out@ == stamp_text(
            s@.subrange(dlo as int, dhi as int),
            s@.subrange(tlo as int, thi as int),
        ),
{
    let ghost d = s@.subrange(dlo as int, dhi as int);
    let ghost t = s@.subrange(tlo as int, thi as int);
    proof {
        lemma_byte_boundary_order(d, 4, 6);
        lemma_byte_boundary_order(t, 2, 4);
    }
    let d4 = byte_boundary_of(s, dlo, dhi, 4).unwrap();
    let d6 = byte_boundary_of(s, dlo, dhi, 6).unwrap();
    let t2 = byte_boundary_of(s, tlo, thi, 2).unwrap();
    let t4 = byte_boundary_of(s, tlo, thi, 4).unwrap();
    let mut out: Vec<char> = Vec::new();
    push_all(&mut out, &s[dlo..d4]);
    out.push('-');
    push_all(&mut out, &s[d4..d6]);
    out.push('-');
    push_all(&mut out, &s[d6..dhi]);
    out.push(' ');
    push_all(&mut out, &s[tlo..t2]);
    out.push(':');
    push_all(&mut out, &s[t2..t4]);
    out.push(':');
    push_all(&mut out, &s[t4..thi]);
    push_all(&mut out, &[' ', 'U', 'T', 'C']);
    proof {
        assert(d.subrange(0, d4 - dlo) =~= s@.subrange(dlo as int, d4 as int));
        assert(d.subrange(d4 - dlo, d6 - dlo) =~= s@.subrange(d4 as int, d6 as int));
        assert(d.subrange(d6 - dlo, d.len() as int) =~= s@.subrange(d6 as int, dhi as int));
        assert(t.subrange(0, t2 - tlo) =~= s@.subrange(tlo as int, t2 as int));
        assert(t.subrange(t2 - tlo, t4 - tlo) =~= s@.subrange(t2 as int, t4 as int));
        assert(t.subrange(t4 - tlo, t.len() as int) =~= s@.subrange(t4 as int, thi as int));
        assert(out@ =~= stamp_text(d, t));
    }
    out
}

/// Station id and start time of a night directory: for
/// `{station}_{YYYYMMDD}_{HHMMSS}_...` the first field and
/// `YYYY-MM-DD HH:MM:SS UTC`; for any other name, and for a stamped name
/// whose date or time would be cut inside a character, the name twice.
pub open spec fn night_dir_label(name: Seq<char>) -> (Seq<char>, Seq<char>) {
    let p = split_fields(name, '_');
    if night_is_stamped(name) && night_dir_cuttable(name) {
        (p[0], stamp_text(p[1], p[2]))
    } else {
        (name, name)
    }
}

/// Splits a night directory name into the station id and the formatted
/// start time, e.g. `AU000A_20250301_210000_UTC` into `AU000A` and
/// `2025-03-01 21:00:00 UTC`; other names come back as both.
pub fn parse_night_dir_name(name: &str) -> (r: (String, String))
    ensures
        (r.0@, r.1@) == night_dir_label(name@),
{
    let s = chars_of(name);
    let n = s.len();
    let ghost sv = s@;
    let ghost parts = split_fields(sv, '_');
    assert(sv.subrange(0, n as int) =~= sv);
    let fallback = (string_of(s.as_slice()), string_of(s.as_slice()));
    let i1 = match find_in(s.as_slice(), 0, n, '_') {
        Some(i) => i,
        None => {
            assert(parts.len() == 1);
            return fallback;
        },
    };
    let ghost r1 = sv.subrange(i1 + 1, n as int);
    proof {
        lemma_find_char_range(sv, '_');
        assert(parts == seq![sv.subrange(0, i1 as int)] + split_fields(r1, '_'));
    }
    let i2 = match find_in(s.as_slice(), i1 + 1, n, '_') {
        Some(i) => i,
        None => {
            assert(split_fields(r1, '_') == seq![r1]);
            assert(parts.len() == 2);
            return fallback;
        },
    };
    let ghost r2 = sv.subrange(i2 + 1, n as int);
    proof {
        lemma_find_char_range(r1, '_');
        assert(r1.subrange(i2 - i1, r1.len() as int) =~= r2);
        assert(r1.subrange(0, i2 - i1 - 1) =~= sv.subrange(i1 + 1, i2 as int));
        assert(split_fields(r1, '_') == seq![sv.subrange(i1 + 1, i2 as int)] + split_fields(
            r2,
            '_',
        ));
    }
    let i3 = match find_in(s.as_slice(), i2 + 1, n, '_') {
        Some(i) => i,
        None => {
            assert(split_fields(r2, '_') == seq![r2]);
            assert(parts.len() == 3);
            return fallback;
        },
    };
    let ghost r3 = sv.subrange(i3 + 1, n as int);
    proof {
        lemma_find_char_range(r2, '_');
        assert(r2.subrange(i3 - i2, r2.len() as int) =~= r3);
        assert(r2.subrange(0, i3 - i2 - 1) =~= sv.subrange(i2 + 1, i3 as int));
        assert(split_fields(r2, '_') == seq![sv.subrange(i2 + 1, i3 as int)] + split_fields(
            r3,
            '_',
        ));
        lemma_split_fields_len(r3, '_');
        assert(parts.len() >= 4);
        assert(parts[0] == sv.subrange(0, i1 as int));
        assert(parts[1] == sv.subrange(i1 + 1, i2 as int));
        assert(parts[2] == sv.subrange(i2 + 1, i3 as int));
    }
    if !utf8_len_is(s.as_slice(), i1 + 1, i2, 8) || !utf8_len_is(s.as_slice(), i2 + 1, i3, 6) {
        return fallback;
    }
    if byte_boundary_of(s.as_slice(), i1 + 1, i2, 4).is_none() || byte_boundary_of(
        s.as_slice(),
        i1 + 1,
        i2,
        6,
    ).is_none() || byte_boundary_of(s.as_slice(), i2 + 1, i3, 2).is_none() || byte_boundary_of(
        s.as_slice(),
        i2 + 1,
        i3,
        4,
    ).is_none() {
        return fallback;
    }
    let out = format_stamp(s.as_slice(), i1 + 1, i2, i2 + 1, i3);
    (string_of(&s[0..i1]), string_of(out.as_slice()))
}

// ---------------------------------------------------------------------------
// Ordering
// ---------------------------------------------------------------------------

/// Lexicographic order of texts by code point, which is the order of
/// `String`'s `Ord` (UTF-8 keeps code-point order).
pub open spec fn text_lt(a: Seq<char>, b: Seq<char>) -> bool
    decreases a.len(),
{
    if a.len() == 0 {
        b.len() > 0
    } else if b.len() == 0 {
        false
    } else if a[0] != b[0] {
        (a[0] as int) < (b[0] as int)
    } else {
        text_lt(a.drop_first(), b.drop_first())
    }
}

/// Whether `a` comes strictly before `b`.
pub fn text_less(a: &str, b: &str) -> (r: bool)
    ensures
        r == text_lt(a@, b@),
{
    let x = chars_of(a);
    let y = chars_of(b);
    let mut i: usize = 0;
    assert(x@.subrange(0, x@.len() as int) =~= x@);
    assert(y@.subrange(0, y@.len() as int) =~= y@);
    while i < x.len() && i < y.len() && x[i] == y[i]
        invariant
            x@ == a@,
            y@ == b@,
            i <= x@.len(),
            i <= y@.len(),
            text_lt(a@, b@) == text_lt(
                x@.subrange(i as int, x@.len() as int),
                y@.subrange(i as int, y@.len() as int),
            ),
        decreases x@.len() - i,
    {
        assert(x@.subrange(i as int, x@.len() as int).drop_first() =~= x@.subrange(
            i + 1,
            x@.len() as int,
        ));
        assert(y@.subrange(i as int, y@.len() as int).drop_first() =~= y@.subrange(
            i + 1,
            y@.len() as int,
        ));
        i = i + 1;
    }
    let ghost xs = x@.subrange(i as int, x@.len() as int);
    let ghost ys = y@.subrange(i as int, y@.len() as int);
    if i == x.len() {
        assert(xs.len() == 0);
        i < y.len()
    } else if i == y.len() {
        assert(ys.len() == 0);
        false
    } else {
        assert(xs[0] == x@[i as int] && ys[0] == y@[i as int]);
        x[i] < y[i]
    }
}

/// Inserts `x` into a list ordered by `lt`, after every element it does not
/// come before (so equal elements keep their arrival order).
pub open spec fn insert_sorted<T>(s: Seq<T>, x: T, lt: spec_fn(T, T) -> bool) -> Seq<T>
    decreases s.len(),
{
    if s.len() == 0 {
        seq![x]
    } else if lt(x, s.last()) {
        insert_sorted(s.drop_last(), x, lt).push(s.last())
    } else {
        s.push(x)
    }
}

/// Stable sort by `lt`: the elements inserted one after the other.
pub open spec fn stable_sort<T>(s: Seq<T>, lt: spec_fn(T, T) -> bool) -> Seq<T>
    decreases s.len(),
{
    if s.len() == 0 {
        s
    } else {
        insert_sorted(stable_sort(s.drop_last(), lt), s.last(), lt)
    }
}

/// Inserting at the position found by scanning back from the end.
proof fn lemma_insert_at<T>(s: Seq<T>, x: T, lt: spec_fn(T, T) -> bool, p: int)
    requires
        0 <= p <= s.len(),
        forall|k: int| p <= k < s.len() ==> lt(x, #[trigger] s[k]),
        p == 0 || !lt(x, s[p - 1]),
    ensures
        insert_sorted(s, x, lt) == s.take(p) + seq![x] + s.skip(p),
    decreases s.len(),
{
    if s.len() == 0 {
        assert(s.take(p) + seq![x] + s.skip(p) =~= seq![x]);
    } else if p == s.len() {
        assert(s.take(p) + seq![x] + s.skip(p) =~= s.push(x));
    } else {
        lemma_insert_at(s.drop_last(), x, lt, p);
        assert(s.drop_last().take(p) + seq![x] + s.drop_last().skip(p) + seq![s.last()] =~= s.take(
            p,
        ) + seq![x] + s.skip(p));
    }
}

/// Files shown for a night: those whose names start with `FF_` or `FS_`.
pub open spec fn capture_files(s: Seq<FileEntry>) -> Seq<FileEntry>
    decreases s.len(),
{
    if s.len() == 0 {
        s
    } else {
        let r = capture_files(s.drop_last());
        if starts_with(s.last().name@, seq!['F', 'F', '_']) || starts_with(
            s.last().name@,
            seq!['F', 'S', '_'],
        ) {
            r.push(s.last())
        } else {
            r
        }
    }
}

/// Order of files: by name.
pub open spec fn name_lt() -> spec_fn(FileEntry, FileEntry) -> bool {
    |a: FileEntry, b: FileEntry| text_lt(a.name@, b.name@)
}

/// Order of nights: most recent start first.
pub open spec fn later_start() -> spec_fn(NightSummary, NightSummary) -> bool {
    |a: NightSummary, b: NightSummary| text_lt(b.start_time@, a.start_time@)
}

/// The FF and FS files among a directory's entries, sorted by name.
pub fn select_capture_files(entries: Vec<FileEntry>) -> (files: Vec<FileEntry>)
    ensures
        files@ == stable_sort(capture_files(entries@), name_lt()),
        forall|i: int, j: int|
            0 <= i < j < files@.len() ==> !text_lt(#[trigger] files@[j].name@, #[trigger] files@[i].name@),
        files@.to_multiset() == capture_files(entries@).to_multiset(),
{
    broadcast use vstd::std_specs::vec::axiom_spec_into_iter;

    let ghost orig = entries@;
    let mut out: Vec<FileEntry> = Vec::new();
    for e in it: entries
        invariant
            it.seq() == orig,
            out@ == stable_sort(capture_files(orig.take(it.index() as int)), name_lt()),
    {
        let ghost i = it.index();
        assert(orig.take(i + 1).drop_last() =~= orig.take(i as int));
        assert(orig[i as int] == e);
        if e.is_ff() || e.is_fs() {
            let ghost prev = out@;
            let mut p = out.len();
            while p > 0 && text_less(e.name.as_str(), out[p - 1].name.as_str())
                invariant
                    p <= out@.len(),
                    out@ == prev,
                    forall|k: int| p <= k < out@.len() ==> text_lt(e.name@, #[trigger] out@[k].name@),
                decreases p,
            {
                p = p - 1;
            }
            proof {
                lemma_insert_at(prev, e, name_lt(), p as int);
            }
            out.insert(p, e);
            proof {
                assert(out@ =~= prev.take(p as int) + seq![e] + prev.skip(p as int));
                let r = capture_files(orig.take(i as int));
                assert(orig.take(i + 1).last() == e);
                assert(capture_files(orig.take(i + 1)) == r.push(e));
                assert(r.push(e).drop_last() =~= r);
                assert(stable_sort(r.push(e), name_lt()) == insert_sorted(
                    stable_sort(r, name_lt()),
                    e,
                    name_lt(),
                ));
            }
        } else {
            assert(orig.take(i + 1).last() == e);
            assert(capture_files(orig.take(i + 1)) == capture_files(orig.take(i as int)));
        }
    }
    assert(orig.take(orig.len() as int) =~= orig);
    proof {
        law_capture_files_sorted(orig);
    }
    out
}

/// Night summaries with the most recent start first (equal starts keep
/// their order).
pub fn sort_nights(nights: Vec<NightSummary>) -> (sorted: Vec<NightSummary>)
    ensures
        sorted@ == stable_sort(nights@, later_start()),
        forall|i: int, j: int|
            0 <= i < j < sorted@.len() ==> !text_lt(
                #[trigger] sorted@[i].start_time@,
                #[trigger] sorted@[j].start_time@,
            ),
        sorted@.to_multiset() == nights@.to_multiset(),
{
    broadcast use vstd::std_specs::vec::axiom_spec_into_iter;

    let ghost orig = nights@;
    let mut out: Vec<NightSummary> = Vec::new();
    for e in it: nights
        invariant
            it.seq() == orig,
            out@ == stable_sort(orig.take(it.index() as int), later_start()),
    {
        let ghost i = it.index();
        assert(orig.take(i + 1).drop_last() =~= orig.take(i as int));
        assert(orig[i as int] == e);
        let ghost prev = out@;
        let mut p = out.len();
        while p > 0 && text_less(out[p - 1].start_time.as_str(), e.start_time.as_str())
            invariant
                p <= out@.len(),
                out@ == prev,
                forall|k: int|
                    p <= k < out@.len() ==> text_lt(#[trigger] out@[k].start_time@, e.start_time@),
            decreases p,
        {
            p = p - 1;
        }
        proof {
            lemma_insert_at(prev, e, later_start(), p as int);
        }
        out.insert(p, e);
        proof {
            assert(out@ =~= prev.take(p as int) + seq![e] + prev.skip(p as int));
        }
    }
    assert(orig.take(orig.len() as int) =~= orig);
    proof {
        law_nights_most_recent_first(orig);
    }
    out
}


// ---------------------------------------------------------------------------
// Order laws
// ---------------------------------------------------------------------------

proof fn lemma_text_lt_irreflexive(a: Seq<char>)
    ensures
        !text_lt(a, a),
    decreases a.len(),
{
    if a.len() > 0 {
        lemma_text_lt_irreflexive(a.drop_first());
    }
}

proof fn lemma_text_lt_transitive(a: Seq<char>, b: Seq<char>, c: Seq<char>)
    requires
        text_lt(a, b),
        text_lt(b, c),
    ensures
        text_lt(a, c),
    decreases a.len(),
{
    if a.len() > 0 && b.len() > 0 && c.len() > 0 && a[0] == b[0] && b[0] == c[0] {
        lemma_text_lt_transitive(a.drop_first(), b.drop_first(), c.drop_first());
    }
}

proof fn lemma_text_lt_total(a: Seq<char>, b: Seq<char>)
    ensures
        a == b || text_lt(a, b) || text_lt(b, a),
    decreases a.len(),
{
    if a.len() > 0 && b.len() > 0 && a[0] == b[0] {
        lemma_text_lt_total(a.drop_first(), b.drop_first());
        if a.drop_first() == b.drop_first() {
            assert(a =~= seq![a[0]] + a.drop_first());
            assert(b =~= seq![b[0]] + b.drop_first());
        }
    } else if a.len() == 0 && b.len() == 0 {
        assert(a =~= b);
    }
}

/// `lt` is a strict weak order: irreflexive, transitive, and with
/// transitive incomparability (so "not after" is transitive too).
pub open spec fn strict_weak_order<T>(lt: spec_fn(T, T) -> bool) -> bool {
    &&& forall|a: T| !#[trigger] lt(a, a)
    &&& forall|a: T, b: T, c: T| #[trigger] lt(a, b) && #[trigger] lt(b, c) ==> lt(a, c)
    &&& forall|a: T, b: T, c: T| !#[trigger] lt(a, b) && !#[trigger] lt(b, c) ==> !lt(a, c)
}

/// Sorted by `lt`: no element comes before one listed ahead of it.
pub open spec fn sorted_by<T>(s: Seq<T>, lt: spec_fn(T, T) -> bool) -> bool {
    forall|i: int, j: int| 0 <= i < j < s.len() ==> !lt(#[trigger] s[j], #[trigger] s[i])
}

proof fn lemma_insert_sorted<T>(s: Seq<T>, x: T, lt: spec_fn(T, T) -> bool)
    requires
        strict_weak_order(lt),
        sorted_by(s, lt),
    ensures
        sorted_by(insert_sorted(s, x, lt), lt),
        insert_sorted(s, x, lt).to_multiset() == s.to_multiset().insert(x),
    decreases s.len(),
{
    broadcast use vstd::seq_lib::group_to_multiset_ensures;

    if s.len() == 0 {
        assert(seq![x] =~= Seq::<T>::empty().push(x));
    } else {
        let d = s.drop_last();
        let last = s.last();
        assert(s =~= d.push(last));
        assert(sorted_by(d, lt));
        if lt(x, last) {
            lemma_insert_sorted(d, x, lt);
            let r = insert_sorted(d, x, lt);
            assert forall|k: int| 0 <= k < r.len() implies !lt(last, #[trigger] r[k]) by {
                assert(r.to_multiset().count(r[k]) > 0);
                if r[k] != x {
                    assert(d.to_multiset().count(r[k]) > 0);
                    assert(d.contains(r[k]));
                    let j = choose|j: int| 0 <= j < d.len() && d[j] == r[k];
                    assert(s[j] == d[j]);
                    assert(!lt(s[s.len() - 1], s[j]));
                }
            }
            assert(sorted_by(r.push(last), lt));
        } else {
            assert forall|i: int, j: int| 0 <= i < j < s.len() + 1 implies !lt(
                #[trigger] s.push(x)[j],
                #[trigger] s.push(x)[i],
            ) by {
                if j == s.len() {
                    if i < s.len() - 1 {
                        assert(!lt(s[s.len() - 1], s[i]));
                    }
                } else {
                    assert(!lt(s[j], s[i]));
                }
            }
        }
    }
}

/// The stable sort is sorted and keeps every element.
pub proof fn lemma_stable_sort<T>(s: Seq<T>, lt: spec_fn(T, T) -> bool)
    requires
        strict_weak_order(lt),
    ensures
        sorted_by(stable_sort(s, lt), lt),
        stable_sort(s, lt).to_multiset() == s.to_multiset(),
    decreases s.len(),
{
    broadcast use vstd::seq_lib::group_to_multiset_ensures;

    if s.len() > 0 {
        lemma_stable_sort(s.drop_last(), lt);
        lemma_insert_sorted(stable_sort(s.drop_last(), lt), s.last(), lt);
        assert(s =~= s.drop_last().push(s.last()));
    }
}

proof fn lemma_name_order()
    ensures
        strict_weak_order(name_lt()),
        strict_weak_order(later_start()),
{
    assert forall|a: FileEntry| !#[trigger] name_lt()(a, a) by {
        lemma_text_lt_irreflexive(a.name@);
    }
    assert forall|a: FileEntry, b: FileEntry, c: FileEntry| #[trigger] name_lt()(a, b)
        && #[trigger] name_lt()(b, c) implies name_lt()(a, c) by {
        lemma_text_lt_transitive(a.name@, b.name@, c.name@);
    }
    assert forall|a: FileEntry, b: FileEntry, c: FileEntry| !#[trigger] name_lt()(a, b)
        && !#[trigger] name_lt()(b, c) implies !name_lt()(a, c) by {
        lemma_text_lt_total(a.name@, b.name@);
        lemma_text_lt_total(b.name@, c.name@);
        if name_lt()(a, c) {
            if text_lt(b.name@, a.name@) {
                lemma_text_lt_transitive(b.name@, a.name@, c.name@);
                if text_lt(c.name@, b.name@) {
                    lemma_text_lt_transitive(c.name@, b.name@, c.name@);
                    lemma_text_lt_irreflexive(c.name@);
                } else {
                    lemma_text_lt_irreflexive(c.name@);
                }
            } else {
                if text_lt(c.name@, b.name@) {
                    lemma_text_lt_transitive(c.name@, b.name@, c.name@);
                    lemma_text_lt_irreflexive(c.name@);
                } else {
                    lemma_text_lt_irreflexive(c.name@);
                }
            }
        }
    }
    assert forall|a: NightSummary| !#[trigger] later_start()(a, a) by {
        lemma_text_lt_irreflexive(a.start_time@);
    }
    assert forall|a: NightSummary, b: NightSummary, c: NightSummary| #[trigger] later_start()(a, b)
        && #[trigger] later_start()(b, c) implies later_start()(a, c) by {
        lemma_text_lt_transitive(c.start_time@, b.start_time@, a.start_time@);
    }
    assert forall|a: NightSummary, b: NightSummary, c: NightSummary| !#[trigger] later_start()(
        a,
        b,
    ) && !#[trigger] later_start()(b, c) implies !later_start()(a, c) by {
        lemma_text_lt_total(a.start_time@, b.start_time@);
        lemma_text_lt_total(b.start_time@, c.start_time@);
        if later_start()(a, c) {
            if text_lt(a.start_time@, b.start_time@) {
                lemma_text_lt_transitive(c.start_time@, a.start_time@, b.start_time@);
                if text_lt(b.start_time@, c.start_time@) {
                    lemma_text_lt_transitive(c.start_time@, b.start_time@, c.start_time@);
                }
                lemma_text_lt_irreflexive(c.start_time@);
            } else {
                if text_lt(b.start_time@, c.start_time@) {
                    lemma_text_lt_transitive(c.start_time@, b.start_time@, c.start_time@);
                }
                lemma_text_lt_irreflexive(c.start_time@);
            }
        }
    }
}

/// Files listed for a night come in name order, and they are exactly the
/// entries named `FF_...` or `FS_...`.
pub proof fn law_capture_files_sorted(entries: Seq<FileEntry>)
    ensures
        ({
            let r = stable_sort(capture_files(entries), name_lt());
            &&& forall|i: int, j: int|
                0 <= i < j < r.len() ==> !text_lt(#[trigger] r[j].name@, #[trigger] r[i].name@)
            &&& r.to_multiset() == capture_files(entries).to_multiset()
        }),
{
    lemma_name_order();
    lemma_stable_sort(capture_files(entries), name_lt());
    let r = stable_sort(capture_files(entries), name_lt());
    assert forall|i: int, j: int| 0 <= i < j < r.len() implies !text_lt(
        #[trigger] r[j].name@,
        #[trigger] r[i].name@,
    ) by {
        assert(!name_lt()(r[j], r[i]));
    }
}

/// Nights are listed most recent first, and none is lost or added.
pub proof fn law_nights_most_recent_first(nights: Seq<NightSummary>)
    ensures
        ({
            let r = stable_sort(nights, later_start());
            &&& forall|i: int, j: int|
                0 <= i < j < r.len() ==> !text_lt(
                    #[trigger] r[i].start_time@,
                    #[trigger] r[j].start_time@,
                )
            &&& r.to_multiset() == nights.to_multiset()
        }),
{
    lemma_name_order();
    lemma_stable_sort(nights, later_start());
    let r = stable_sort(nights, later_start());
    assert forall|i: int, j: int| 0 <= i < j < r.len() implies !text_lt(
        #[trigger] r[i].start_time@,
        #[trigger] r[j].start_time@,
    ) by {
        assert(!later_start()(r[j], r[i]));
    }
}


/// The calendar fields of `t` fit their digit counts (year 0..=9999, the
/// others below 100), as they do for every real time stamp.
pub open spec fn stamp_fields_fit(t: UtcTime) -> bool {
    &&& 0 <= t.year <= 9999
    &&& t.month < 100
    &&& t.day < 100
    &&& t.hour < 100
    &&& t.minute < 100
    &&& t.second < 100
}

proof fn lemma_concat_digits(a: Seq<char>, b: Seq<char>)
    requires
        all_digits(a),
        all_digits(b),
    ensures
        all_digits(a + b),
{
    assert forall|i: int| 0 <= i < (a + b).len() implies #[trigger] is_digit((a + b)[i]) by {
        if i < a.len() {
            assert((a + b)[i] == a[i]);
        } else {
            assert((a + b)[i] == b[i - a.len()]);
        }
    }
}

proof fn lemma_stamp_digits(t: UtcTime)
    requires
        stamp_fields_fit(t),
    ensures
        all_digits(date_digits(t)),
        all_digits(time_digits(t)),
        date_digits(t).len() == 8,
        time_digits(t).len() == 6,
        date_digits(t).subrange(0, 4) == dec_padded(t.year as nat, 4),
        date_digits(t).subrange(4, 6) == dec_padded(t.month as nat, 2),
        date_digits(t).subrange(6, 8) == dec_padded(t.day as nat, 2),
        time_digits(t).subrange(0, 2) == dec_padded(t.hour as nat, 2),
        time_digits(t).subrange(2, 4) == dec_padded(t.minute as nat, 2),
        time_digits(t).subrange(4, 6) == dec_padded(t.second as nat, 2),
{
    reveal_with_fuel(pow10, 5);
    let y = dec_padded(t.year as nat, 4);
    let mo = dec_padded(t.month as nat, 2);
    let d = dec_padded(t.day as nat, 2);
    let h = dec_padded(t.hour as nat, 2);
    let mi = dec_padded(t.minute as nat, 2);
    let se = dec_padded(t.second as nat, 2);
    lemma_dec_padded_len(t.year as nat, 4);
    lemma_dec_padded_len(t.month as nat, 2);
    lemma_dec_padded_len(t.day as nat, 2);
    lemma_dec_padded_len(t.hour as nat, 2);
    lemma_dec_padded_len(t.minute as nat, 2);
    lemma_dec_padded_len(t.second as nat, 2);
    lemma_dec_padded_reads_back(t.year as nat, 4);
    lemma_dec_padded_reads_back(t.month as nat, 2);
    lemma_dec_padded_reads_back(t.day as nat, 2);
    lemma_dec_padded_reads_back(t.hour as nat, 2);
    lemma_dec_padded_reads_back(t.minute as nat, 2);
    lemma_dec_padded_reads_back(t.second as nat, 2);
    assert(fmt_year(t.year as int) == y);
    assert(date_digits(t) == y + mo + d);
    lemma_concat_digits(y, mo);
    lemma_concat_digits(y + mo, d);
    lemma_concat_digits(h, mi);
    lemma_concat_digits(h + mi, se);
    assert((y + mo + d).subrange(0, 4) =~= y);
    assert((y + mo + d).subrange(4, 6) =~= mo);
    assert((y + mo + d).subrange(6, 8) =~= d);
    assert((h + mi + se).subrange(0, 2) =~= h);
    assert((h + mi + se).subrange(2, 4) =~= mi);
    assert((h + mi + se).subrange(4, 6) =~= se);
}

/// Reading back the name of a night directory the capture loop created
/// gives its station id and its start time written out: for a station id
/// without underscores, the label of `{station}_{YYYYMMDD}_{HHMMSS}_UTC` is
/// the station and `YYYY-MM-DD HH:MM:SS UTC`.
pub proof fn law_night_dir_name_reads_back(station: Seq<char>, t: UtcTime)
    requires
        forall|i: int| 0 <= i < station.len() ==> station[i] != '_',
        stamp_fields_fit(t),
    ensures
        night_dir_cuttable(night_dir_name_text(station, t)),
        night_dir_label(night_dir_name_text(station, t)) == (
            station,
            dec_padded(t.year as nat, 4) + seq!['-'] + dec_padded(t.month as nat, 2) + seq!['-']
                + dec_padded(t.day as nat, 2) + seq![' '] + dec_padded(t.hour as nat, 2) + seq![':']
                + dec_padded(t.minute as nat, 2) + seq![':'] + dec_padded(t.second as nat, 2) + seq![
                ' ',
                'U',
                'T',
                'C',
            ],
        ),
{
    lemma_stamp_digits(t);
    let d = date_digits(t);
    let tm = time_digits(t);
    let utc = seq!['U', 'T', 'C'];
    let name = night_dir_name_text(station, t);
    let r1 = d + seq!['_'] + tm + seq!['_'] + utc;
    let r2 = tm + seq!['_'] + utc;
    assert(name =~= station + (seq!['_'] + r1));
    assert forall|i: int| 0 <= i < d.len() implies d[i] != '_' by {
        assert(is_digit(d[i]));
    }
    assert forall|i: int| 0 <= i < tm.len() implies tm[i] != '_' by {
        assert(is_digit(tm[i]));
    }
    lemma_find_char_append(station, seq!['_'] + r1, '_');
    assert(find_char(seq!['_'] + r1, '_') == Some(0int));
    assert(name.subrange(0, station.len() as int) =~= station);
    assert(name.subrange(station.len() as int + 1, name.len() as int) =~= r1);
    assert(split_fields(name, '_') == seq![station] + split_fields(r1, '_'));
    assert(r1 =~= d + (seq!['_'] + r2));
    lemma_find_char_append(d, seq!['_'] + r2, '_');
    assert(find_char(seq!['_'] + r2, '_') == Some(0int));
    assert(r1.subrange(0, 8) =~= d);
    assert(r1.subrange(9, r1.len() as int) =~= r2);
    assert(split_fields(r1, '_') == seq![d] + split_fields(r2, '_'));
    assert(r2 =~= tm + (seq!['_'] + utc));
    lemma_find_char_append(tm, seq!['_'] + utc, '_');
    assert(find_char(seq!['_'] + utc, '_') == Some(0int));
    assert(r2.subrange(0, 6) =~= tm);
    assert(r2.subrange(7, r2.len() as int) =~= utc);
    assert(split_fields(r2, '_') == seq![tm] + split_fields(utc, '_'));
    assert(find_char(utc, '_') is None) by {
        lemma_find_char_range(utc, '_');
    }
    let parts = split_fields(name, '_');
    assert(parts =~= seq![station, d, tm, utc]);
    lemma_digits_bytes(d);
    lemma_digits_bytes(tm);
    assert(byte_boundary(d, 4) == Some(4int));
    assert(byte_boundary(d, 6) == Some(6int));
    assert(byte_boundary(tm, 2) == Some(2int));
    assert(byte_boundary(tm, 4) == Some(4int));
    assert(d.subrange(6, d.len() as int) == d.subrange(6, 8));
    assert(tm.subrange(4, tm.len() as int) == tm.subrange(4, 6));
}

/// The files the capture loop writes are the ones the server lists and
/// serves: the FF file is named `FF_...` and served as binary, its
/// field-sum companion is named `FS_...` and served as text.
pub proof fn law_written_files_served(station: Seq<char>, t: UtcTime)
    ensures
        starts_with(ff_filename(station, t), seq!['F', 'F', '_']),
        content_type_of(ff_filename(station, t)) == "application/octet-stream"@,
        starts_with(fs_filename(station, t), seq!['F', 'S', '_']),
        content_type_of(fs_filename(station, t)) == "text/plain"@,
{
    let ff = ff_filename(station, t);
    let fs = fs_filename(station, t);
    assert(ff.subrange(0, 3) =~= seq!['F', 'F', '_']);
    assert(ff.subrange(ff.len() - 4, ff.len() as int) =~= seq!['.', 'b', 'i', 'n']);
    assert(fs.subrange(0, 3) =~= seq!['F', 'S', '_']);
    assert(fs.subrange(fs.len() - 4, fs.len() as int)[1] == 't');
}

/// Counting a night directory entry by entry: each entry adds its size to
/// the total, and one to the FF count when its name begins `FF_`, else one
/// to the FS count when it begins `FS_`.
pub proof fn law_night_counts_step(entries: Seq<FileEntry>, k: nat)
    requires
        k < entries.len(),
    ensures
        ({
            let e = entries[k as int];
            let n = e.name@;
            let ff = n.len() >= 3 && n[0] == 'F' && n[1] == 'F' && n[2] == '_';
            let fs = n.len() >= 3 && n[0] == 'F' && n[1] == 'S' && n[2] == '_';
            let before = night_counts(entries, k);
            let after = night_counts(entries, k + 1);
            &&& after.0 == before.0 + if ff { 1int } else { 0 }
            &&& after.1 == before.1 + if fs { 1int } else { 0 }
            &&& after.2 == before.2 + e.size
        }),
        night_counts(entries, 0) == (0int, 0int, 0int),
{
    let n = entries[k as int].name@;
    if n.len() >= 3 {
        assert(starts_with(n, seq!['F', 'F', '_']) <==> (n[0] == 'F' && n[1] == 'F' && n[2] == '_'))
            by {
            if n[0] == 'F' && n[1] == 'F' && n[2] == '_' {
                assert(n.subrange(0, 3) =~= seq!['F', 'F', '_']);
            }
            if starts_with(n, seq!['F', 'F', '_']) {
                assert(n.subrange(0, 3)[0] == n[0] && n.subrange(0, 3)[1] == n[1] && n.subrange(
                    0,
                    3,
                )[2] == n[2]);
            }
        }
        assert(starts_with(n, seq!['F', 'S', '_']) <==> (n[0] == 'F' && n[1] == 'S' && n[2] == '_'))
            by {
            if n[0] == 'F' && n[1] == 'S' && n[2] == '_' {
                assert(n.subrange(0, 3) =~= seq!['F', 'S', '_']);
            }
            if starts_with(n, seq!['F', 'S', '_']) {
                assert(n.subrange(0, 3)[0] == n[0] && n.subrange(0, 3)[1] == n[1] && n.subrange(
                    0,
                    3,
                )[2] == n[2]);
            }
        }
    }
}

} // verus!
