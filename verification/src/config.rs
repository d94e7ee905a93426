//! Configuration: `KEY=VALUE` files (the RMS `.config` keys that capture
//! needs plus Gaia additions) and the settings derived from them.
//!
//! Lines starting with `#` or `;` are comments, values may be double-quoted,
//! unknown keys are ignored, a later line overrides an earlier one, and a
//! non-empty environment value overrides the file.

use vstd::prelude::*;

use crate::text::{chars_of, find_char, join_path, parse_i32_range, parse_i32_spec, parse_u32_range, parse_u32_spec, path_join, string_of};

verus! {

// ---------------------------------------------------------------------------
// Whitespace and trimming
// ---------------------------------------------------------------------------

/// `char::is_whitespace`: the Unicode `White_Space` characters.
pub open spec fn is_ws(c: char) -> bool {
    c == ' ' || ('\t' <= c && c <= '\r') || c == '\u{85}' || c == '\u{A0}' || c == '\u{1680}' || (
    '\u{2000}' <= c && c <= '\u{200A}') || c == '\u{2028}' || c == '\u{2029}' || c == '\u{202F}'
        || c == '\u{205F}' || c == '\u{3000}'
}

/// The character class trimmed: whitespace, or the double quote.
pub open spec fn trimmed_char(quote: bool, c: char) -> bool {
    if quote {
        c == '"'
    } else {
        is_ws(c)
    }
}

/// `s` without its leading characters of the class.
pub open spec fn trim_start(s: Seq<char>, quote: bool) -> Seq<char>
    decreases s.len(),
{
    if s.len() > 0 && trimmed_char(quote, s[0]) {
        trim_start(s.drop_first(), quote)
    } else {
        s
    }
}

/// `s` without its trailing characters of the class.
pub open spec fn trim_end(s: Seq<char>, quote: bool) -> Seq<char>
    decreases s.len(),
{
    if s.len() > 0 && trimmed_char(quote, s.last()) {
        trim_end(s.drop_last(), quote)
    } else {
        s
    }
}

/// `str::trim` (whitespace) or `str::trim_matches('"')` (quotes).
pub open spec fn trim(s: Seq<char>, quote: bool) -> Seq<char> {
    trim_end(trim_start(s, quote), quote)
}

fn is_trimmed_char(quote: bool, c: char) -> (b: bool)
    ensures
        b == trimmed_char(quote, c),
{
    if quote {
        c == '"'
    } else {
        c == ' ' || ('\t' <= c && c <= '\r') || c == '\u{85}' || c == '\u{A0}' || c == '\u{1680}'
            || ('\u{2000}' <= c && c <= '\u{200A}') || c == '\u{2028}' || c == '\u{2029}' || c
            == '\u{202F}' || c == '\u{205F}' || c == '\u{3000}'
    }
}

/// Bounds of `trim(s[lo..hi])` inside `s`.
fn trim_range(s: &[char], lo: usize, hi: usize, quote: bool) -> (r: (usize, usize))
    requires
        lo <= hi <= s@.len(),
    ensures
        lo <= r.0 <= r.1 <= hi,
        s@.subrange(r.0 as int, r.1 as int) == trim(s@.subrange(lo as int, hi as int), quote),
{
    let mut a = lo;
    while a < hi && is_trimmed_char(quote, s[a])
        invariant
            lo <= a <= hi <= s@.len(),
            trim_start(s@.subrange(lo as int, hi as int), quote) == trim_start(
                s@.subrange(a as int, hi as int),
                quote,
            ),
        decreases hi - a,
    {
        assert(s@.subrange(a as int, hi as int).drop_first() =~= s@.subrange(a + 1, hi as int));
        a = a + 1;
    }
    assert(trim_start(s@.subrange(a as int, hi as int), quote) == s@.subrange(a as int, hi as int));
    let mut b = hi;
    while b > a && is_trimmed_char(quote, s[b - 1])
        invariant
            lo <= a <= b <= hi <= s@.len(),
            trim(s@.subrange(lo as int, hi as int), quote) == trim_end(
                s@.subrange(a as int, b as int),
                quote,
            ),
        decreases b - a,
    {
        assert(s@.subrange(a as int, b as int).drop_last() =~= s@.subrange(a as int, b - 1));
        b = b - 1;
    }
    (a, b)
}

// ---------------------------------------------------------------------------
// Lines
// ---------------------------------------------------------------------------

/// `s` cut at every `'\n'` (an empty text gives one empty piece).  The
/// `'\r'` that `str::lines` removes before a newline is whitespace, which
/// the trimming of each line removes too.
pub open spec fn split_lines(s: Seq<char>) -> Seq<Seq<char>>
    decreases s.len(),
{
    if s.len() == 0 {
        seq![Seq::empty()]
    } else if s.last() == '\n' {
        split_lines(s.drop_last()).push(Seq::empty())
    } else {
        let p = split_lines(s.drop_last());
        p.update(p.len() - 1, p.last().push(s.last()))
    }
}

proof fn lemma_split_lines_nonempty(s: Seq<char>)
    ensures
        split_lines(s).len() >= 1,
    decreases s.len(),
{
    if s.len() > 0 {
        lemma_split_lines_nonempty(s.drop_last());
    }
}

/// The `(key, value)` a configuration line sets, if any: blank lines and
/// lines starting with `#` or `;` set nothing; otherwise the trimmed line is
/// split at its first `=`, the key trimmed, the value trimmed and stripped of
/// double quotes.  A line without `=` sets nothing.
pub open spec fn conf_entry(line: Seq<char>) -> Option<(Seq<char>, Seq<char>)> {
    let t = trim(line, false);
    if t.len() == 0 || t[0] == '#' || t[0] == ';' {
        None
    } else {
        match find_char(t, '=') {
            Some(i) => Some(
                (
                    trim(t.subrange(0, i), false),
                    trim(trim(t.subrange(i + 1, t.len() as int), false), true),
                ),
            ),
            None => None,
        }
    }
}

/// Applies one line to the settings read so far.
pub open spec fn apply_conf_line(m: Map<Seq<char>, Seq<char>>, line: Seq<char>) -> Map<
    Seq<char>,
    Seq<char>,
> {
    match conf_entry(line) {
        Some(e) => m.insert(e.0, e.1),
        None => m,
    }
}

/// Settings set by the first `k` pieces.
pub open spec fn apply_conf_lines(lines: Seq<Seq<char>>, k: nat) -> Map<Seq<char>, Seq<char>>
    decreases k,
{
    if k == 0 {
        Map::empty()
    } else {
        apply_conf_line(apply_conf_lines(lines, (k - 1) as nat), lines[k - 1])
    }
}

/// The settings of a configuration text.
pub open spec fn conf_map(text: Seq<char>) -> Map<Seq<char>, Seq<char>> {
    let lines = split_lines(text);
    apply_conf_lines(lines, lines.len())
}

proof fn lemma_apply_prefix(a: Seq<Seq<char>>, b: Seq<Seq<char>>, k: nat)
    requires
        k <= a.len(),
        k <= b.len(),
        forall|i: int| 0 <= i < k ==> a[i] == b[i],
    ensures
        apply_conf_lines(a, k) == apply_conf_lines(b, k),
    decreases k,
{
    if k > 0 {
        lemma_apply_prefix(a, b, (k - 1) as nat);
    }
}

// ---------------------------------------------------------------------------
// The settings map
// ---------------------------------------------------------------------------

/// Settings read from a configuration file: each key at most once, the
/// value of its last occurrence.
pub struct ConfMap {
    entries: Vec<(String, String)>,
}

/// The map of a list of entries, later entries overriding earlier ones.
pub open spec fn entries_map(e: Seq<(String, String)>) -> Map<Seq<char>, Seq<char>>
    decreases e.len(),
{
    if e.len() == 0 {
        Map::empty()
    } else {
        entries_map(e.drop_last()).insert(e.last().0@, e.last().1@)
    }
}

/// No key occurs twice.
pub open spec fn distinct_keys(e: Seq<(String, String)>) -> bool {
    forall|i: int, j: int| 0 <= i < j < e.len() ==> #[trigger] e[i].0@ != #[trigger] e[j].0@
}

proof fn lemma_entries_map(e: Seq<(String, String)>)
    requires
        distinct_keys(e),
    ensures
        forall|k: Seq<char>| #[trigger]
            entries_map(e).dom().contains(k) <==> exists|i: int| 0 <= i < e.len() && e[i].0@ == k,
        forall|i: int|
            0 <= i < e.len() ==> #[trigger] entries_map(e)[e[i].0@] == e[i].1@,
    decreases e.len(),
{
    if e.len() > 0 {
        let d = e.drop_last();
        let last = e[e.len() - 1];
        assert(distinct_keys(d));
        lemma_entries_map(d);
        assert(entries_map(e) == entries_map(d).insert(last.0@, last.1@));
        assert forall|k: Seq<char>| #[trigger]
            entries_map(e).dom().contains(k) <==> exists|i: int| 0 <= i < e.len() && e[i].0@ == k by {
            if entries_map(e).dom().contains(k) && k != last.0@ {
                assert(entries_map(d).dom().contains(k));
                let i = choose|i: int| 0 <= i < d.len() && d[i].0@ == k;
                assert(e[i] == d[i]);
            }
            if exists|i: int| 0 <= i < e.len() && e[i].0@ == k {
                let i = choose|i: int| 0 <= i < e.len() && e[i].0@ == k;
                if i < e.len() - 1 {
                    assert(d[i] == e[i]);
                    assert(entries_map(d).dom().contains(k));
                }
            }
        }
        assert forall|i: int| 0 <= i < e.len() implies #[trigger] entries_map(e)[e[i].0@]
            == e[i].1@ by {
            if i < e.len() - 1 {
                assert(d[i] == e[i]);
                assert(e[i].0@ != last.0@);
                assert(entries_map(d)[d[i].0@] == d[i].1@);
            }
        }
    }
}

proof fn lemma_entries_map_len(e: Seq<(String, String)>)
    requires
        distinct_keys(e),
    ensures
        entries_map(e).dom().finite(),
        entries_map(e).len() == e.len(),
    decreases e.len(),
{
    if e.len() > 0 {
        let d = e.drop_last();
        let last = e[e.len() - 1];
        assert(distinct_keys(d));
        lemma_entries_map_len(d);
        lemma_entries_map(d);
        assert(!entries_map(d).dom().contains(last.0@)) by {
            if entries_map(d).dom().contains(last.0@) {
                let i = choose|i: int| 0 <= i < d.len() && d[i].0@ == last.0@;
                assert(e[i] == d[i]);
            }
        }
        assert(entries_map(e).dom() == entries_map(d).dom().insert(last.0@));
    }
}

impl ConfMap {
    /// The settings as a map from key to value.
    pub closed spec fn view(&self) -> Map<Seq<char>, Seq<char>> {
        entries_map(self.entries@)
    }

    /// The well-formedness of the map: no key stored twice.
    pub closed spec fn wf(&self) -> bool {
        distinct_keys(self.entries@)
    }

    /// Number of settings (distinct keys).
    pub fn len(&self) -> (n: usize)
        requires
            self.wf(),
        ensures
            n == self.view().len(),
    {
        proof {
            lemma_entries_map_len(self.entries@);
        }
        self.entries.len()
    }

    /// An empty map.
    pub fn new() -> (m: ConfMap)
        ensures
            m.wf(),
            m.view() == Map::<Seq<char>, Seq<char>>::empty(),
    {
        ConfMap { entries: Vec::new() }
    }

    /// Sets `key` to `value`, replacing an earlier value.
    pub fn insert(&mut self, key: String, value: String)
        requires
            old(self).wf(),
        ensures
            final(self).wf(),
            final(self).view() == old(self).view().insert(key@, value@),
    {
        let ghost e0 = self.entries@;
        proof {
            lemma_entries_map(e0);
        }
        let mut i: usize = 0;
        while i < self.entries.len()
            invariant
                self.entries@ == e0,
                old(self).entries@ == e0,
                distinct_keys(e0),
                i <= e0.len(),
                forall|j: int| 0 <= j < i ==> #[trigger] e0[j].0@ != key@,
            decreases e0.len() - i,
        {
            if self.entries[i].0 == key {
                let ghost kv = key@;
                let ghost vv = value@;
                assert(e0[i as int].0@ == kv);
                self.entries.set(i, (key, value));
                proof {
                    lemma_entries_map(e0);
                    let e1 = self.entries@;
                    assert(e1[i as int].0@ == kv && e1[i as int].1@ == vv);
                    assert(distinct_keys(e1)) by {
                        assert forall|a: int, b: int| 0 <= a < b < e1.len() implies #[trigger] e1[a].0@
                            != #[trigger] e1[b].0@ by {
                            if a != i && b != i {
                                assert(e1[a] == e0[a] && e1[b] == e0[b]);
                            } else if a == i {
                                assert(e1[b] == e0[b]);
                            } else {
                                assert(e1[a] == e0[a]);
                            }
                        }
                    }
                    lemma_entries_map(e1);
                    assert(entries_map(e1) =~= entries_map(e0).insert(kv, vv)) by {
                        assert forall|k: Seq<char>| #[trigger]
                            entries_map(e1).dom().contains(k) == entries_map(e0).insert(
                                kv,
                                vv,
                            ).dom().contains(k) by {
                            if exists|j: int| 0 <= j < e0.len() && e0[j].0@ == k {
                                let j = choose|j: int| 0 <= j < e0.len() && e0[j].0@ == k;
                                if j != i {
                                    assert(e1[j] == e0[j]);
                                }
                            }
                            if exists|j: int| 0 <= j < e1.len() && e1[j].0@ == k {
                                let j = choose|j: int| 0 <= j < e1.len() && e1[j].0@ == k;
                                if j != i {
                                    assert(e1[j] == e0[j]);
                                }
                            }
                        }
                        assert forall|k: Seq<char>|
                            entries_map(e1).dom().contains(k) implies #[trigger] entries_map(e1)[k]
                            == entries_map(e0).insert(kv, vv)[k] by {
                            let j = choose|j: int| 0 <= j < e1.len() && e1[j].0@ == k;
                            if j != i {
                                assert(e1[j] == e0[j]);
                                assert(entries_map(e1)[e1[j].0@] == e1[j].1@);
                                assert(entries_map(e0)[e0[j].0@] == e0[j].1@);
                            } else {
                                assert(entries_map(e1)[e1[i as int].0@] == e1[i as int].1@);
                            }
                        }
                    }
                }
                return ;
            }
            i = i + 1;
        }
        self.entries.push((key, value));
        proof {
            let e1 = self.entries@;
            assert(e1.drop_last() =~= e0);
            assert(distinct_keys(e1)) by {
                assert forall|a: int, b: int| 0 <= a < b < e1.len() implies #[trigger] e1[a].0@
                    != #[trigger] e1[b].0@ by {
                    if b < e0.len() {
                        assert(e1[a] == e0[a] && e1[b] == e0[b]);
                    } else {
                        assert(e1[a] == e0[a]);
                    }
                }
            }
        }
    }

    /// The value set for `key`, if any.
    pub fn get(&self, key: &str) -> (v: Option<&String>)
        requires
            self.wf(),
        ensures
            v is Some <==> self.view().contains_key(key@),
            v matches Some(s) ==> s@ == self.view()[key@],
    {
        broadcast use vstd::string::group_string_axioms;

        let k: String = key.to_string();
        proof {
            lemma_entries_map(self.entries@);
        }
        let mut i: usize = 0;
        while i < self.entries.len()
            invariant
                i <= self.entries@.len(),
                self.wf(),
                k@ == key@,
                forall|j: int| 0 <= j < i ==> #[trigger] self.entries@[j].0@ != key@,
            decreases self.entries@.len() - i,
        {
            if self.entries[i].0 == k {
                proof {
                    lemma_entries_map(self.entries@);
                    assert(self.entries@[i as int].0@ == key@);
                    assert(entries_map(self.entries@)[self.entries@[i as int].0@]
                        == self.entries@[i as int].1@);
                }
                return Some(&self.entries[i].1);
            }
            i = i + 1;
        }
        proof {
            lemma_entries_map(self.entries@);
        }
        None
    }
}

/// Parses a `KEY=VALUE` configuration text.
pub fn parse_conf(text: &str) -> (map: ConfMap)
    ensures
        map.wf(),
        map.view() == conf_map(text@),
{
    let s = chars_of(text);
    let mut map = ConfMap::new();
    let mut line_start: usize = 0;
    let mut i: usize = 0;
    proof {
        assert(s@.subrange(0, 0) =~= Seq::<char>::empty());
    }
    while i < s.len()
        invariant
            s@ == text@,
            line_start <= i <= s@.len(),
            map.wf(),
            ({
                let p = split_lines(s@.subrange(0, i as int));
                &&& p.len() >= 1
                &&& p.last() == s@.subrange(line_start as int, i as int)
                &&& map.view() == apply_conf_lines(p, (p.len() - 1) as nat)
            }),
        decreases s@.len() - i,
    {
        let ghost p = split_lines(s@.subrange(0, i as int));
        assert(s@.subrange(0, i + 1).drop_last() =~= s@.subrange(0, i as int));
        if s[i] == '\n' {
            apply_line(&mut map, s.as_slice(), line_start, i);
            proof {
                let q = split_lines(s@.subrange(0, i + 1));
                assert(q == p.push(Seq::empty()));
                lemma_apply_prefix(q, p, p.len());
                assert(s@.subrange(i + 1, i + 1) =~= Seq::<char>::empty());
            }
            line_start = i + 1;
        } else {
            proof {
                let q = split_lines(s@.subrange(0, i + 1));
                assert(q == p.update(p.len() - 1, p.last().push(s@[i as int])));
                lemma_apply_prefix(q, p, (p.len() - 1) as nat);
                assert(q.last() =~= s@.subrange(line_start as int, i + 1));
            }
        }
        i = i + 1;
    }
    apply_line(&mut map, s.as_slice(), line_start, i);
    proof {
        assert(s@.subrange(0, s@.len() as int) =~= s@);
    }
    map
}

/// Applies the line `s[lo..hi]` to the map.
fn apply_line(map: &mut ConfMap, s: &[char], lo: usize, hi: usize)
    requires
        old(map).wf(),
        lo <= hi <= s@.len(),
    ensures
        final(map).wf(),
        final(map).view() == apply_conf_line(old(map).view(), s@.subrange(lo as int, hi as int)),
{
    let ghost line = s@.subrange(lo as int, hi as int);
    let (a, b) = trim_range(s, lo, hi, false);
    let ghost t = s@.subrange(a as int, b as int);
    if a == b || s[a] == '#' || s[a] == ';' {
        return ;
    }
    let mut eq = a;
    while eq < b && s[eq] != '='
        invariant
            a <= eq <= b <= s@.len(),
            t == s@.subrange(a as int, b as int),
            find_char(t, '=') == (match find_char(s@.subrange(eq as int, b as int), '=') {
                Some(j) => Some(j + (eq - a)),
                None => None::<int>,
            }),
        decreases b - eq,
    {
        assert(s@.subrange(eq as int, b as int).drop_first() =~= s@.subrange(eq + 1, b as int));
        eq = eq + 1;
    }
    if eq == b {
        assert(s@.subrange(eq as int, b as int) =~= Seq::<char>::empty());
        return ;
    }
    assert(find_char(t, '=') == Some((eq - a) as int));
    let (ka, kb) = trim_range(s, a, eq, false);
    let (va, vb) = trim_range(s, eq + 1, b, false);
    let (qa, qb) = trim_range(s, va, vb, true);
    proof {
        assert(t.subrange(0, eq - a) =~= s@.subrange(a as int, eq as int));
        assert(t.subrange(eq - a + 1, t.len() as int) =~= s@.subrange(eq + 1, b as int));
    }
    let key = string_of(&s[ka..kb]);
    let value = string_of(&s[qa..qb]);
    map.insert(key, value);
}


// ---------------------------------------------------------------------------
// Settings
// ---------------------------------------------------------------------------

/// The value of a setting: a non-empty environment value wins over the
/// file's value.
pub open spec fn resolved(
    env: Map<Seq<char>, Seq<char>>,
    file: Map<Seq<char>, Seq<char>>,
    key: Seq<char>,
) -> Option<Seq<char>> {
    if env.contains_key(key) && env[key].len() > 0 {
        Some(env[key])
    } else if file.contains_key(key) {
        Some(file[key])
    } else {
        None
    }
}

/// A numeric setting: its value parsed as a `u32`, or the default when it is
/// missing or does not parse.
pub open spec fn setting_u32(v: Option<Seq<char>>, default: u32) -> u32 {
    match v {
        Some(s) => match parse_u32_spec(s) {
            Some(x) => x,
            None => default,
        },
        None => default,
    }
}

/// A signed setting: its value parsed as an `i32`, or the default.
pub open spec fn setting_i32(v: Option<Seq<char>>, default: i32) -> i32 {
    match v {
        Some(s) => match parse_i32_spec(s) {
            Some(x) => x,
            None => default,
        },
        None => default,
    }
}

/// A text setting: its value, or the default.
pub open spec fn setting_text(v: Option<Seq<char>>, default: Seq<char>) -> Seq<char> {
    match v {
        Some(s) => s,
        None => default,
    }
}

/// Looks a setting up: the environment's non-empty value, else the file's.
pub fn resolve_setting(env: &ConfMap, file: &ConfMap, key: &str) -> (v: Option<String>)
    requires
        env.wf(),
        file.wf(),
    ensures
        v matches Some(s) ==> resolved(env.view(), file.view(), key@) == Some(s@),
        v is None ==> resolved(env.view(), file.view(), key@) is None,
{
    match env.get(key) {
        Some(s) => {
            if !s.as_str().is_empty() {
                return Some(s.clone());
            }
        },
        None => {},
    }
    match file.get(key) {
        Some(s) => Some(s.clone()),
        None => None,
    }
}

fn parsed_u32_or(v: Option<String>, default: u32) -> (x: u32)
    ensures
        x == setting_u32(
            match v {
                Some(s) => Some(s@),
                None => None,
            },
            default,
        ),
{
    match v {
        Some(s) => {
            let c = chars_of(s.as_str());
            assert(c@.subrange(0, c@.len() as int) =~= c@);
            match parse_u32_range(c.as_slice(), 0, c.len()) {
                Some(x) => x,
                None => default,
            }
        },
        None => default,
    }
}

fn parsed_i32_or(v: Option<String>, default: i32) -> (x: i32)
    ensures
        x == setting_i32(
            match v {
                Some(s) => Some(s@),
                None => None,
            },
            default,
        ),
{
    match v {
        Some(s) => {
            let c = chars_of(s.as_str());
            assert(c@.subrange(0, c@.len() as int) =~= c@);
            match parse_i32_range(c.as_slice(), 0, c.len()) {
                Some(x) => x,
                None => default,
            }
        },
        None => default,
    }
}

fn text_or(v: Option<String>, default: &str) -> (x: String)
    ensures
        x@ == setting_text(
            match v {
                Some(s) => Some(s@),
                None => None,
            },
            default@,
        ),
{
    broadcast use vstd::string::group_string_axioms;

    match v {
        Some(s) => s,
        None => default.to_string(),
    }
}

/// The capture configuration's integer and text settings.  (Frame rate
/// and site coordinates are floating point and are kept by the program.)
#[derive(Clone, Debug)]
pub struct Config {
    /// Station code (e.g. "US0001"), used in FF file names.
    pub station_id: String,
    /// V4L2 device path or RTSP URL.
    pub video_device: String,
    pub width: u32,
    pub height: u32,
    /// Number of frames compressed into one FF file.
    pub ff_nframes: u32,
    /// -1 progressive, 0 even-first, 1 odd-first.
    pub deinterlace_order: i32,
    /// Root data directory.
    pub data_dir: String,
    /// Address the HTTP server listens on.
    pub listen_addr: String,
}

/// The settings of a configuration file under an environment.
pub open spec fn config_matches(
    c: Config,
    env: Map<Seq<char>, Seq<char>>,
    file: Map<Seq<char>, Seq<char>>,
) -> bool {
    let get = |k: Seq<char>| resolved(env, file, k);
    &&& c.station_id@ == setting_text(get("STATION_ID"@), "XX0001"@)
    &&& c.video_device@ == setting_text(get("VIDEO_DEVICE"@), "/dev/video0"@)
    &&& c.width == setting_u32(get("WIDTH"@), 1280u32)
    &&& c.height == setting_u32(get("HEIGHT"@), 720u32)
    &&& c.ff_nframes == setting_u32(get("FF_NFRAMES"@), 256u32)
    &&& c.deinterlace_order == setting_i32(get("DEINTERLACE_ORDER"@), -1i32)
    &&& c.data_dir@ == setting_text(get("DATA_DIR"@), "/data"@)
    &&& c.listen_addr@ == setting_text(get("CAPTURE_LISTEN_ADDR"@), "0.0.0.0:8090"@)
}

impl Config {
    /// Default location of the configuration file.
    pub fn default_path() -> (p: &'static str)
        ensures
            p@ == "/etc/gaia/gmn.conf"@,
    {
        "/etc/gaia/gmn.conf"
    }

    /// The settings from a parsed file, with environment values (already
    /// read into a map) overriding them, and defaults for what is missing
    /// or unparsable.
    pub fn from_settings(file: &ConfMap, env: &ConfMap) -> (c: Config)
        requires
            env.wf(),
            file.wf(),
        ensures
            config_matches(c, env.view(), file.view()),
    {
        let station_id = text_or(resolve_setting(env, file, "STATION_ID"), "XX0001");
        let video_device = text_or(resolve_setting(env, file, "VIDEO_DEVICE"), "/dev/video0");
        let width = parsed_u32_or(resolve_setting(env, file, "WIDTH"), 1280);
        let height = parsed_u32_or(resolve_setting(env, file, "HEIGHT"), 720);
        let ff_nframes = parsed_u32_or(resolve_setting(env, file, "FF_NFRAMES"), 256);
        let deinterlace_order = parsed_i32_or(resolve_setting(env, file, "DEINTERLACE_ORDER"), -1);
        let data_dir = text_or(resolve_setting(env, file, "DATA_DIR"), "/data");
        let listen_addr = text_or(resolve_setting(env, file, "CAPTURE_LISTEN_ADDR"), "0.0.0.0:8090");
        Config {
            station_id,
            video_device,
            width,
            height,
            ff_nframes,
            deinterlace_order,
            data_dir,
            listen_addr,
        }
    }

    /// The `CapturedFiles` subdirectory where FF files are written.
    pub fn captured_dir(&self) -> (p: String)
        ensures
            p@ == path_join(self.data_dir@, "CapturedFiles"@),
    {
        join_path(self.data_dir.as_str(), "CapturedFiles")
    }

    /// Path of the live preview JPEG.
    pub fn live_jpg_path(&self) -> (p: String)
        ensures
            p@ == path_join(self.data_dir@, "live.jpg"@),
    {
        join_path(self.data_dir.as_str(), "live.jpg")
    }
}


// ---------------------------------------------------------------------------
// Laws
// ---------------------------------------------------------------------------

/// Blank lines and lines starting with `#` or `;` set nothing.
pub proof fn law_comments_ignored(m: Map<Seq<char>, Seq<char>>, line: Seq<char>)
    requires
        ({
            let t = trim(line, false);
            t.len() == 0 || t[0] == '#' || t[0] == ';'
        }),
    ensures
        apply_conf_line(m, line) == m,
{
}

proof fn lemma_split_append_line(text: Seq<char>, line: Seq<char>)
    requires
        forall|i: int| 0 <= i < line.len() ==> line[i] != '\n',
    ensures
        split_lines(text + seq!['\n'] + line) == split_lines(text).push(line),
    decreases line.len(),
{
    if line.len() == 0 {
        assert(text + seq!['\n'] + line =~= text.push('\n'));
        assert((text.push('\n')).drop_last() =~= text);
        assert(line =~= Seq::<char>::empty());
        assert(split_lines(text.push('\n')) == split_lines(text).push(Seq::empty()));
    } else {
        let l = line.drop_last();
        lemma_split_append_line(text, l);
        let full = text + seq!['\n'] + line;
        assert(full.drop_last() =~= text + seq!['\n'] + l);
        assert(full.last() == line.last());
        let p = split_lines(text + seq!['\n'] + l);
        assert(p.last() == l);
        assert(l.push(line.last()) =~= line);
        assert(line[line.len() - 1] != '\n');
        assert(full.last() != '\n');
        assert(split_lines(full) == p.update(p.len() - 1, p.last().push(full.last())));
        assert(p.update(p.len() - 1, p.last().push(full.last())) =~= split_lines(text).push(line));
    }
}

/// Lines take effect in order: appending a line to a configuration text
/// applies that line to the settings read so far (so a later line for a key
/// overrides an earlier one).
pub proof fn law_lines_apply_in_order(text: Seq<char>, line: Seq<char>)
    requires
        forall|i: int| 0 <= i < line.len() ==> line[i] != '\n',
    ensures
        conf_map(text + seq!['\n'] + line) == apply_conf_line(conf_map(text), line),
        conf_entry(line) matches Some(e) ==> conf_map(text + seq!['\n'] + line).contains_key(e.0)
            && conf_map(text + seq!['\n'] + line)[e.0] == e.1,
{
    lemma_split_append_line(text, line);
    let p = split_lines(text);
    let q = p.push(line);
    lemma_apply_prefix(q, p, p.len());
}

/// A non-empty environment value overrides the file; otherwise the file's
/// value stands.
pub proof fn law_environment_overrides(
    env: Map<Seq<char>, Seq<char>>,
    file: Map<Seq<char>, Seq<char>>,
    key: Seq<char>,
)
    ensures
        env.contains_key(key) && env[key].len() > 0 ==> resolved(env, file, key) == Some(env[key]),
        !(env.contains_key(key) && env[key].len() > 0) ==> resolved(env, file, key) == (if file.contains_key(
            key,
        ) {
            Some(file[key])
        } else {
            None
        }),
{
}

/// Every setting of the configuration follows the same precedence: a
/// non-empty environment value for its key wins (so the camera gaia-core
/// assigns through `VIDEO_DEVICE` is the one opened); otherwise the file's
/// value; otherwise the default.  Numeric settings that do not parse take
/// the default.
pub proof fn law_config_precedence(
    c: Config,
    env: Map<Seq<char>, Seq<char>>,
    file: Map<Seq<char>, Seq<char>>,
)
    requires
        config_matches(c, env, file),
    ensures
        env.contains_key("STATION_ID"@) && env["STATION_ID"@].len() > 0 ==> c.station_id@ == env["STATION_ID"@],
        !(env.contains_key("STATION_ID"@) && env["STATION_ID"@].len() > 0) && file.contains_key("STATION_ID"@)
            ==> c.station_id@ == file["STATION_ID"@],
        !(env.contains_key("STATION_ID"@) && env["STATION_ID"@].len() > 0) && !file.contains_key("STATION_ID"@)
            ==> c.station_id@ == "XX0001"@,
        env.contains_key("VIDEO_DEVICE"@) && env["VIDEO_DEVICE"@].len() > 0 ==> c.video_device@ == env["VIDEO_DEVICE"@],
        !(env.contains_key("VIDEO_DEVICE"@) && env["VIDEO_DEVICE"@].len() > 0) && file.contains_key("VIDEO_DEVICE"@)
            ==> c.video_device@ == file["VIDEO_DEVICE"@],
        !(env.contains_key("VIDEO_DEVICE"@) && env["VIDEO_DEVICE"@].len() > 0) && !file.contains_key("VIDEO_DEVICE"@)
            ==> c.video_device@ == "/dev/video0"@,
        env.contains_key("DATA_DIR"@) && env["DATA_DIR"@].len() > 0 ==> c.data_dir@ == env["DATA_DIR"@],
        !(env.contains_key("DATA_DIR"@) && env["DATA_DIR"@].len() > 0) && file.contains_key("DATA_DIR"@)
            ==> c.data_dir@ == file["DATA_DIR"@],
        !(env.contains_key("DATA_DIR"@) && env["DATA_DIR"@].len() > 0) && !file.contains_key("DATA_DIR"@)
            ==> c.data_dir@ == "/data"@,
        env.contains_key("CAPTURE_LISTEN_ADDR"@) && env["CAPTURE_LISTEN_ADDR"@].len() > 0 ==> c.listen_addr@ == env["CAPTURE_LISTEN_ADDR"@],
        !(env.contains_key("CAPTURE_LISTEN_ADDR"@) && env["CAPTURE_LISTEN_ADDR"@].len() > 0) && file.contains_key("CAPTURE_LISTEN_ADDR"@)
            ==> c.listen_addr@ == file["CAPTURE_LISTEN_ADDR"@],
        !(env.contains_key("CAPTURE_LISTEN_ADDR"@) && env["CAPTURE_LISTEN_ADDR"@].len() > 0) && !file.contains_key("CAPTURE_LISTEN_ADDR"@)
            ==> c.listen_addr@ == "0.0.0.0:8090"@,
        env.contains_key("WIDTH"@) && env["WIDTH"@].len() > 0 ==> c.width == (match parse_u32_spec(
            env["WIDTH"@],
        ) {
            Some(x) => x,
            None => 1280u32,
        }),
        !(env.contains_key("WIDTH"@) && env["WIDTH"@].len() > 0) && file.contains_key("WIDTH"@)
            ==> c.width == (match parse_u32_spec(file["WIDTH"@]) {
            Some(x) => x,
            None => 1280u32,
        }),
        !(env.contains_key("WIDTH"@) && env["WIDTH"@].len() > 0) && !file.contains_key("WIDTH"@)
            ==> c.width == 1280u32,
        env.contains_key("HEIGHT"@) && env["HEIGHT"@].len() > 0 ==> c.height == (match parse_u32_spec(
            env["HEIGHT"@],
        ) {
            Some(x) => x,
            None => 720u32,
        }),
        !(env.contains_key("HEIGHT"@) && env["HEIGHT"@].len() > 0) && file.contains_key("HEIGHT"@)
            ==> c.height == (match parse_u32_spec(file["HEIGHT"@]) {
            Some(x) => x,
            None => 720u32,
        }),
        !(env.contains_key("HEIGHT"@) && env["HEIGHT"@].len() > 0) && !file.contains_key("HEIGHT"@)
            ==> c.height == 720u32,
        env.contains_key("FF_NFRAMES"@) && env["FF_NFRAMES"@].len() > 0 ==> c.ff_nframes == (match parse_u32_spec(
            env["FF_NFRAMES"@],
        ) {
            Some(x) => x,
            None => 256u32,
        }),
        !(env.contains_key("FF_NFRAMES"@) && env["FF_NFRAMES"@].len() > 0) && file.contains_key("FF_NFRAMES"@)
            ==> c.ff_nframes == (match parse_u32_spec(file["FF_NFRAMES"@]) {
            Some(x) => x,
            None => 256u32,
        }),
        !(env.contains_key("FF_NFRAMES"@) && env["FF_NFRAMES"@].len() > 0) && !file.contains_key("FF_NFRAMES"@)
            ==> c.ff_nframes == 256u32,
        env.contains_key("DEINTERLACE_ORDER"@) && env["DEINTERLACE_ORDER"@].len() > 0 ==> c.deinterlace_order == (match parse_i32_spec(
            env["DEINTERLACE_ORDER"@],
        ) {
            Some(x) => x,
            None => -1i32,
        }),
        !(env.contains_key("DEINTERLACE_ORDER"@) && env["DEINTERLACE_ORDER"@].len() > 0) && file.contains_key("DEINTERLACE_ORDER"@)
            ==> c.deinterlace_order == (match parse_i32_spec(file["DEINTERLACE_ORDER"@]) {
            Some(x) => x,
            None => -1i32,
        }),
        !(env.contains_key("DEINTERLACE_ORDER"@) && env["DEINTERLACE_ORDER"@].len() > 0) && !file.contains_key("DEINTERLACE_ORDER"@)
            ==> c.deinterlace_order == -1i32,
{
}

} // verus!
