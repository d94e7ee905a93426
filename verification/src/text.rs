//! Character-sequence helpers: decimal rendering and parsing, padding,
//! prefixes and whitespace, used by every formatter of the crate.

use vstd::prelude::*;

verus! {

/// The ASCII digit for a value below ten.
pub open spec fn digit_char(d: int) -> char {
    (d + 48) as char
}

/// Decimal rendering of a natural number, without leading zeros.
pub open spec fn dec(n: nat) -> Seq<char>
    decreases n,
{
    if n < 10 {
        seq![digit_char(n as int)]
    } else {
        dec(n / 10).push(digit_char((n % 10) as int))
    }
}

/// `n` rendered in decimal and left-padded with zeros to at least `width` characters
/// (the `{:0width}` format).
pub open spec fn dec_padded(n: nat, width: nat) -> Seq<char> {
    let d = dec(n);
    if d.len() >= width {
        d
    } else {
        Seq::new((width - d.len()) as nat, |i: int| '0') + d
    }
}

/// Appends the decimal rendering of `n`.
pub fn push_dec(out: &mut Vec<char>, n: u64)
    ensures
        final(out)@ == old(out)@ + dec(n as nat),
    decreases n,
{
    if n >= 10 {
        push_dec(out, n / 10);
    }
    let d: u64 = n % 10;
    let c: char = char_of_digit(d as u8);
    out.push(c);
    proof {
        if n >= 10 {
            assert(dec(n as nat) == dec((n / 10) as nat).push(digit_char((n % 10) as int)));
        }
    }
}

/// The ASCII digit of a value below ten.
pub fn char_of_digit(d: u8) -> (c: char)
    requires
        d < 10,
    ensures
        c == digit_char(d as int),
{
    match d {
        0 => '0',
        1 => '1',
        2 => '2',
        3 => '3',
        4 => '4',
        5 => '5',
        6 => '6',
        7 => '7',
        8 => '8',
        _ => '9',
    }
}


/// Number of decimal digits of `n`.
pub fn dec_len(n: u64) -> (l: usize)
    ensures
        l as int == dec(n as nat).len(),
        1 <= l <= 20,
    decreases n,
{
    if n < 10 {
        1
    } else {
        let l = dec_len(n / 10);
        proof {
            lemma_dec_len_bound(n as nat);
        }
        l + 1
    }
}

proof fn lemma_dec_len_bound(n: nat)
    requires
        n <= u64::MAX,
    ensures
        1 <= dec(n).len() <= 20,
    decreases n,
{
    reveal_with_fuel(pow10, 21);
    assert(pow10(20) == 100000000000000000000);
    lemma_dec_len_le(n, 20);
    assert(dec(n).len() >= 1) by {
        if n >= 10 {
            lemma_dec_len_bound(n / 10);
        }
    }
}

/// `dec(n)` has at most `k` digits when `n < 10^k`.
pub proof fn lemma_dec_len_le(n: nat, k: nat)
    requires
        n < pow10(k),
        k >= 1,
    ensures
        dec(n).len() <= k,
    decreases k,
{
    if n >= 10 {
        assert(k >= 2) by {
            if k == 1 {
                assert(pow10(1) == 10 * pow10(0));
            }
        }
        assert(pow10(k) == 10 * pow10((k - 1) as nat));
        assert(n / 10 < pow10((k - 1) as nat));
        lemma_dec_len_le(n / 10, (k - 1) as nat);
    }
}

/// `10^k`.
pub open spec fn pow10(k: nat) -> nat
    decreases k,
{
    if k == 0 {
        1
    } else {
        10 * pow10((k - 1) as nat)
    }
}

/// Appends `n` in decimal, left-padded with zeros to `width` characters.
pub fn push_dec_padded(out: &mut Vec<char>, n: u64, width: usize)
    ensures
        final(out)@ == old(out)@ + dec_padded(n as nat, width as nat),
{
    let l = dec_len(n);
    let ghost start = out@;
    if l < width {
        let mut i: usize = 0;
        while i < width - l
            invariant
                l < width,
                i <= width - l,
                out@ == start + Seq::new(i as nat, |j: int| '0'),
            decreases width - l - i,
        {
            out.push('0');
            i = i + 1;
            assert(out@ =~= start + Seq::new(i as nat, |j: int| '0'));
        }
        let ghost mid = out@;
        push_dec(out, n);
        assert(out@ =~= start + dec_padded(n as nat, width as nat));
    } else {
        push_dec(out, n);
    }
}

/// Appends the characters of `s`.
pub fn push_all(out: &mut Vec<char>, s: &[char])
    ensures
        final(out)@ == old(out)@ + s@,
{
    let ghost start = out@;
    let mut i: usize = 0;
    while i < s.len()
        invariant
            i <= s@.len(),
            out@ == start + s@.subrange(0, i as int),
        decreases s@.len() - i,
    {
        out.push(s[i]);
        i = i + 1;
        assert(out@ =~= start + s@.subrange(0, i as int));
    }
    assert(s@.subrange(0, s@.len() as int) =~= s@);
}

/// The characters of a string slice, in order.
pub(crate) fn chars_of(s: &str) -> (v: Vec<char>)
    ensures
        v@ == s@,
{
    let mut v: Vec<char> = Vec::new();
    for c in it: s.chars()
        invariant
            v@ == it.seq().take(it.index()),
    {
        v.push(c);
    }
    v
}

/// Appends one character with `String::push`, which extends the string's
/// characters by that character.
#[verifier::external_body]
fn push_char(s: &mut String, c: char)
    ensures
        final(s)@ == old(s)@.push(c),
{
    s.push(c);
}

/// The string made of the given characters.
pub(crate) fn string_of(v: &[char]) -> (s: String)
    ensures
        s@ == v@,
{
    let mut s = String::new();
    let mut i: usize = 0;
    while i < v.len()
        invariant
            i <= v.len(),
            s@ == v@.take(i as int),
        decreases v.len() - i,
    {
        push_char(&mut s, v[i]);
        i += 1;
    }
    s
}

/// ASCII decimal digit.
pub open spec fn is_digit(c: char) -> bool {
    '0' <= c && c <= '9'
}

/// Every character of `s` is an ASCII digit.
pub open spec fn all_digits(s: Seq<char>) -> bool {
    forall|i: int| 0 <= i < s.len() ==> #[trigger] is_digit(s[i])
}

/// Value of a string of decimal digits.
pub open spec fn digits_value(s: Seq<char>) -> nat
    decreases s.len(),
{
    if s.len() == 0 {
        0
    } else {
        digits_value(s.drop_last()) * 10 + ((s.last() as int - 48) as nat)
    }
}

/// `s` without a single leading `c`, if it starts with one.
pub open spec fn drop_sign(s: Seq<char>, c: char) -> Seq<char> {
    if s.len() > 0 && s[0] == c {
        s.drop_first()
    } else {
        s
    }
}

/// `u32::from_str`: an optional `+`, then one or more ASCII digits whose
/// value fits in 32 bits.
pub open spec fn parse_u32_spec(s: Seq<char>) -> Option<u32> {
    let body = drop_sign(s, '+');
    if body.len() > 0 && all_digits(body) && digits_value(body) <= u32::MAX {
        Some(digits_value(body) as u32)
    } else {
        None
    }
}

/// `i32::from_str`: an optional `+` or `-`, then one or more ASCII digits
/// whose signed value fits in 32 bits.
pub open spec fn parse_i32_spec(s: Seq<char>) -> Option<i32> {
    if s.len() > 0 && s[0] == '-' {
        let body = s.drop_first();
        if body.len() > 0 && all_digits(body) && digits_value(body) <= 0x8000_0000 {
            Some((0 - digits_value(body)) as i32)
        } else {
            None
        }
    } else {
        let body = drop_sign(s, '+');
        if body.len() > 0 && all_digits(body) && digits_value(body) <= i32::MAX {
            Some(digits_value(body) as i32)
        } else {
            None
        }
    }
}

proof fn lemma_digits_value_take(s: Seq<char>, i: int)
    requires
        0 <= i < s.len(),
    ensures
        digits_value(s.subrange(0, i + 1)) == digits_value(s.subrange(0, i)) * 10 + ((s[i] as int
            - 48) as nat),
{
    assert(s.subrange(0, i + 1).drop_last() =~= s.subrange(0, i));
}

proof fn lemma_digits_value_grows(s: Seq<char>, i: int, j: int)
    requires
        0 <= i <= j <= s.len(),
        all_digits(s),
    ensures
        digits_value(s.subrange(0, i)) <= digits_value(s.subrange(0, j)),
    decreases j - i,
{
    if i < j {
        lemma_digits_value_grows(s, i, j - 1);
        lemma_digits_value_take(s, j - 1);
        assert(is_digit(s[j - 1]));
    }
}

/// Value of the digits `s[lo..hi]` when all are digits and it fits in 32
/// bits; `None` when a character is not a digit or the value is too large.
fn digits_u32(s: &[char], lo: usize, hi: usize) -> (res: Option<u32>)
    requires
        lo <= hi <= s@.len(),
    ensures
        res == (if all_digits(s@.subrange(lo as int, hi as int)) && digits_value(
            s@.subrange(lo as int, hi as int),
        ) <= u32::MAX {
            Some(digits_value(s@.subrange(lo as int, hi as int)) as u32)
        } else {
            None
        }),
{
    let ghost body = s@.subrange(lo as int, hi as int);
    let mut acc: u64 = 0;
    let mut i: usize = lo;
    while i < hi
        invariant
            lo <= i <= hi <= s@.len(),
            body == s@.subrange(lo as int, hi as int),
            all_digits(s@.subrange(lo as int, i as int)),
            acc as int == digits_value(s@.subrange(lo as int, i as int)),
            acc <= u32::MAX,
        decreases hi - i,
    {
        let c = s[i];
        if !('0' <= c && c <= '9') {
            proof {
                assert(body[i - lo] == c);
                assert(!is_digit(body[i - lo]));
            }
            return None;
        }
        let d: u64 = (c as u32 - 48) as u64;
        proof {
            lemma_digits_value_take(body, i - lo);
            assert(body.subrange(0, i - lo + 1) =~= s@.subrange(lo as int, i + 1));
            assert(body.subrange(0, i - lo) =~= s@.subrange(lo as int, i as int));
        }
        acc = acc * 10 + d;
        i = i + 1;
        assert(all_digits(s@.subrange(lo as int, i as int))) by {
            assert forall|j: int| 0 <= j < i - lo implies #[trigger] is_digit(
                s@.subrange(lo as int, i as int)[j],
            ) by {
                if j < i - 1 - lo {
                    assert(s@.subrange(lo as int, i as int)[j] == s@.subrange(
                        lo as int,
                        i - 1,
                    )[j]);
                }
            }
        }
        if acc > 0xffff_ffff {
            return digits_overflow(s, lo, i, hi);
        }
    }
    assert(s@.subrange(lo as int, hi as int) =~= body);
    Some(acc as u32)
}

/// Finishes [`digits_u32`] once the prefix `s[lo..mid]` is already too
/// large: the result is `None` either way.
fn digits_overflow(s: &[char], lo: usize, mid: usize, hi: usize) -> (res: Option<u32>)
    requires
        lo <= mid <= hi <= s@.len(),
        all_digits(s@.subrange(lo as int, mid as int)),
        digits_value(s@.subrange(lo as int, mid as int)) > u32::MAX,
    ensures
        res == (if all_digits(s@.subrange(lo as int, hi as int)) && digits_value(
            s@.subrange(lo as int, hi as int),
        ) <= u32::MAX {
            Some(digits_value(s@.subrange(lo as int, hi as int)) as u32)
        } else {
            None
        }),
{
    proof {
        let body = s@.subrange(lo as int, hi as int);
        if all_digits(body) {
            lemma_digits_value_grows(body, mid - lo, hi - lo);
            assert(body.subrange(0, mid - lo) =~= s@.subrange(lo as int, mid as int));
            assert(body.subrange(0, hi - lo) =~= body);
        }
    }
    None
}

/// `u32::from_str` on `s[lo..hi]`.
pub fn parse_u32_range(s: &[char], lo: usize, hi: usize) -> (res: Option<u32>)
    requires
        lo <= hi <= s@.len(),
    ensures
        res == parse_u32_spec(s@.subrange(lo as int, hi as int)),
{
    let ghost t = s@.subrange(lo as int, hi as int);
    let mut start = lo;
    if lo < hi && s[lo] == '+' {
        start = lo + 1;
        assert(drop_sign(t, '+') =~= s@.subrange(start as int, hi as int));
    } else {
        assert(drop_sign(t, '+') =~= s@.subrange(start as int, hi as int));
    }
    if start == hi {
        return None;
    }
    digits_u32(s, start, hi)
}

/// `i32::from_str` on `s[lo..hi]`.
pub fn parse_i32_range(s: &[char], lo: usize, hi: usize) -> (res: Option<i32>)
    requires
        lo <= hi <= s@.len(),
    ensures
        res == parse_i32_spec(s@.subrange(lo as int, hi as int)),
{
    let ghost t = s@.subrange(lo as int, hi as int);
    if lo < hi && s[lo] == '-' {
        assert(t.drop_first() =~= s@.subrange(lo + 1, hi as int));
        if lo + 1 == hi {
            return None;
        }
        match digits_u32(s, lo + 1, hi) {
            Some(v) => {
                if v <= 0x8000_0000 {
                    let r: i64 = 0 - (v as i64);
                    Some(r as i32)
                } else {
                    None
                }
            },
            None => None,
        }
    } else {
        let mut start = lo;
        if lo < hi && s[lo] == '+' {
            start = lo + 1;
        }
        assert(drop_sign(t, '+') =~= s@.subrange(start as int, hi as int));
        if start == hi {
            return None;
        }
        match digits_u32(s, start, hi) {
            Some(v) => {
                if v <= 0x7fff_ffff {
                    Some(v as i32)
                } else {
                    None
                }
            },
            None => None,
        }
    }
}


/// `Path::join` on Unix: an absolute `name` replaces `base`; otherwise a
/// `/` separates them unless `base` is empty or already ends with one.
pub open spec fn path_join(base: Seq<char>, name: Seq<char>) -> Seq<char> {
    if name.len() > 0 && name[0] == '/' {
        name
    } else if base.len() == 0 || base.last() == '/' {
        base + name
    } else {
        base + seq!['/'] + name
    }
}

/// Joins two path strings as [`path_join`] describes.
pub fn join_path(base: &str, name: &str) -> (p: String)
    ensures
        p@ == path_join(base@, name@),
{
    let b = chars_of(base);
    let n = chars_of(name);
    if n.len() > 0 && n[0] == '/' {
        return string_of(n.as_slice());
    }
    let mut out = b;
    if out.len() > 0 && out[out.len() - 1] != '/' {
        out.push('/');
    }
    push_all(&mut out, n.as_slice());
    string_of(out.as_slice())
}


/// Index of the first `c` in `s`.
pub open spec fn find_char(s: Seq<char>, c: char) -> Option<int>
    decreases s.len(),
{
    if s.len() == 0 {
        None
    } else if s[0] == c {
        Some(0)
    } else {
        match find_char(s.drop_first(), c) {
            Some(i) => Some(i + 1),
            None => None,
        }
    }
}


/// Decimal rendering reads back: it is all digits and its value is `n`.
pub proof fn lemma_dec_reads_back(n: nat)
    ensures
        all_digits(dec(n)),
        digits_value(dec(n)) == n,
        dec(n).len() >= 1,
    decreases n,
{
    let r = (n % 10) as int;
    assert(digit_char(r) as int == r + 48);
    if n >= 10 {
        lemma_dec_reads_back(n / 10);
        let d = dec(n);
        assert(d.drop_last() =~= dec(n / 10));
        assert(d.last() == digit_char(r));
        assert(digits_value(d) == digits_value(dec(n / 10)) * 10 + r);
        assert forall|i: int| 0 <= i < d.len() implies #[trigger] is_digit(d[i]) by {
            if i < d.len() - 1 {
                assert(d[i] == dec(n / 10)[i]);
            }
        }
    } else {
        assert(dec(n).drop_last() =~= Seq::<char>::empty());
        assert(digits_value(Seq::<char>::empty()) == 0);
        assert(digits_value(dec(n)) == digits_value(dec(n).drop_last()) * 10 + r);
    }
}

/// Leading zeros do not change a value.
pub proof fn lemma_leading_zeros(k: nat, s: Seq<char>)
    requires
        all_digits(s),
    ensures
        all_digits(Seq::new(k, |i: int| '0') + s),
        digits_value(Seq::new(k, |i: int| '0') + s) == digits_value(s),
    decreases s.len(),
{
    let z = Seq::new(k, |i: int| '0');
    let t = z + s;
    assert forall|i: int| 0 <= i < t.len() implies #[trigger] is_digit(t[i]) by {
        if i >= k {
            assert(t[i] == s[i - k]);
        }
    }
    if s.len() > 0 {
        lemma_leading_zeros(k, s.drop_last());
        assert(t.drop_last() =~= z + s.drop_last());
    } else {
        lemma_zeros_value(k);
        assert(t =~= z);
    }
}

proof fn lemma_zeros_value(k: nat)
    ensures
        digits_value(Seq::new(k, |i: int| '0')) == 0,
    decreases k,
{
    if k > 0 {
        lemma_zeros_value((k - 1) as nat);
        assert(Seq::new(k, |i: int| '0').drop_last() =~= Seq::new((k - 1) as nat, |i: int| '0'));
    }
}

/// Zero-padded decimal reads back: all digits, value `n`, first character a
/// digit.
pub proof fn lemma_dec_padded_reads_back(n: nat, w: nat)
    ensures
        all_digits(dec_padded(n, w)),
        digits_value(dec_padded(n, w)) == n,
        dec_padded(n, w).len() >= 1,
{
    lemma_dec_reads_back(n);
    let d = dec(n);
    if d.len() < w {
        lemma_leading_zeros((w - d.len()) as nat, d);
    }
}

/// Searching `a + b` for a character `a` lacks finds it in `b`.
pub proof fn lemma_find_char_append(a: Seq<char>, b: Seq<char>, c: char)
    requires
        forall|i: int| 0 <= i < a.len() ==> a[i] != c,
    ensures
        find_char(a + b, c) == (match find_char(b, c) {
            Some(j) => Some(j + a.len()),
            None => None::<int>,
        }),
    decreases a.len(),
{
    if a.len() > 0 {
        assert((a + b).drop_first() =~= a.drop_first() + b);
        lemma_find_char_append(a.drop_first(), b, c);
    } else {
        assert(a + b =~= b);
    }
}


/// A found character lies inside the searched text.
pub proof fn lemma_find_char_range(s: Seq<char>, c: char)
    ensures
        find_char(s, c) matches Some(i) ==> 0 <= i < s.len() && s[i] == c,
        find_char(s, c) matches Some(i) ==> forall|j: int| 0 <= j < i ==> s[j] != c,
        find_char(s, c) is None ==> forall|j: int| 0 <= j < s.len() ==> s[j] != c,
    decreases s.len(),
{
    if s.len() > 0 {
        lemma_find_char_range(s.drop_first(), c);
        if s[0] != c {
            assert forall|j: int| 1 <= j < s.len() implies s[j] == s.drop_first()[j - 1] by {}
        }
    }
}

/// Position of the first `c` in `s[lo..hi]`.
pub fn find_in(s: &[char], lo: usize, hi: usize, c: char) -> (r: Option<usize>)
    requires
        lo <= hi <= s@.len(),
    ensures
        match r {
            Some(j) => lo <= j < hi && find_char(s@.subrange(lo as int, hi as int), c) == Some(
                j - lo,
            ),
            None => find_char(s@.subrange(lo as int, hi as int), c) is None,
        },
{
    let mut j = lo;
    while j < hi && s[j] != c
        invariant
            lo <= j <= hi <= s@.len(),
            find_char(s@.subrange(lo as int, hi as int), c) == (match find_char(
                s@.subrange(j as int, hi as int),
                c,
            ) {
                Some(k) => Some(k + (j - lo)),
                None => None::<int>,
            }),
        decreases hi - j,
    {
        assert(s@.subrange(j as int, hi as int).drop_first() =~= s@.subrange(j + 1, hi as int));
        j = j + 1;
    }
    if j == hi {
        assert(s@.subrange(j as int, hi as int) =~= Seq::<char>::empty());
        None
    } else {
        Some(j)
    }
}

/// Fields of `s` separated by `c`, as `str::split(c)` yields them.
pub open spec fn split_fields(s: Seq<char>, c: char) -> Seq<Seq<char>>
    decreases s.len(),
{
    match find_char(s, c) {
        Some(i) => {
            proof {
                lemma_find_char_range(s, c);
            }
            seq![s.subrange(0, i)] + split_fields(s.subrange(i + 1, s.len() as int), c)
        },
        None => seq![s],
    }
}

pub proof fn lemma_split_fields_len(s: Seq<char>, c: char)
    ensures
        split_fields(s, c).len() >= 1,
    decreases s.len(),
{
    lemma_find_char_range(s, c);
    if let Some(i) = find_char(s, c) {
        lemma_split_fields_len(s.subrange(i + 1, s.len() as int), c);
    }
}

/// UTF-8 length of a character.
pub open spec fn char_utf8_len(c: char) -> nat {
    if (c as int) < 0x80 {
        1
    } else if (c as int) < 0x800 {
        2
    } else if (c as int) < 0x10000 {
        3
    } else {
        4
    }
}

/// UTF-8 length of a text (what `str::len` returns).
pub open spec fn utf8_len(s: Seq<char>) -> nat
    decreases s.len(),
{
    if s.len() == 0 {
        0
    } else {
        char_utf8_len(s[0]) + utf8_len(s.drop_first())
    }
}

/// Index of the character starting at byte offset `b`, if `b` falls on a
/// character boundary (the end of the text counts as one).
pub open spec fn byte_boundary(s: Seq<char>, b: int) -> Option<int>
    decreases s.len(),
{
    if b == 0 {
        Some(0)
    } else if s.len() == 0 || b < 0 {
        None
    } else {
        match byte_boundary(s.drop_first(), b - char_utf8_len(s[0])) {
            Some(i) => Some(i + 1),
            None => None,
        }
    }
}

fn utf8_width(c: char) -> (n: usize)
    ensures
        n == char_utf8_len(c),
{
    let v = c as u32;
    if v < 0x80 {
        1
    } else if v < 0x800 {
        2
    } else if v < 0x10000 {
        3
    } else {
        4
    }
}

proof fn lemma_utf8_len_split(s: Seq<char>, k: int)
    requires
        0 <= k <= s.len(),
    ensures
        utf8_len(s) == utf8_len(s.subrange(0, k)) + utf8_len(s.subrange(k, s.len() as int)),
    decreases s.len(),
{
    if k > 0 {
        lemma_utf8_len_split(s.drop_first(), k - 1);
        assert(s.drop_first().subrange(0, k - 1) =~= s.subrange(0, k).drop_first());
        assert(s.drop_first().subrange(k - 1, s.len() - 1) =~= s.subrange(k, s.len() as int));
    } else {
        assert(s.subrange(0, 0) =~= Seq::<char>::empty());
        assert(s.subrange(0, s.len() as int) =~= s);
    }
}

/// Index of the character of `s[lo..hi]` at byte offset `b`, as an index
/// into `s`, or `None` when `b` is not a character boundary.
pub fn byte_boundary_of(s: &[char], lo: usize, hi: usize, b: usize) -> (r: Option<usize>)
    requires
        lo <= hi <= s@.len(),
    ensures
        match r {
            Some(i) => lo <= i <= hi && byte_boundary(s@.subrange(lo as int, hi as int), b as int)
                == Some(i - lo),
            None => byte_boundary(s@.subrange(lo as int, hi as int), b as int) is None,
        },
{
    let mut j = lo;
    let mut rest: usize = b;
    while rest > 0 && j < hi
        invariant
            lo <= j <= hi <= s@.len(),
            rest <= b,
            byte_boundary(s@.subrange(lo as int, hi as int), b as int) == (match byte_boundary(
                s@.subrange(j as int, hi as int),
                rest as int,
            ) {
                Some(k) => Some(k + (j - lo)),
                None => None::<int>,
            }),
        decreases hi - j,
    {
        let w = utf8_width(s[j]);
        assert(s@.subrange(j as int, hi as int).drop_first() =~= s@.subrange(j + 1, hi as int));
        assert(s@.subrange(j as int, hi as int)[0] == s@[j as int]);
        if w > rest {
            assert(byte_boundary(s@.subrange(j + 1, hi as int), rest - w) is None) by {
                assert(rest - w < 0);
                if s@.subrange(j + 1, hi as int).len() == 0 {
                }
            }
            return None;
        }
        rest = rest - w;
        j = j + 1;
    }
    if rest == 0 {
        Some(j)
    } else {
        assert(s@.subrange(j as int, hi as int) =~= Seq::<char>::empty());
        None
    }
}


/// Whether `s[lo..hi]` is exactly `target` bytes long in UTF-8.
pub fn utf8_len_is(s: &[char], lo: usize, hi: usize, target: usize) -> (r: bool)
    requires
        lo <= hi <= s@.len(),
        target <= 0x1000_0000,
    ensures
        r == (utf8_len(s@.subrange(lo as int, hi as int)) == target),
{
    let mut j = lo;
    let mut acc: usize = 0;
    while j < hi
        invariant
            lo <= j <= hi <= s@.len(),
            acc <= target <= 0x1000_0000,
            utf8_len(s@.subrange(lo as int, hi as int)) == acc + utf8_len(
                s@.subrange(j as int, hi as int),
            ),
        decreases hi - j,
    {
        let w = utf8_width(s[j]);
        assert(s@.subrange(j as int, hi as int).drop_first() =~= s@.subrange(j + 1, hi as int));
        if acc + w > target {
            return false;
        }
        acc = acc + w;
        j = j + 1;
    }
    assert(s@.subrange(j as int, hi as int) =~= Seq::<char>::empty());
    acc == target
}


/// Character boundaries come in the order of their byte offsets.
pub proof fn lemma_byte_boundary_order(s: Seq<char>, a: int, b: int)
    requires
        0 <= a <= b,
        byte_boundary(s, a) is Some,
        byte_boundary(s, b) is Some,
    ensures
        0 <= byte_boundary(s, a)->0 <= byte_boundary(s, b)->0 <= s.len(),
    decreases s.len(),
{
    if a > 0 {
        lemma_byte_boundary_order(s.drop_first(), a - char_utf8_len(s[0]), b - char_utf8_len(s[0]));
    } else if b > 0 {
        lemma_byte_boundary_order(s.drop_first(), 0, b - char_utf8_len(s[0]));
    }
}


/// A text of ASCII digits is one byte per character, so every character
/// index is a byte boundary.
pub proof fn lemma_digits_bytes(s: Seq<char>)
    requires
        all_digits(s),
    ensures
        utf8_len(s) == s.len(),
        forall|k: int| 0 <= k <= s.len() ==> #[trigger] byte_boundary(s, k) == Some(k),
    decreases s.len(),
{
    if s.len() > 0 {
        let t = s.drop_first();
        assert(all_digits(t)) by {
            assert forall|i: int| 0 <= i < t.len() implies #[trigger] is_digit(t[i]) by {
                assert(t[i] == s[i + 1]);
            }
        }
        lemma_digits_bytes(t);
        assert(is_digit(s[0]));
        assert(char_utf8_len(s[0]) == 1);
        assert forall|k: int| 0 <= k <= s.len() implies #[trigger] byte_boundary(s, k) == Some(k) by {
            if k > 0 {
                assert(byte_boundary(t, k - 1) == Some(k - 1));
            }
        }
    } else {
        assert forall|k: int| 0 <= k <= s.len() implies #[trigger] byte_boundary(s, k) == Some(k) by {
        }
    }
}

/// `n` padded to `w` digits is exactly `w` long when `n < 10^w`.
pub proof fn lemma_dec_padded_len(n: nat, w: nat)
    requires
        w >= 1,
        n < pow10(w),
    ensures
        dec_padded(n, w).len() == w,
{
    lemma_dec_len_le(n, w);
}

} // verus!
