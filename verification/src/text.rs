//! Character-level text utilities: whitespace, trimming, splitting, line
//! breaking and unsigned decimal parsing, all over index ranges of a
//! character vector so that results can point back into the source.

use vstd::prelude::*;

verus! {

/// Unicode `White_Space` (the set `char::is_whitespace` and `str::trim` use).
pub open spec fn is_ws(c: char) -> bool {
    let u = c as u32;
    (0x09 <= u && u <= 0x0d) || u == 0x20 || u == 0x85 || u == 0xa0 || u == 0x1680
        || (0x2000 <= u && u <= 0x200a) || u == 0x2028 || u == 0x2029 || u == 0x202f
        || u == 0x205f || u == 0x3000
}

pub open spec fn is_digit(c: char) -> bool {
    '0' <= c && c <= '9'
}

pub open spec fn digit_value(c: char) -> nat {
    (c as u32 - '0' as u32) as nat
}

pub open spec fn all_digits(s: Seq<char>) -> bool {
    forall|i: int| 0 <= i < s.len() ==> is_digit(#[trigger] s[i])
}

/// The natural number written by a sequence of decimal digits.
pub open spec fn digits_value(s: Seq<char>) -> nat
    decreases s.len(),
{
    if s.len() == 0 {
        0
    } else {
        digits_value(s.drop_last()) * 10 + digit_value(s.last())
    }
}

/// First index in `[lo, hi)` that is not whitespace, or `hi`.
pub open spec fn skip_ws(s: Seq<char>, lo: int, hi: int) -> int
    decreases hi - lo,
{
    if lo >= hi {
        hi
    } else if is_ws(s[lo]) {
        skip_ws(s, lo + 1, hi)
    } else {
        lo
    }
}

/// End of `[lo, hi)` once trailing whitespace is dropped.
pub open spec fn skip_ws_back(s: Seq<char>, lo: int, hi: int) -> int
    decreases hi - lo,
{
    if hi <= lo {
        lo
    } else if is_ws(s[hi - 1]) {
        skip_ws_back(s, lo, hi - 1)
    } else {
        hi
    }
}

/// `str::trim` on the range `[lo, hi)`: the range without leading and
/// trailing whitespace.
pub open spec fn trim_range(s: Seq<char>, lo: int, hi: int) -> (int, int) {
    let a = skip_ws(s, lo, hi);
    (a, skip_ws_back(s, a, hi))
}

/// First index of `c` in `[lo, hi)`.
pub open spec fn find_char(s: Seq<char>, lo: int, hi: int, c: char) -> Option<int>
    decreases hi - lo,
{
    if lo >= hi {
        None
    } else if s[lo] == c {
        Some(lo)
    } else {
        find_char(s, lo + 1, hi, c)
    }
}

/// First index `j` in `[lo, hi)` with `s[j] == s[j + 1] == c` (both inside).
pub open spec fn find_pair(s: Seq<char>, lo: int, hi: int, c: char) -> Option<int>
    decreases hi - lo,
{
    if lo + 1 >= hi {
        None
    } else if s[lo] == c && s[lo + 1] == c {
        Some(lo)
    } else {
        find_pair(s, lo + 1, hi, c)
    }
}

/// `str::split(c)` on `[lo, hi)`: the pieces between separators, as ranges
/// (always at least one piece).
pub open spec fn split_ranges(s: Seq<char>, lo: int, hi: int, c: char) -> Seq<(int, int)>
    decreases hi - lo,
{
    match find_char(s, lo, hi, c) {
        None => seq![(lo, hi)],
        Some(j) => if lo <= j < hi {
            seq![(lo, j)] + split_ranges(s, j + 1, hi, c)
        } else {
            seq![(lo, hi)]
        },
    }
}

/// `str::lines` from index `lo`: lines end at `\n`, a `\r` just before the
/// `\n` is dropped, and a final line without `\n` is kept as it is.
pub open spec fn line_ranges(s: Seq<char>, lo: int) -> Seq<(int, int)>
    decreases s.len() - lo,
{
    if lo >= s.len() {
        seq![]
    } else {
        match find_char(s, lo, s.len() as int, '\n') {
            None => seq![(lo, s.len() as int)],
            Some(j) => if lo <= j < s.len() {
                let e = if j > lo && s[j - 1] == '\r' { j - 1 } else { j };
                seq![(lo, e)] + line_ranges(s, j + 1)
            } else {
                seq![]
            },
        }
    }
}

/// What `str::parse::<uN>` accepts: an optional `+`, then one or more
/// decimal digits; the value is that of the digits.
pub open spec fn unsigned_literal(s: Seq<char>) -> Option<nat> {
    let d = if s.len() > 0 && s[0] == '+' { s.drop_first() } else { s };
    if d.len() > 0 && all_digits(d) {
        Some(digits_value(d))
    } else {
        None
    }
}

/// `str::parse::<uN>` for the type whose largest value is `max`.
pub open spec fn parse_unsigned(s: Seq<char>, max: nat) -> Option<nat> {
    match unsigned_literal(s) {
        Some(v) => if v <= max { Some(v) } else { None },
        None => None,
    }
}

/// ASCII lowercase of a character.
pub open spec fn ascii_lower(c: char) -> char {
    if 'A' <= c && c <= 'Z' {
        ((c as u32) + 32) as char
    } else {
        c
    }
}

// ---------------------------------------------------------------------------

/// The characters of a string slice, in order.
pub fn chars_of(s: &str) -> (r: Vec<char>)
    ensures
        r@ == s@,
{
    broadcast use vstd::string::axiom_spec_iter;

    let mut r: Vec<char> = Vec::new();
    for c in it: s.chars()
        invariant
            r@ == it.seq().take(it.index() as int),
    {
        r.push(c);
    }
    r
}

/// `String::push`: the string gets `c` appended at its end.
#[verifier::external_body]
fn push_char(s: &mut String, c: char)
    ensures
        final(s)@ == old(s)@.push(c),
{
    s.push(c);
}

/// A `String` holding exactly the given characters.
pub fn string_of(v: &[char]) -> (r: String)
    ensures
        r@ == v@,
{
    let mut s = String::new();
    let mut i: usize = 0;
    while i < v.len()
        invariant
            i <= v.len(),
            s@ == v@.take(i as int),
        decreases v.len() - i,
    {
        push_char(&mut s, v[i]);
        assert(v@.take(i + 1) =~= v@.take(i as int).push(v@[i as int]));
        i = i + 1;
    }
    assert(v@.take(v.len() as int) =~= v@);
    s
}

pub fn is_ws_char(c: char) -> (r: bool)
    ensures
        r == is_ws(c),
{
    let u = c as u32;
    (0x09 <= u && u <= 0x0d) || u == 0x20 || u == 0x85 || u == 0xa0 || u == 0x1680 || (0x2000
        <= u && u <= 0x200a) || u == 0x2028 || u == 0x2029 || u == 0x202f || u == 0x205f || u
        == 0x3000
}

pub fn is_digit_char(c: char) -> (r: bool)
    ensures
        r == is_digit(c),
{
    '0' <= c && c <= '9'
}

/// Whether `c` equals the lowercase ASCII letter `t` ignoring ASCII case.
pub fn eq_ignore_case(c: char, t: char) -> (r: bool)
    requires
        'a' <= t <= 'z',
    ensures
        r == (ascii_lower(c) == t),
{
    let u = c as u32;
    let v = t as u32;
    u == v || u + 32 == v
}

/// `str::trim_start` on `[lo, hi)`: index of the first non-whitespace char.
pub fn trim_start(s: &Vec<char>, lo: usize, hi: usize) -> (r: usize)
    requires
        lo <= hi <= s.len(),
    ensures
        r == skip_ws(s@, lo as int, hi as int),
        lo <= r <= hi,
    decreases hi - lo,
{
    if lo >= hi {
        hi
    } else if is_ws_char(s[lo]) {
        trim_start(s, lo + 1, hi)
    } else {
        lo
    }
}

/// End of `[lo, hi)` without its trailing whitespace.
pub fn trim_end(s: &Vec<char>, lo: usize, hi: usize) -> (r: usize)
    requires
        lo <= hi <= s.len(),
    ensures
        r == skip_ws_back(s@, lo as int, hi as int),
        lo <= r <= hi,
    decreases hi - lo,
{
    if hi <= lo {
        lo
    } else if is_ws_char(s[hi - 1]) {
        trim_end(s, lo, hi - 1)
    } else {
        hi
    }
}

/// `str::trim` on `[lo, hi)`.
pub fn trim(s: &Vec<char>, lo: usize, hi: usize) -> (r: (usize, usize))
    requires
        lo <= hi <= s.len(),
    ensures
        (r.0 as int, r.1 as int) == trim_range(s@, lo as int, hi as int),
        lo <= r.0 <= r.1 <= hi,
{
    let a = trim_start(s, lo, hi);
    let b = trim_end(s, a, hi);
    (a, b)
}

pub fn find(s: &Vec<char>, lo: usize, hi: usize, c: char) -> (r: Option<usize>)
    requires
        lo <= hi <= s.len(),
    ensures
        r matches Some(j) ==> find_char(s@, lo as int, hi as int, c) == Some(j as int),
        r is None ==> find_char(s@, lo as int, hi as int, c) is None,
        r matches Some(j) ==> lo <= j < hi,
    decreases hi - lo,
{
    if lo >= hi {
        None
    } else if s[lo] == c {
        Some(lo)
    } else {
        find(s, lo + 1, hi, c)
    }
}

pub fn find_double(s: &Vec<char>, lo: usize, hi: usize, c: char) -> (r: Option<usize>)
    requires
        lo <= hi <= s.len(),
    ensures
        r matches Some(j) ==> find_pair(s@, lo as int, hi as int, c) == Some(j as int),
        r is None ==> find_pair(s@, lo as int, hi as int, c) is None,
        r matches Some(j) ==> lo <= j && j + 1 < hi,
    decreases hi - lo,
{
    if hi - lo < 2 {
        None
    } else if s[lo] == c && s[lo + 1] == c {
        Some(lo)
    } else {
        find_double(s, lo + 1, hi, c)
    }
}

pub proof fn lemma_find_bounds(s: Seq<char>, lo: int, hi: int, c: char)
    ensures
        find_char(s, lo, hi, c) matches Some(j) ==> lo <= j < hi && s[j] == c,
    decreases hi - lo,
{
    if lo < hi && s[lo] != c {
        lemma_find_bounds(s, lo + 1, hi, c);
    }
}

/// `str::split(c)` on `[lo, hi)`.
pub fn split(s: &Vec<char>, lo: usize, hi: usize, c: char) -> (r: Vec<(usize, usize)>)
    requires
        lo <= hi <= s.len(),
    ensures
        r@.map_values(|p: (usize, usize)| (p.0 as int, p.1 as int)) == split_ranges(
            s@,
            lo as int,
            hi as int,
            c,
        ),
        forall|k: int| 0 <= k < r.len() ==> lo <= (#[trigger] r[k]).0 <= r[k].1 <= hi,
    decreases hi - lo,
{
    proof {
        lemma_find_bounds(s@, lo as int, hi as int, c);
    }
    match find(s, lo, hi, c) {
        None => {
            let r = vec![(lo, hi)];
            assert(r@.map_values(|p: (usize, usize)| (p.0 as int, p.1 as int)) =~= seq![
                (lo as int, hi as int),
            ]);
            r
        },
        Some(j) => {
            let rest = split(s, j + 1, hi, c);
            let mut r = vec![(lo, j)];
            let ghost rv = rest@;
            let mut k: usize = 0;
            while k < rest.len()
                invariant
                    k <= rest.len(),
                    rest@ == rv,
                    lo <= j < hi,
                    r@ =~= seq![(lo, j)] + rv.take(k as int),
                    forall|q: int| 0 <= q < rest.len() ==> j + 1 <= (#[trigger] rest[q]).0 <= rest[q].1 <= hi,
                decreases rest.len() - k,
            {
                r.push(rest[k]);
                k = k + 1;
            }
            assert(rv.take(rest.len() as int) =~= rv);
            assert(r@.map_values(|p: (usize, usize)| (p.0 as int, p.1 as int)) =~= seq![
                (lo as int, j as int),
            ] + rest@.map_values(|p: (usize, usize)| (p.0 as int, p.1 as int)));
            r
        },
    }
}

/// `str::lines` on the whole vector, as ranges.
pub fn lines(s: &Vec<char>) -> (r: Vec<(usize, usize)>)
    ensures
        r@.map_values(|p: (usize, usize)| (p.0 as int, p.1 as int)) == line_ranges(s@, 0),
        forall|k: int| 0 <= k < r.len() ==> (#[trigger] r[k]).0 <= r[k].1 <= s.len(),
{
    let mut r: Vec<(usize, usize)> = Vec::new();
    let mut pos: usize = 0;
    while pos < s.len()
        invariant
            pos <= s.len(),
            r@.map_values(|p: (usize, usize)| (p.0 as int, p.1 as int)) + line_ranges(
                s@,
                pos as int,
            ) == line_ranges(s@, 0),
            forall|k: int| 0 <= k < r.len() ==> (#[trigger] r[k]).0 <= r[k].1 <= s.len(),
        decreases s.len() - pos,
    {
        proof {
            lemma_find_bounds(s@, pos as int, s.len() as int, '\n');
        }
        let ghost before = r@;
        match find(s, pos, s.len(), '\n') {
            None => {
                r.push((pos, s.len()));
                assert(line_ranges(s@, s.len() as int) =~= seq![]);
                assert(r@.map_values(|p: (usize, usize)| (p.0 as int, p.1 as int)) =~= before.map_values(
                    |p: (usize, usize)| (p.0 as int, p.1 as int),
                ).push((pos as int, s.len() as int)));
                pos = s.len();
            },
            Some(j) => {
                let e = if j > pos && s[j - 1] == '\r' {
                    j - 1
                } else {
                    j
                };
                r.push((pos, e));
                assert(r@.map_values(|p: (usize, usize)| (p.0 as int, p.1 as int)) =~= before.map_values(
                    |p: (usize, usize)| (p.0 as int, p.1 as int),
                ).push((pos as int, e as int)));
                pos = j + 1;
            },
        }
    }
    assert(line_ranges(s@, pos as int) =~= seq![]);
    assert(r@.map_values(|p: (usize, usize)| (p.0 as int, p.1 as int)) + seq![] =~= r@.map_values(
        |p: (usize, usize)| (p.0 as int, p.1 as int),
    ));
    r
}

/// `str::parse::<uN>` on `[lo, hi)`, where `max` is the largest `uN`.
pub fn parse_uint(s: &Vec<char>, lo: usize, hi: usize, max: u64) -> (r: Option<u64>)
    requires
        lo <= hi <= s.len(),
        max <= u32::MAX,
    ensures
        r matches Some(v) ==> parse_unsigned(s@.subrange(lo as int, hi as int), max as nat) == Some(
            v as nat,
        ),
        r is None ==> parse_unsigned(s@.subrange(lo as int, hi as int), max as nat) is None,
{
    let ghost t = s@.subrange(lo as int, hi as int);
    let mut start = lo;
    if start < hi && s[start] == '+' {
        start = start + 1;
    }
    let ghost d = s@.subrange(start as int, hi as int);
    assert(d =~= (if t.len() > 0 && t[0] == '+' { t.drop_first() } else { t }));
    if start == hi {
        return None;
    }
    let cap: u64 = max + 1;
    let mut acc: u64 = 0;
    let mut i = start;
    while i < hi
        invariant
            lo <= start <= i <= hi <= s.len(),
            cap == max + 1,
            max <= u32::MAX,
            t == s@.subrange(lo as int, hi as int),
            d == s@.subrange(start as int, hi as int),
            d == (if t.len() > 0 && t[0] == '+' { t.drop_first() } else { t }),
            all_digits(s@.subrange(start as int, i as int)),
            acc as nat == if digits_value(s@.subrange(start as int, i as int)) < cap {
                digits_value(s@.subrange(start as int, i as int))
            } else {
                cap as nat
            },
        decreases hi - i,
    {
        let c = s[i];
        if !is_digit_char(c) {
            assert(d[i - start] == c);
            return None;
        }
        let ghost prev = s@.subrange(start as int, i as int);
        let ghost next = s@.subrange(start as int, i + 1);
        assert(next.drop_last() =~= prev);
        let dv = (c as u32 - '0' as u32) as u64;
        let v = acc * 10 + dv;
        acc = if v < cap {
            v
        } else {
            cap
        };
        proof {
            assert(digits_value(next) == digits_value(prev) * 10 + dv);
            if digits_value(prev) >= cap {
                assert(digits_value(prev) * 10 >= cap) by (nonlinear_arith)
                    requires
                        digits_value(prev) >= cap,
                ;
            }
            assert forall|k: int| 0 <= k < next.len() implies is_digit(#[trigger] next[k]) by {
                if k < prev.len() {
                    assert(next[k] == prev[k]);
                }
            }
        }
        i = i + 1;
    }
    assert(s@.subrange(start as int, hi as int) == d);
    if acc > max {
        None
    } else {
        Some(acc)
    }
}

/// Whether `s[lo..hi]` is exactly `t`.
pub fn range_is(s: &Vec<char>, lo: usize, hi: usize, t: &Vec<char>) -> (r: bool)
    requires
        lo <= hi <= s.len(),
    ensures
        r == (s@.subrange(lo as int, hi as int) == t@),
{
    if hi - lo != t.len() {
        assert(s@.subrange(lo as int, hi as int).len() != t@.len());
        return false;
    }
    let mut k: usize = 0;
    while k < t.len()
        invariant
            lo <= hi <= s.len(),
            hi - lo == t.len(),
            k <= t.len(),
            forall|q: int| 0 <= q < k ==> s@[lo + q] == t@[q],
        decreases t.len() - k,
    {
        if s[lo + k] != t[k] {
            assert(s@.subrange(lo as int, hi as int)[k as int] != t@[k as int]);
            return false;
        }
        k = k + 1;
    }
    assert(s@.subrange(lo as int, hi as int) =~= t@);
    true
}

/// Whether `s[lo..hi]` begins with `t`.
pub fn range_starts_with(s: &Vec<char>, lo: usize, hi: usize, t: &Vec<char>) -> (r: bool)
    requires
        lo <= hi <= s.len(),
    ensures
        r == (t.len() <= hi - lo && s@.subrange(lo as int, lo + t.len()) == t@),
{
    if hi - lo < t.len() {
        return false;
    }
    range_is(s, lo, lo + t.len(), t)
}

} // verus!
