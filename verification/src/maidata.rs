//! The maidata.txt container: `&key=value` lines, and `&inote_N=` blocks
//! whose following lines (up to a line `E` or the next `&` line) are the
//! measures of chart N.

use vstd::prelude::*;
use crate::chart::{difficulty_name, difficulty_name_spec, DifficultyInfo};
use crate::number::{float_literal, is_float_literal};
use crate::text::{
    ascii_lower, chars_of, eq_ignore_case, find, find_char, line_ranges, lines, parse_uint,
    parse_unsigned, string_of, trim, trim_range,
};

verus! {

/// Parsed maidata.txt: metadata + per-difficulty chart measure lines.
pub struct Maidata {
    /// `(key, value)` pairs in the order of the file; a later pair wins.
    pub meta: Vec<(Vec<char>, Vec<char>)>,
    /// Slot `N` (0..=255) holds the measure lines of `&inote_N`, if any.
    pub charts: Vec<Option<Vec<Vec<char>>>>,
}

pub struct MaidataView {
    pub meta: Seq<(Seq<char>, Seq<char>)>,
    pub charts: Map<u8, Seq<Seq<char>>>,
}

pub open spec fn pairs_view(m: Seq<(Vec<char>, Vec<char>)>) -> Seq<(Seq<char>, Seq<char>)> {
    m.map_values(|p: (Vec<char>, Vec<char>)| (p.0@, p.1@))
}

pub open spec fn measures_view(m: Seq<Vec<char>>) -> Seq<Seq<char>> {
    m.map_values(|v: Vec<char>| v@)
}

impl View for Maidata {
    type V = MaidataView;

    open spec fn view(&self) -> MaidataView {
        MaidataView {
            meta: pairs_view(self.meta@),
            charts: Map::new(
                |d: u8| (d as int) < self.charts.len() && self.charts@[d as int] is Some,
                |d: u8| measures_view(self.charts@[d as int]->0@),
            ),
        }
    }
}

impl Maidata {
    pub open spec fn wf(&self) -> bool {
        self.charts.len() == 256
    }
}

/// The value of the last `key` pair.
pub open spec fn meta_get(meta: Seq<(Seq<char>, Seq<char>)>, key: Seq<char>) -> Option<Seq<char>>
    decreases meta.len(),
{
    if meta.len() == 0 {
        None
    } else if meta.last().0 == key {
        Some(meta.last().1)
    } else {
        meta_get(meta.drop_last(), key)
    }
}

/// Law: a later `key` line wins over earlier ones, and leaves other keys
/// alone.
pub proof fn lemma_later_key_wins(meta: Seq<(Seq<char>, Seq<char>)>, key: Seq<char>, value: Seq<char>, other: Seq<char>)
    requires
        other != key,
    ensures
        meta_get(meta.push((key, value)), key) == Some(value),
        meta_get(meta.push((key, value)), other) == meta_get(meta, other),
{
    assert(meta.push((key, value)).drop_last() =~= meta);
}

pub open spec fn inote_prefix() -> Seq<char> {
    seq!['i', 'n', 'o', 't', 'e', '_']
}

/// The body of a chart from line `j`: lines up to a line that is `E`, `E,`
/// or `e` once trimmed (consumed), or up to a line starting with `&` (not
/// consumed). Blank lines are skipped; other lines are kept untrimmed.
pub open spec fn chart_body(t: Seq<char>, ls: Seq<(int, int)>, j: int) -> (Seq<Seq<char>>, int)
    decreases ls.len() - j,
{
    if j >= ls.len() || j < 0 {
        (seq![], j)
    } else {
        let (a, b) = trim_range(t, ls[j].0, ls[j].1);
        let n = t.subrange(a, b);
        if n == seq!['E', ','] || (n.len() == 1 && ascii_lower(n[0]) == 'e') {
            (seq![], j + 1)
        } else if a < b && t[a] == '&' {
            (seq![], j)
        } else {
            let (rest, nx) = chart_body(t, ls, j + 1);
            (if a < b { seq![t.subrange(ls[j].0, ls[j].1)] + rest } else { rest }, nx)
        }
    }
}

pub proof fn lemma_chart_body_next(t: Seq<char>, ls: Seq<(int, int)>, j: int)
    requires
        0 <= j <= ls.len(),
    ensures
        j <= chart_body(t, ls, j).1 <= ls.len(),
    decreases ls.len() - j,
{
    if j < ls.len() {
        lemma_chart_body_next(t, ls, j + 1);
    }
}

/// The file's lines from `i` on, applied to `acc`.
pub open spec fn md_lines(t: Seq<char>, ls: Seq<(int, int)>, i: int, acc: MaidataView) -> MaidataView
    decreases ls.len() - i,
{
    if i >= ls.len() || i < 0 {
        acc
    } else {
        let (a, b) = trim_range(t, ls[i].0, ls[i].1);
        if a >= b || t[a] != '&' {
            md_lines(t, ls, i + 1, acc)
        } else {
            match find_char(t, a + 1, b, '=') {
                None => md_lines(t, ls, i + 1, acc),
                Some(eq) => {
                    let key = t.subrange(a + 1, eq);
                    let value = t.subrange(eq + 1, b);
                    if key.len() >= 6 && key.take(6) == inote_prefix() {
                        match parse_unsigned(key.skip(6), 255) {
                            Some(idx) => {
                                let (body, next) = chart_body(t, ls, i + 1);
                                let ms = if value.len() > 0 { seq![value] + body } else { body };
                                proof {
                                    lemma_chart_body_next(t, ls, i + 1);
                                }
                                md_lines(
                                    t,
                                    ls,
                                    next,
                                    MaidataView { meta: acc.meta, charts: acc.charts.insert(idx as u8, ms) },
                                )
                            },
                            None => md_lines(t, ls, i + 1, acc),
                        }
                    } else {
                        md_lines(
                            t,
                            ls,
                            i + 1,
                            MaidataView { meta: acc.meta.push((key, value)), charts: acc.charts },
                        )
                    }
                },
            }
        }
    }
}

/// What a maidata text holds.
pub open spec fn maidata_spec(t: Seq<char>) -> MaidataView {
    md_lines(t, line_ranges(t, 0), 0, MaidataView { meta: seq![], charts: Map::empty() })
}

// ---------------------------------------------------------------------------
// Where everything a parse keeps comes from.

/// The `(key, value)` of a line that reads `&key=value` once trimmed (the
/// first `=` splits).
pub open spec fn key_line(t: Seq<char>, r: (int, int)) -> Option<(Seq<char>, Seq<char>)> {
    let (a, b) = trim_range(t, r.0, r.1);
    if a < b && t[a] == '&' {
        match find_char(t, a + 1, b, '=') {
            Some(eq) => Some((t.subrange(a + 1, eq), t.subrange(eq + 1, b))),
            None => None,
        }
    } else {
        None
    }
}

pub open spec fn is_inote_key(k: Seq<char>) -> bool {
    k.len() >= 6 && k.take(6) == inote_prefix()
}

/// The chart number of a key `inote_N` with `N` a `u8`.
pub open spec fn chart_index(k: Seq<char>) -> Option<u8> {
    if is_inote_key(k) {
        match parse_unsigned(k.skip(6), 255) {
            Some(n) => Some(n as u8),
            None => None,
        }
    } else {
        None
    }
}

/// Line `j` is `&key=value` with a key that does not start with `inote_`.
pub open spec fn meta_line(t: Seq<char>, ls: Seq<(int, int)>, j: int, k: Seq<char>, v: Seq<char>) -> bool {
    0 <= j < ls.len() && key_line(t, ls[j]) == Some((k, v)) && !is_inote_key(k)
}

/// Line `j` is `&inote_n=...`.
pub open spec fn chart_line(t: Seq<char>, ls: Seq<(int, int)>, j: int, n: u8) -> bool {
    0 <= j < ls.len() && (key_line(t, ls[j]) matches Some(p) && chart_index(p.0) == Some(n))
}

pub open spec fn valid_ranges(t: Seq<char>, ls: Seq<(int, int)>) -> bool {
    forall|x: int| 0 <= x < ls.len() ==> 0 <= (#[trigger] ls[x]).0 <= ls[x].1 <= t.len()
}

proof fn lemma_skip_ws_bounds(s: Seq<char>, lo: int, hi: int)
    requires
        lo <= hi,
    ensures
        lo <= crate::text::skip_ws(s, lo, hi) <= hi,
        lo <= crate::text::skip_ws_back(s, lo, hi) <= hi,
    decreases hi - lo,
{
    if lo < hi {
        lemma_skip_ws_bounds(s, lo + 1, hi);
        lemma_skip_ws_bounds(s, lo, hi - 1);
    }
}

proof fn lemma_trim_bounds(s: Seq<char>, lo: int, hi: int)
    requires
        lo <= hi,
    ensures
        lo <= trim_range(s, lo, hi).0 <= trim_range(s, lo, hi).1 <= hi,
{
    lemma_skip_ws_bounds(s, lo, hi);
    lemma_skip_ws_bounds(s, crate::text::skip_ws(s, lo, hi), hi);
}

proof fn lemma_line_ranges_valid(s: Seq<char>, lo: int)
    requires
        0 <= lo,
    ensures
        forall|x: int| 0 <= x < line_ranges(s, lo).len() ==> lo <= (#[trigger] line_ranges(s, lo)[x]).0 <= line_ranges(s, lo)[x].1 <= s.len(),
    decreases s.len() - lo,
{
    if lo < s.len() {
        crate::text::lemma_find_bounds(s, lo, s.len() as int, '\n');
        match find_char(s, lo, s.len() as int, '\n') {
            None => {},
            Some(j) => {
                lemma_line_ranges_valid(s, j + 1);
                let e = if j > lo && s[j - 1] == '\r' { j - 1 } else { j };
                let head = seq![(lo, e)];
                let rest = line_ranges(s, j + 1);
                assert(line_ranges(s, lo) == head + rest);
                assert forall|x: int| 0 <= x < (head + rest).len() implies lo <= (#[trigger] (head + rest)[x]).0 <= (head + rest)[x].1 <= s.len() by {
                    if x > 0 {
                        assert((head + rest)[x] == rest[x - 1]);
                    }
                }
            },
        }
    }
}

/// The lines a chart body passes over are never `&key=value` lines.
proof fn lemma_chart_body_skips(t: Seq<char>, ls: Seq<(int, int)>, j: int)
    requires
        valid_ranges(t, ls),
        0 <= j <= ls.len(),
    ensures
        forall|x: int| j <= x < chart_body(t, ls, j).1 ==> key_line(t, #[trigger] ls[x]) is None,
    decreases ls.len() - j,
{
    if j < ls.len() {
        let (a, b) = trim_range(t, ls[j].0, ls[j].1);
        lemma_trim_bounds(t, ls[j].0, ls[j].1);
        let n = t.subrange(a, b);
        if a < b {
            assert(n[0] == t[a]);
        }
        lemma_chart_body_skips(t, ls, j + 1);
        lemma_chart_body_next(t, ls, j + 1);
    }
}

/// The text of a line once trimmed.
pub open spec fn trimmed(t: Seq<char>, r: (int, int)) -> Seq<char> {
    t.subrange(trim_range(t, r.0, r.1).0, trim_range(t, r.0, r.1).1)
}

/// The `value` of a line `&key=value`.
pub open spec fn line_value(t: Seq<char>, ls: Seq<(int, int)>, j: int) -> Seq<char> {
    match key_line(t, ls[j]) {
        Some(p) => p.1,
        None => seq![],
    }
}

/// What chart line `j` (`&inote_n=value`) holds: `value` when it is not
/// empty, then the body that follows it.
pub open spec fn chart_entry(t: Seq<char>, ls: Seq<(int, int)>, j: int) -> Seq<Seq<char>> {
    let value = line_value(t, ls, j);
    let body = chart_body(t, ls, j + 1).0;
    if value.len() > 0 { seq![value] + body } else { body }
}

/// Law: a chart body reads line after line: a line that trims to `E`, `E,`
/// or `e` ends it and is consumed without being kept; a line starting with
/// `&` ends it and is left for the next key; a blank line is skipped; any
/// other line is kept as it is written (untrimmed).
pub proof fn lemma_chart_body_lines(t: Seq<char>, ls: Seq<(int, int)>, j: int)
    requires
        valid_ranges(t, ls),
        0 <= j < ls.len(),
    ensures
        trimmed(t, ls[j]) == seq!['E'] || trimmed(t, ls[j]) == seq!['E', ','] || trimmed(t, ls[j]) == seq!['e']
            ==> chart_body(t, ls, j) == (Seq::<Seq<char>>::empty(), j + 1),
        trimmed(t, ls[j]).len() > 0 && trimmed(t, ls[j])[0] == '&' ==> chart_body(t, ls, j) == (Seq::<Seq<char>>::empty(), j),
        trimmed(t, ls[j]).len() == 0 ==> chart_body(t, ls, j) == chart_body(t, ls, j + 1),
        !(trimmed(t, ls[j]) == seq!['E'] || trimmed(t, ls[j]) == seq!['E', ','] || trimmed(t, ls[j]) == seq!['e'])
            && trimmed(t, ls[j]).len() > 0 && trimmed(t, ls[j])[0] != '&'
            ==> chart_body(t, ls, j) == (seq![t.subrange(ls[j].0, ls[j].1)] + chart_body(t, ls, j + 1).0, chart_body(t, ls, j + 1).1),
{
    let (a, b) = trim_range(t, ls[j].0, ls[j].1);
    lemma_trim_bounds(t, ls[j].0, ls[j].1);
    let n = t.subrange(a, b);
    assert(n.len() == b - a);
    if a < b {
        assert(n[0] == t[a]);
    }
    if n.len() == 1 {
        assert(ascii_lower(n[0]) == 'e' <==> (n[0] == 'e' || n[0] == 'E'));
        if n[0] == 'e' {
            assert(n =~= seq!['e']);
        }
        if n[0] == 'E' {
            assert(n =~= seq!['E']);
        }
    }
}

proof fn lemma_md_lines_sources(
    t: Seq<char>,
    ls: Seq<(int, int)>,
    i: int,
    acc: MaidataView,
    k: Seq<char>,
    v: Seq<char>,
    n: u8,
    m: int,
    j: int,
)
    requires
        valid_ranges(t, ls),
        0 <= i,
    ensures
        md_lines(t, ls, i, acc).meta.len() >= acc.meta.len(),
        0 <= m < acc.meta.len() ==> md_lines(t, ls, i, acc).meta[m] == acc.meta[m],
        acc.meta.len() <= m < md_lines(t, ls, i, acc).meta.len() ==> exists|x: int|
            i <= x && #[trigger] meta_line(t, ls, x, md_lines(t, ls, i, acc).meta[m].0, md_lines(t, ls, i, acc).meta[m].1),
        md_lines(t, ls, i, acc).charts.contains_key(n) <==> (acc.charts.contains_key(n) || exists|x: int| i <= x && #[trigger] chart_line(t, ls, x, n)),
        i <= j && meta_line(t, ls, j, k, v) && (forall|x: int, w: Seq<char>| j < x && #[trigger] meta_line(t, ls, x, k, w) ==> false)
            ==> meta_get(md_lines(t, ls, i, acc).meta, k) == Some(v),
        (forall|x: int, w: Seq<char>| i <= x ==> !#[trigger] meta_line(t, ls, x, k, w))
            ==> meta_get(md_lines(t, ls, i, acc).meta, k) == meta_get(acc.meta, k),
        acc.charts.contains_key(n) && (forall|x: int| i <= x ==> !#[trigger] chart_line(t, ls, x, n))
            ==> md_lines(t, ls, i, acc).charts[n] == acc.charts[n],
        i <= j && chart_line(t, ls, j, n) && (forall|x: int| j < x ==> !#[trigger] chart_line(t, ls, x, n))
            ==> md_lines(t, ls, i, acc).charts.contains_key(n) && md_lines(t, ls, i, acc).charts[n] == chart_entry(t, ls, j),
    decreases ls.len() - i,
{
    if i >= ls.len() {
        return;
    }
    let r = md_lines(t, ls, i, acc);
    let (a, b) = trim_range(t, ls[i].0, ls[i].1);
    if a >= b || t[a] != '&' {
        assert(key_line(t, ls[i]) is None);
        lemma_md_lines_sources(t, ls, i + 1, acc, k, v, n, m, j);
        assert(r == md_lines(t, ls, i + 1, acc));
        assert(forall|x: int, w: Seq<char>| #[trigger] meta_line(t, ls, x, k, w) && i <= x ==> i + 1 <= x);
        assert(forall|x: int| #[trigger] chart_line(t, ls, x, n) && i <= x ==> i + 1 <= x);
        return;
    }
    match find_char(t, a + 1, b, '=') {
        None => {
            assert(key_line(t, ls[i]) is None);
            lemma_md_lines_sources(t, ls, i + 1, acc, k, v, n, m, j);
            assert(forall|x: int, w: Seq<char>| #[trigger] meta_line(t, ls, x, k, w) && i <= x ==> i + 1 <= x);
            assert(forall|x: int| #[trigger] chart_line(t, ls, x, n) && i <= x ==> i + 1 <= x);
        },
        Some(eq) => {
            let key = t.subrange(a + 1, eq);
            let value = t.subrange(eq + 1, b);
            assert(key_line(t, ls[i]) == Some((key, value)));
            if key.len() >= 6 && key.take(6) == inote_prefix() {
                assert(!meta_line(t, ls, i, k, v));
                match parse_unsigned(key.skip(6), 255) {
                    Some(idx) => {
                        let (body, next) = chart_body(t, ls, i + 1);
                        let ms = if value.len() > 0 { seq![value] + body } else { body };
                        lemma_chart_body_next(t, ls, i + 1);
                        lemma_chart_body_skips(t, ls, i + 1);
                        let acc2 = MaidataView { meta: acc.meta, charts: acc.charts.insert(idx as u8, ms) };
                        assert(r == md_lines(t, ls, next, acc2));
                        lemma_md_lines_sources(t, ls, next, acc2, k, v, n, m, j);
                        assert(chart_line(t, ls, i, idx as u8));
                        assert(forall|x: int, w: Seq<char>| #[trigger] meta_line(t, ls, x, k, w) && i <= x ==> next <= x);
                        assert(forall|x: int| #[trigger] chart_line(t, ls, x, n) && i < x ==> next <= x);
                        if acc2.charts.contains_key(n) && !acc.charts.contains_key(n) {
                            assert(n == idx as u8);
                        }
                        assert(forall|x: int| #[trigger] chart_line(t, ls, x, n) && j < x && i <= j ==> next <= x);
                        if i == j && chart_line(t, ls, j, n) && (forall|x: int| j < x ==> !#[trigger] chart_line(t, ls, x, n)) {
                            assert(n == idx as u8);
                            assert(forall|x: int| next <= x ==> !#[trigger] chart_line(t, ls, x, n));
                            assert(acc2.charts[n] == ms);
                            assert(ms == chart_entry(t, ls, j));
                        }
                        if acc.charts.contains_key(n) && (forall|x: int| i <= x ==> !#[trigger] chart_line(t, ls, x, n)) {
                            assert(n != idx as u8);
                            assert(forall|x: int| next <= x ==> !#[trigger] chart_line(t, ls, x, n));
                        }
                        if exists|x: int| i <= x && #[trigger] chart_line(t, ls, x, n) {
                            let x = choose|x: int| i <= x && #[trigger] chart_line(t, ls, x, n);
                            if x == i {
                                assert(n == idx as u8);
                            }
                        }
                    },
                    None => {
                        assert(!chart_line(t, ls, i, n));
                        lemma_md_lines_sources(t, ls, i + 1, acc, k, v, n, m, j);
                        assert(forall|x: int, w: Seq<char>| #[trigger] meta_line(t, ls, x, k, w) && i <= x ==> i + 1 <= x);
                        assert(forall|x: int| #[trigger] chart_line(t, ls, x, n) && i <= x ==> i + 1 <= x);
                    },
                }
            } else {
                let acc2 = MaidataView { meta: acc.meta.push((key, value)), charts: acc.charts };
                assert(r == md_lines(t, ls, i + 1, acc2));
                lemma_md_lines_sources(t, ls, i + 1, acc2, k, v, n, m, j);
                assert(meta_line(t, ls, i, key, value));
                assert(chart_index(key) is None);
                assert(!chart_line(t, ls, i, n));
                assert(forall|x: int| #[trigger] chart_line(t, ls, x, n) && i <= x ==> i + 1 <= x);
                assert(acc2.meta.drop_last() =~= acc.meta);
                if acc.meta.len() <= m < r.meta.len() {
                    if m == acc.meta.len() {
                        assert(r.meta[m] == (key, value));
                        assert(meta_line(t, ls, i, r.meta[m].0, r.meta[m].1));
                    } else {
                        let x = choose|x: int| i + 1 <= x && #[trigger] meta_line(t, ls, x, r.meta[m].0, r.meta[m].1);
                        assert(meta_line(t, ls, x, r.meta[m].0, r.meta[m].1));
                    }
                }
                if i == j && meta_line(t, ls, j, k, v) && (forall|x: int, w: Seq<char>| j < x && #[trigger] meta_line(t, ls, x, k, w) ==> false) {
                    assert(k == key && v == value);
                    assert(forall|x: int, w: Seq<char>| i + 1 <= x ==> !#[trigger] meta_line(t, ls, x, k, w));
                }
                if forall|x: int, w: Seq<char>| i <= x ==> !#[trigger] meta_line(t, ls, x, k, w) {
                    assert(!meta_line(t, ls, i, key, value) || key != k);
                }
            }
        },
    }
}

/// The lines of a text, as `str::lines` gives them.
pub open spec fn file_lines(t: Seq<char>) -> Seq<(int, int)> {
    line_ranges(t, 0)
}

/// Law: everything a parse keeps comes from a line that reads `&key=value`
/// once trimmed. Each metadata pair is such a line whose key does not start
/// with `inote_`; chart `n` is there exactly when a line `&inote_n=` is; the
/// value of a key is that of its last line, and a key without a line has
/// none.
pub proof fn lemma_parse_sources(t: Seq<char>, k: Seq<char>, v: Seq<char>, n: u8, m: int, j: int)
    ensures
        0 <= m < maidata_spec(t).meta.len() ==> exists|x: int|
            #[trigger] meta_line(t, file_lines(t), x, maidata_spec(t).meta[m].0, maidata_spec(t).meta[m].1),
        maidata_spec(t).charts.contains_key(n) <==> exists|x: int| #[trigger] chart_line(t, file_lines(t), x, n),
        meta_line(t, file_lines(t), j, k, v) && (forall|x: int, w: Seq<char>| j < x && #[trigger] meta_line(t, file_lines(t), x, k, w) ==> false)
            ==> meta_get(maidata_spec(t).meta, k) == Some(v),
        (forall|x: int, w: Seq<char>| !#[trigger] meta_line(t, file_lines(t), x, k, w)) ==> meta_get(maidata_spec(t).meta, k) is None,
{
    let ls = file_lines(t);
    lemma_line_ranges_valid(t, 0);
    let acc = MaidataView { meta: seq![], charts: Map::empty() };
    lemma_md_lines_sources(t, ls, 0, acc, k, v, n, m, j);
    if meta_line(t, ls, j, k, v) {
        assert(0 <= j);
    }
    if exists|x: int| #[trigger] chart_line(t, ls, x, n) {
        let x = choose|x: int| #[trigger] chart_line(t, ls, x, n);
        assert(0 <= x && chart_line(t, ls, x, n));
    }
    if forall|x: int, w: Seq<char>| !#[trigger] meta_line(t, ls, x, k, w) {
        assert(forall|x: int, w: Seq<char>| 0 <= x ==> !#[trigger] meta_line(t, ls, x, k, w));
    }
}

/// Law: chart `n` holds what its last `&inote_n=` line brings: the value
/// after `=` when it is not empty, then the body lines that follow. When the
/// next line is an end line (`E`, `E,` or `e` once trimmed), the chart holds
/// nothing more than that value.
pub proof fn lemma_chart_block(t: Seq<char>, n: u8, j: int)
    requires
        chart_line(t, file_lines(t), j, n),
        forall|x: int| j < x ==> !#[trigger] chart_line(t, file_lines(t), x, n),
    ensures
        maidata_spec(t).charts.contains_key(n),
        maidata_spec(t).charts[n] == chart_entry(t, file_lines(t), j),
        j + 1 < file_lines(t).len() && (trimmed(t, file_lines(t)[j + 1]) == seq!['E']
            || trimmed(t, file_lines(t)[j + 1]) == seq!['E', ',']
            || trimmed(t, file_lines(t)[j + 1]) == seq!['e'])
            ==> maidata_spec(t).charts[n] == (if line_value(t, file_lines(t), j).len() > 0 {
                seq![line_value(t, file_lines(t), j)]
            } else {
                Seq::<Seq<char>>::empty()
            }),
{
    let ls = file_lines(t);
    lemma_line_ranges_valid(t, 0);
    let acc = MaidataView { meta: seq![], charts: Map::empty() };
    lemma_md_lines_sources(t, ls, 0, acc, seq![], seq![], n, 0, j);
    if j + 1 < ls.len() {
        lemma_chart_body_lines(t, ls, j + 1);
    }
    let value = line_value(t, ls, j);
    if value.len() > 0 {
        assert(seq![value] + Seq::<Seq<char>>::empty() =~= seq![value]);
    }
}

/// The characters `t[lo..hi]`.
pub fn copy_range(t: &Vec<char>, lo: usize, hi: usize) -> (r: Vec<char>)
    requires
        lo <= hi <= t.len(),
    ensures
        r@ == t@.subrange(lo as int, hi as int),
{
    let mut r: Vec<char> = Vec::new();
    let mut k = lo;
    while k < hi
        invariant
            lo <= k <= hi <= t.len(),
            r@ =~= t@.subrange(lo as int, k as int),
        decreases hi - k,
    {
        r.push(t[k]);
        k = k + 1;
    }
    r
}

pub open spec fn ranges_view(ls: Seq<(usize, usize)>) -> Seq<(int, int)> {
    ls.map_values(|p: (usize, usize)| (p.0 as int, p.1 as int))
}

fn is_end_marker(t: &Vec<char>, a: usize, b: usize) -> (r: bool)
    requires
        a <= b <= t.len(),
    ensures
        r == (t@.subrange(a as int, b as int) == seq!['E', ','] || (b - a == 1 && ascii_lower(t@[a as int]) == 'e')),
{
    let ghost n = t@.subrange(a as int, b as int);
    if b - a == 2 {
        let r = t[a] == 'E' && t[a + 1] == ',';
        proof {
            if r {
                assert(n =~= seq!['E', ',']);
            } else {
                assert(n[0] == t@[a as int] && n[1] == t@[a + 1]);
            }
        }
        r
    } else if b - a == 1 {
        eq_ignore_case(t[a], 'e')
    } else {
        assert(n.len() != 2);
        false
    }
}

fn read_chart_body(t: &Vec<char>, ls: &Vec<(usize, usize)>, j: usize) -> (r: (Vec<Vec<char>>, usize))
    requires
        j <= ls.len(),
        forall|k: int| 0 <= k < ls.len() ==> (#[trigger] ls[k]).0 <= ls[k].1 <= t.len(),
    ensures
        measures_view(r.0@) == chart_body(t@, ranges_view(ls@), j as int).0,
        r.1 as int == chart_body(t@, ranges_view(ls@), j as int).1,
        j <= r.1 <= ls.len(),
{
    let ghost lsv = ranges_view(ls@);
    let ghost target = chart_body(t@, lsv, j as int);
    let mut body: Vec<Vec<char>> = Vec::new();
    let mut k = j;
    assert(measures_view(body@) + target.0 =~= target.0);
    while k < ls.len()
        invariant
            j <= k <= ls.len(),
            lsv == ranges_view(ls@),
            target == chart_body(t@, lsv, j as int),
            forall|q: int| 0 <= q < ls.len() ==> (#[trigger] ls[q]).0 <= ls[q].1 <= t.len(),
            measures_view(body@) + chart_body(t@, lsv, k as int).0 == target.0,
            chart_body(t@, lsv, k as int).1 == target.1,
        decreases ls.len() - k,
    {
        let (lo, hi) = ls[k];
        assert(lsv[k as int] == (lo as int, hi as int));
        let (a, b) = trim(t, lo, hi);
        if is_end_marker(t, a, b) {
            assert(measures_view(body@) + seq![] =~= measures_view(body@));
            return (body, k + 1);
        }
        if a < b && t[a] == '&' {
            assert(measures_view(body@) + seq![] =~= measures_view(body@));
            return (body, k);
        }
        let ghost before = measures_view(body@);
        let ghost rest = chart_body(t@, lsv, k + 1);
        if a < b {
            let line = copy_range(t, lo, hi);
            body.push(line);
            assert(measures_view(body@) =~= before.push(t@.subrange(lo as int, hi as int)));
            assert(measures_view(body@) + rest.0 =~= before + (seq![t@.subrange(lo as int, hi as int)] + rest.0));
        }
        k = k + 1;
    }
    assert(measures_view(body@) + seq![] =~= measures_view(body@));
    (body, k)
}

spec fn charts_view(c: Seq<Option<Vec<Vec<char>>>>) -> Map<u8, Seq<Seq<char>>> {
    Map::new(
        |d: u8| (d as int) < c.len() && c[d as int] is Some,
        |d: u8| measures_view(c[d as int]->0@),
    )
}

/// Parse maidata text given as characters.
#[verifier::rlimit(60)]
pub fn parse_chars(t: &Vec<char>) -> (r: Maidata)
    ensures
        r@ == maidata_spec(t@),
        r.wf(),
{
    let ls = lines(t);
    let ghost lsv = ranges_view(ls@);
    assert(lsv == line_ranges(t@, 0));
    let mut meta: Vec<(Vec<char>, Vec<char>)> = Vec::new();
    let mut charts: Vec<Option<Vec<Vec<char>>>> = Vec::new();
    let mut n: usize = 0;
    while n < 256
        invariant
            n <= 256,
            charts.len() == n,
            forall|d: int| 0 <= d < n ==> charts@[d] is None,
        decreases 256 - n,
    {
        charts.push(None);
        n = n + 1;
    }
    let ghost target = maidata_spec(t@);
    assert(charts_view(charts@) =~= Map::<u8, Seq<Seq<char>>>::empty());
    assert(pairs_view(meta@) =~= Seq::<(Seq<char>, Seq<char>)>::empty());
    let inote = vec!['i', 'n', 'o', 't', 'e', '_'];
    assert(inote@ =~= inote_prefix());
    let mut i: usize = 0;
    while i < ls.len()
        invariant
            i <= ls.len(),
            lsv == ranges_view(ls@),
            inote@ == inote_prefix(),
            target == maidata_spec(t@),
            charts.len() == 256,
            forall|k: int| 0 <= k < ls.len() ==> (#[trigger] ls[k]).0 <= ls[k].1 <= t.len(),
            md_lines(t@, lsv, i as int, MaidataView { meta: pairs_view(meta@), charts: charts_view(charts@) }) == target,
        decreases ls.len() - i,
    {
        let (lo, hi) = ls[i];
        assert(lsv[i as int] == (lo as int, hi as int));
        let (a, b) = trim(t, lo, hi);
        if a >= b || t[a] != '&' {
            i = i + 1;
            continue;
        }
        proof {
            crate::text::lemma_find_bounds(t@, a + 1, b as int, '=');
        }
        match find(t, a + 1, b, '=') {
            None => {
                i = i + 1;
            },
            Some(eq) => {
                let ghost key = t@.subrange(a + 1, eq as int);
                let is_inote = eq - (a + 1) >= 6 && crate::text::range_is(t, a + 1, a + 7, &inote);
                assert(is_inote == (key.len() >= 6 && key.take(6) == inote_prefix())) by {
                    if eq - (a + 1) >= 6 {
                        assert(key.take(6) =~= t@.subrange(a + 1, a + 7));
                    }
                };
                if is_inote {
                    assert(key.skip(6) =~= t@.subrange(a + 7, eq as int));
                    match parse_uint(t, a + 7, eq, 255) {
                        Some(idx) => {
                            let ghost value = t@.subrange(eq + 1, b as int);
                            let (body, next) = read_chart_body(t, &ls, i + 1);
                            let mut ms: Vec<Vec<char>> = Vec::new();
                            if eq + 1 < b {
                                ms.push(copy_range(t, eq + 1, b));
                            }
                            let ghost msv0 = measures_view(ms@);
                            let mut q: usize = 0;
                            let ghost bv = measures_view(body@);
                            while q < body.len()
                                invariant
                                    q <= body.len(),
                                    bv == measures_view(body@),
                                    measures_view(ms@) =~= msv0 + bv.take(q as int),
                                decreases body.len() - q,
                            {
                                let ghost before = measures_view(ms@);
                                ms.push(body[q].clone());
                                assert(bv.take(q + 1) =~= bv.take(q as int).push(bv[q as int]));
                                assert(measures_view(ms@) =~= before.push(bv[q as int]));
                                q = q + 1;
                            }
                            assert(bv.take(body.len() as int) =~= bv);
                            assert(measures_view(ms@) =~= (if value.len() > 0 { seq![value] + bv } else { bv }));
                            let ghost old_charts = charts_view(charts@);
                            charts.set(idx as usize, Some(ms));
                            assert(charts_view(charts@) =~= old_charts.insert(idx as u8, measures_view(ms@)));
                            i = next;
                        },
                        None => {
                            i = i + 1;
                        },
                    }
                } else {
                    let k = copy_range(t, a + 1, eq);
                    let v = copy_range(t, eq + 1, b);
                    let ghost old_meta = pairs_view(meta@);
                    meta.push((k, v));
                    assert(pairs_view(meta@) =~= old_meta.push((t@.subrange(a + 1, eq as int), t@.subrange(eq + 1, b as int))));
                    i = i + 1;
                }
            },
        }
    }
    let md = Maidata { meta, charts };
    assert(md@.charts =~= charts_view(md.charts@));
    md
}

/// Parse maidata text.
pub fn parse(text: &str) -> (r: Maidata)
    ensures
        r@ == maidata_spec(text@),
        r.wf(),
{
    let t = chars_of(text);
    parse_chars(&t)
}

pub open spec fn key_title() -> Seq<char> {
    seq!['t', 'i', 't', 'l', 'e']
}

pub open spec fn key_wholebpm() -> Seq<char> {
    seq!['w', 'h', 'o', 'l', 'e', 'b', 'p', 'm']
}

/// `lv_N` and `des_N` for a digit N.
pub open spec fn key_level(i: u8) -> Seq<char> {
    seq!['l', 'v', '_', (('0' as u32) + (i as u32)) as char]
}

pub open spec fn key_charter(i: u8) -> Seq<char> {
    seq!['d', 'e', 's', '_', (('0' as u32) + (i as u32)) as char]
}

pub open spec fn or_empty(v: Option<Seq<char>>) -> Seq<char> {
    match v {
        Some(x) => x,
        None => seq![],
    }
}

fn same_chars(a: &Vec<char>, b: &Vec<char>) -> (r: bool)
    ensures
        r == (a@ == b@),
{
    assert(a@.subrange(0, a.len() as int) =~= a@);
    crate::text::range_is(a, 0, a.len(), b)
}

/// The decimal digit for `i` in 0..=9.
fn digit_char(i: u8) -> (c: char)
    requires
        i <= 9,
    ensures
        c == (('0' as u32) + (i as u32)) as char,
{
    if i == 0 { '0' } else if i == 1 { '1' } else if i == 2 { '2' } else if i == 3 { '3' } else if i == 4 { '4' } else if i == 5 { '5' } else if i == 6 { '6' } else if i == 7 { '7' } else if i == 8 { '8' } else { '9' }
}

impl Maidata {
    /// The value of the last `key` pair, if any.
    pub fn meta_value(&self, key: &Vec<char>) -> (r: Option<&Vec<char>>)
        ensures
            r matches Some(v) ==> meta_get(self@.meta, key@) == Some(v@),
            r is None ==> meta_get(self@.meta, key@) is None,
    {
        let ghost all = self@.meta;
        let mut k = self.meta.len();
        assert(all.take(k as int) =~= all);
        while k > 0
            invariant
                k <= self.meta.len(),
                all == pairs_view(self.meta@),
                meta_get(all, key@) == meta_get(all.take(k as int), key@),
            decreases k,
        {
            let ghost pre = all.take(k as int);
            assert(pre.last() == (self.meta@[k - 1].0@, self.meta@[k - 1].1@));
            assert(pre.drop_last() =~= all.take(k - 1));
            if same_chars(&self.meta[k - 1].0, key) {
                return Some(&self.meta[k - 1].1);
            }
            k = k - 1;
        }
        assert(all.take(0) =~= Seq::<(Seq<char>, Seq<char>)>::empty());
        None
    }

    /// The `title` value, or the empty string.
    pub fn title(&self) -> (r: String)
        ensures
            r@ == or_empty(meta_get(self@.meta, key_title())),
    {
        let key = vec!['t', 'i', 't', 'l', 'e'];
        assert(key@ =~= key_title());
        match self.meta_value(&key) {
            Some(v) => string_of(v.as_slice()),
            None => string_of(&[]),
        }
    }

    /// The `wholebpm` value when it is a number (the text of that number).
    pub fn whole_bpm(&self) -> (r: Option<Vec<char>>)
        ensures
            r matches Some(v) ==> meta_get(self@.meta, key_wholebpm()) == Some(v@) && is_float_literal(v@),
            r is None ==> !(meta_get(self@.meta, key_wholebpm()) matches Some(v) && is_float_literal(v)),
    {
        let key = vec!['w', 'h', 'o', 'l', 'e', 'b', 'p', 'm'];
        assert(key@ =~= key_wholebpm());
        match self.meta_value(&key) {
            Some(v) => {
                assert(v@.subrange(0, v.len() as int) =~= v@);
                if float_literal(v, 0, v.len()).is_some() {
                    Some(v.clone())
                } else {
                    None
                }
            },
            None => None,
        }
    }

    /// The measure lines of chart `difficulty`, if present.
    pub fn chart(&self, difficulty: u8) -> (r: Option<&Vec<Vec<char>>>)
        requires
            self.wf(),
        ensures
            r matches Some(v) ==> self@.charts.contains_key(difficulty) && self@.charts[difficulty] == measures_view(v@),
            r is None ==> !self@.charts.contains_key(difficulty),
    {
        match &self.charts[difficulty as usize] {
            Some(v) => Some(v),
            None => None,
        }
    }

    /// Difficulty info for all six slots, in order, marking which are
    /// present.
    pub fn difficulties(&self) -> (r: Vec<DifficultyInfo>)
        requires
            self.wf(),
        ensures
            r.len() == 6,
            forall|k: int| 0 <= k < 6 ==> {
                let i = (k + 1) as u8;
                let d = #[trigger] r@[k];
                &&& d.index == i
                &&& d.name@ == difficulty_name_spec(i)
                &&& d.level@ == or_empty(meta_get(self@.meta, key_level(i)))
                &&& d.charter@ == or_empty(meta_get(self@.meta, key_charter(i)))
                &&& d.present == self@.charts.contains_key(i)
            },
    {
        let mut r: Vec<DifficultyInfo> = Vec::new();
        let mut i: u8 = 1;
        while i <= 6
            invariant
                1 <= i <= 7,
                self.wf(),
                r.len() == i - 1,
                forall|k: int| 0 <= k < i - 1 ==> {
                    let i = (k + 1) as u8;
                    let d = #[trigger] r@[k];
                    &&& d.index == i
                    &&& d.name@ == difficulty_name_spec(i)
                    &&& d.level@ == or_empty(meta_get(self@.meta, key_level(i)))
                    &&& d.charter@ == or_empty(meta_get(self@.meta, key_charter(i)))
                    &&& d.present == self@.charts.contains_key(i)
                },
            decreases 7 - i,
        {
            let digit = digit_char(i);
            let lk = vec!['l', 'v', '_', digit];
            let dk = vec!['d', 'e', 's', '_', digit];
            assert(lk@ =~= key_level(i));
            assert(dk@ =~= key_charter(i));
            let level = match self.meta_value(&lk) {
                Some(v) => string_of(v.as_slice()),
                None => string_of(&[]),
            };
            let charter = match self.meta_value(&dk) {
                Some(v) => string_of(v.as_slice()),
                None => string_of(&[]),
            };
            let present = self.chart(i).is_some();
            r.push(DifficultyInfo { index: i, name: difficulty_name(i), level, charter, present });
            i = i + 1;
        }
        r
    }
}

} // verus!
