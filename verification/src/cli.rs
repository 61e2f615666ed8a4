//! Choosing the difficulty to play.

use vstd::prelude::*;
use crate::maidata::Maidata;
use crate::text::{chars_of, parse_uint, parse_unsigned, trim, trim_range};

verus! {

/// What to do before (or instead of) asking the user.
#[derive(Clone, Copy, Debug, PartialEq, Eq, Structural)]
pub enum Choice {
    /// Play this difficulty.
    Play(u8),
    /// There is no chart at all.
    NoCharts,
    /// Several charts: show the menu and ask.
    Ask,
}

/// How many of the difficulties `1..=k` have a chart.
pub open spec fn present_upto(md: Maidata, k: int) -> nat
    decreases k,
{
    if k <= 0 {
        0
    } else {
        present_upto(md, k - 1) + if md@.charts.contains_key(k as u8) { 1nat } else { 0nat }
    }
}

/// The first present difficulty among `1..=k`, if any.
pub open spec fn first_present(md: Maidata, k: int) -> Option<u8>
    decreases k,
{
    if k <= 0 {
        None
    } else {
        match first_present(md, k - 1) {
            Some(d) => Some(d),
            None => if md@.charts.contains_key(k as u8) { Some(k as u8) } else { None },
        }
    }
}

/// The choice: a requested difficulty that has a chart is played;
/// otherwise, with no chart among 1..=6 there is nothing to play, with one
/// it is played, with more the user is asked. The flag says whether a
/// requested difficulty was missing (to be reported).
pub open spec fn choose_spec(md: Maidata, requested: Option<u8>) -> (Choice, bool) {
    match requested {
        Some(d) if md@.charts.contains_key(d) => (Choice::Play(d), false),
        _ => {
            let missing = requested is Some;
            let n = present_upto(md, 6);
            if n == 0 {
                (Choice::NoCharts, missing)
            } else if n == 1 {
                (Choice::Play(first_present(md, 6)->0), missing)
            } else {
                (Choice::Ask, missing)
            }
        },
    }
}

pub proof fn lemma_first_present(md: Maidata, k: int)
    requires
        k <= 255,
    ensures
        (present_upto(md, k) > 0) == (first_present(md, k) is Some),
        first_present(md, k) matches Some(d) ==> md@.charts.contains_key(d) && 1 <= d <= k,
    decreases k,
{
    if k > 0 {
        lemma_first_present(md, k - 1);
    }
}

proof fn lemma_present_one(md: Maidata, d: int, k: int)
    requires
        1 <= d <= k <= 255,
        md@.charts.contains_key(d as u8),
    ensures
        present_upto(md, k) >= 1,
    decreases k,
{
    if k > d {
        lemma_present_one(md, d, k - 1);
    }
}

proof fn lemma_present_two(md: Maidata, d1: int, d2: int, k: int)
    requires
        1 <= d1 < d2 <= k <= 255,
        md@.charts.contains_key(d1 as u8),
        md@.charts.contains_key(d2 as u8),
    ensures
        present_upto(md, k) >= 2,
    decreases k,
{
    if k > d2 {
        lemma_present_two(md, d1, d2, k - 1);
    } else {
        lemma_present_one(md, d1, d2 - 1);
    }
}

proof fn lemma_present_only(md: Maidata, d: int, k: int)
    requires
        1 <= d <= k <= 255,
        md@.charts.contains_key(d as u8),
        forall|e: int| 1 <= e <= k && e != d ==> !md@.charts.contains_key(#[trigger] (e as u8)),
    ensures
        present_upto(md, k) == 1,
        first_present(md, k) == Some(d as u8),
    decreases k,
{
    if k > d {
        lemma_present_only(md, d, k - 1);
        assert(!md@.charts.contains_key(k as u8));
    } else {
        lemma_present_none(md, d - 1);
    }
}

proof fn lemma_present_none(md: Maidata, k: int)
    requires
        0 <= k <= 255,
        forall|e: int| 1 <= e <= k ==> !md@.charts.contains_key(#[trigger] (e as u8)),
    ensures
        present_upto(md, k) == 0,
        first_present(md, k) is None,
    decreases k,
{
    if k > 0 {
        lemma_present_none(md, k - 1);
        assert(!md@.charts.contains_key(k as u8));
    }
}

/// Law: a requested difficulty with a chart is played as asked. Otherwise
/// the missing request is reported, and: with two charts among 1..=6 the
/// user is asked (never a silent pick); with exactly one, that one is
/// played; with none, there is nothing to play. A choice to play always
/// names a difficulty that has a chart.
pub proof fn lemma_choice_rules(md: Maidata, requested: Option<u8>, d1: u8, d2: u8)
    ensures
        (requested matches Some(d) && md@.charts.contains_key(d)) ==> choose_spec(md, requested) == (Choice::Play(requested->0), false),
        !(requested matches Some(d) && md@.charts.contains_key(d)) ==> choose_spec(md, requested).1 == (requested is Some),
        !(requested matches Some(d) && md@.charts.contains_key(d)) && 1 <= d1 < d2 <= 6 && md@.charts.contains_key(d1) && md@.charts.contains_key(d2)
            ==> choose_spec(md, requested).0 == Choice::Ask,
        !(requested matches Some(d) && md@.charts.contains_key(d)) && 1 <= d1 <= 6 && md@.charts.contains_key(d1)
            && (forall|e: u8| 1 <= e <= 6 && e != d1 ==> !md@.charts.contains_key(e))
            ==> choose_spec(md, requested).0 == Choice::Play(d1),
        !(requested matches Some(d) && md@.charts.contains_key(d)) && (forall|e: u8| 1 <= e <= 6 ==> !md@.charts.contains_key(e))
            ==> choose_spec(md, requested).0 == Choice::NoCharts,
        choose_spec(md, requested).0 matches Choice::Play(d) ==> md@.charts.contains_key(d),
{
    lemma_first_present(md, 6);
    if 1 <= d1 < d2 <= 6 && md@.charts.contains_key(d1) && md@.charts.contains_key(d2) {
        lemma_present_two(md, d1 as int, d2 as int, 6);
    }
    if 1 <= d1 <= 6 && md@.charts.contains_key(d1) && (forall|e: u8| 1 <= e <= 6 && e != d1 ==> !md@.charts.contains_key(e)) {
        assert forall|e: int| 1 <= e <= 6 && e != d1 implies !md@.charts.contains_key(#[trigger] (e as u8)) by {
            assert(1 <= (e as u8) <= 6 && (e as u8) != d1);
        }
        lemma_present_only(md, d1 as int, 6);
    }
    if forall|e: u8| 1 <= e <= 6 ==> !md@.charts.contains_key(e) {
        assert forall|e: int| 1 <= e <= 6 implies !md@.charts.contains_key(#[trigger] (e as u8)) by {
            assert(1 <= (e as u8) <= 6);
        }
        lemma_present_none(md, 6);
    }
}

/// Decide which difficulty to play without asking, when that can be
/// decided.
pub fn choose_difficulty(md: &Maidata, requested: Option<u8>) -> (r: (Choice, bool))
    requires
        md.wf(),
    ensures
        r == choose_spec(*md, requested),
{
    if let Some(d) = requested {
        if md.chart(d).is_some() {
            return (Choice::Play(d), false);
        }
    }
    let missing = requested.is_some();
    let mut n: u8 = 0;
    let mut first: Option<u8> = None;
    let mut k: u8 = 1;
    while k <= 6
        invariant
            1 <= k <= 7,
            md.wf(),
            n as nat == present_upto(*md, k - 1),
            first == first_present(*md, k - 1),
            n < k,
        decreases 7 - k,
    {
        if md.chart(k).is_some() {
            n = n + 1;
            if first.is_none() {
                first = Some(k);
            }
        }
        k = k + 1;
    }
    proof {
        lemma_first_present(*md, 6);
    }
    if n == 0 {
        (Choice::NoCharts, missing)
    } else if n == 1 {
        (Choice::Play(first.unwrap()), missing)
    } else {
        (Choice::Ask, missing)
    }
}

/// The menu answer: the input, trimmed, read as a `u8` that has a chart.
pub open spec fn pick_spec(md: Maidata, input: Seq<char>) -> Option<u8> {
    let (a, b) = trim_range(input, 0, input.len() as int);
    match parse_unsigned(input.subrange(a, b), 255) {
        Some(n) => if md@.charts.contains_key(n as u8) { Some(n as u8) } else { None },
        None => None,
    }
}

pub fn pick(md: &Maidata, input: &str) -> (r: Option<u8>)
    requires
        md.wf(),
    ensures
        r == pick_spec(*md, input@),
{
    let v = chars_of(input);
    let (a, b) = trim(&v, 0, v.len());
    match parse_uint(&v, a, b, 255) {
        Some(n) => {
            let d = n as u8;
            if md.chart(d).is_some() {
                Some(d)
            } else {
                None
            }
        },
        None => None,
    }
}

} // verus!
