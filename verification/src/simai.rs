//! The simai note grammar and the timing walk.
//!
//! A chart is a list of lines; each line is a list of comma slots. A slot
//! may begin with `(BPM)` and `{divisor}` tokens that change the tempo, then
//! holds `/`-separated notes. Every slot is one step of `240 / (bpm *
//! divisor)` seconds when the tempo is positive and the divisor is not zero.

use vstd::prelude::*;
use crate::chart::{
    events_view, groups_view, Bpm, Chart, Dur, EventView, Kind, KindView, Lead, NoteEvent,
    Position, SlideGroup, SlideGroupView, SlidePart, SlideShape, Span, StarKind, Tempo, Zone,
};
use crate::number::{denotes_positive, float_literal, is_float_literal};
use crate::text::{
    find, find_char, find_double, find_pair, parse_uint, parse_unsigned, skip_ws, split,
    split_ranges, trim, trim_range, trim_start,
};

verus! {

/// A remark the resolver makes about the chart text.
#[derive(Clone, Copy, Debug, PartialEq, Eq, Structural)]
pub enum Warning {
    /// `(x)` where `x` is not a number; the tempo is unchanged.
    BadBpm { line: usize, num: Span },
    /// `{#s}` (a measure length in seconds) is not supported.
    SecondsMeasure { line: usize },
    /// `{x}` where `x` is not an unsigned integer.
    BadDivisor { line: usize, num: Span },
    /// A slot whose tempo is not positive or whose divisor is 0: time does
    /// not advance.
    ZeroStep { line: usize, tick: usize },
    /// A note token that is not recognised.
    UnparsedNote { token: Span, tick: usize },
    /// `[` without `]`.
    UnterminatedBracket { text: Span },
    /// A bracket with `#` that is none of the known forms.
    ExoticBracket { inner: Span },
    /// A free-form `[delay##slide]` bracket, approximated by the sum.
    FreeFormBracket { inner: Span },
    /// A bracket that is not `[a:b]` with positive numbers.
    UnparsedBracket { inner: Span },
    /// A slide whose text ended before its bracket.
    SlideEndedEarly { text: Span },
    /// A slide shape without a destination button.
    SlideMissingDst { text: Span },
    /// A group of slide legs without a bracket.
    SlideNoBracket { text: Span },
    /// A touch in zone A, B, D or E without its index.
    TouchMissingIndex { token: Span },
}

// ---------------------------------------------------------------------------
// The grammar, as spec functions over a line `l` (number `li`) and absolute
// index ranges into it.

pub open spec fn span(li: usize, lo: int, hi: int) -> Span {
    Span { line: li, start: lo as usize, end: hi as usize }
}

pub open spec fn lit(l: Seq<char>, lo: int, hi: int) -> bool {
    is_float_literal(l.subrange(lo, hi))
}

pub open spec fn positive(l: Seq<char>, lo: int, hi: int) -> bool {
    denotes_positive(l.subrange(lo, hi))
}

pub open spec fn is_button_char(c: char) -> bool {
    '1' <= c && c <= '8'
}

pub open spec fn button_of(c: char) -> u8 {
    (c as u32 - '0' as u32) as u8
}

/// Inside a bracket `[ilo..ihi]`.
pub open spec fn bracket_inner(l: Seq<char>, li: usize, ilo: int, ihi: int, bpm: Bpm, bpm_pos: bool) -> (Dur, Seq<Warning>) {
    if ilo < ihi && l[ilo] == '#' && lit(l, ilo + 1, ihi) {
        // `[#s]`: seconds
        (Dur::Seconds(span(li, ilo + 1, ihi)), seq![])
    } else {
        match find_char(l, ilo, ihi, '#') {
            Some(h) => {
                let colon = find_char(l, h + 1, ihi, ':');
                if lit(l, ilo, h) && colon is Some && lit(l, h + 1, colon->0) && lit(
                    l,
                    colon->0 + 1,
                    ihi,
                ) {
                    // `[bpm#a:b]`
                    let c = colon->0;
                    if positive(l, ilo, h) && positive(l, h + 1, c) {
                        (
                            Dur::Beats {
                                bpm: Bpm::Written(span(li, ilo, h)),
                                per: span(li, h + 1, c),
                                count: span(li, c + 1, ihi),
                            },
                            seq![],
                        )
                    } else {
                        (Dur::Default, seq![])
                    }
                } else if lit(l, ilo, h) && lit(l, h + 1, ihi) {
                    // `[bpm#s]`
                    (Dur::Seconds(span(li, h + 1, ihi)), seq![])
                } else {
                    match find_pair(l, ilo, ihi, '#') {
                        Some(p) => (
                            Dur::DelayPlus {
                                delay: if lit(l, ilo, p) {
                                    Some(span(li, ilo, p))
                                } else {
                                    None
                                },
                                slide: if lit(l, p + 2, ihi) {
                                    Some(span(li, p + 2, ihi))
                                } else {
                                    None
                                },
                            },
                            seq![Warning::FreeFormBracket { inner: span(li, ilo, ihi) }],
                        ),
                        None => (Dur::Default, seq![Warning::ExoticBracket { inner: span(li, ilo, ihi) }]),
                    }
                }
            },
            None => match find_char(l, ilo, ihi, ':') {
                Some(c) => if lit(l, ilo, c) && lit(l, c + 1, ihi) && positive(l, ilo, c) && bpm_pos {
                    // `[a:b]`
                    (
                        Dur::Beats { bpm: bpm, per: span(li, ilo, c), count: span(li, c + 1, ihi) },
                        seq![],
                    )
                } else {
                    (Dur::Default, seq![Warning::UnparsedBracket { inner: span(li, ilo, ihi) }])
                },
                None => (Dur::Default, seq![Warning::UnparsedBracket { inner: span(li, ilo, ihi) }]),
            },
        }
    }
}

/// A duration bracket at `lo` (if any): the duration, the number of
/// characters it takes, and the warnings.
pub open spec fn bracket(l: Seq<char>, li: usize, lo: int, hi: int, bpm: Bpm, bpm_pos: bool) -> (Dur, int, Seq<Warning>) {
    if lo >= hi || l[lo] != '[' {
        (Dur::Default, 0, seq![])
    } else {
        match find_char(l, lo, hi, ']') {
            None => (Dur::Default, 0, seq![Warning::UnterminatedBracket { text: span(li, lo, hi) }]),
            Some(e) => {
                let (d, w) = bracket_inner(l, li, lo + 1, e, bpm, bpm_pos);
                (d, e + 1 - lo, w)
            },
        }
    }
}

/// The slide shape written at `i`, and how many characters it takes.
pub open spec fn shape_at(l: Seq<char>, i: int, hi: int) -> Option<(SlideShape, int)> {
    let c = l[i];
    let next = if i + 1 < hi { Some(l[i + 1]) } else { None };
    if c == '-' {
        Some((SlideShape::Line, 1))
    } else if c == '>' {
        Some((SlideShape::ArcRight, 1))
    } else if c == '<' {
        Some((SlideShape::ArcLeft, 1))
    } else if c == '^' {
        Some((SlideShape::AutoCircle, 1))
    } else if c == 'p' {
        if next == Some('p') {
            Some((SlideShape::PP, 2))
        } else {
            Some((SlideShape::P, 1))
        }
    } else if c == 'q' {
        if next == Some('q') {
            Some((SlideShape::QQ, 2))
        } else {
            Some((SlideShape::Q, 1))
        }
    } else if c == 'w' {
        Some((SlideShape::W, 1))
    } else if c == 'v' {
        if next == Some('V') {
            Some((SlideShape::VBig, 2))
        } else {
            Some((SlideShape::V, 1))
        }
    } else if c == 'V' {
        Some((SlideShape::VBig, 1))
    } else if c == 'z' {
        Some((SlideShape::Z, 1))
    } else if c == 's' {
        Some((SlideShape::S, 1))
    } else {
        None
    }
}

pub open spec fn is_shape_start_char(c: char) -> bool {
    c == '-' || c == '>' || c == '<' || c == '^' || c == 'p' || c == 'q' || c == 'w' || c == 'v'
        || c == 'V' || c == 'z' || c == 's'
}

/// The legs of one slide group from `i` (the slide text is `[lo..hi]`):
/// shape, optional turning digit (`V`), destination, optional `b`; the
/// group ends at a bracket, a `*` or the end of the text.
pub open spec fn group_legs(l: Seq<char>, li: usize, lo: int, hi: int, i: int, from: u8) -> (Seq<SlidePart>, int, Seq<Warning>)
    decreases hi - i,
{
    if i >= hi {
        (seq![], i, seq![Warning::SlideEndedEarly { text: span(li, lo, hi) }])
    } else {
        match shape_at(l, i, hi) {
            None => (seq![], i, seq![]),
            Some((shape, w)) => {
                let j = i + w;
                let has_turn = shape == SlideShape::VBig && j < hi && is_button_char(l[j]);
                let turn: u8 = if has_turn { button_of(l[j]) } else { 0 };
                let j2 = if has_turn { j + 1 } else { j };
                if j2 < hi && is_button_char(l[j2]) {
                    let dst = button_of(l[j2]);
                    let j3 = j2 + 1;
                    let j4 = if j3 < hi && l[j3] == 'b' { j3 + 1 } else { j3 };
                    let leg = SlidePart { shape: shape, from: from, to: dst, turn: turn };
                    if j4 >= hi || l[j4] == '[' || l[j4] == '*' {
                        (seq![leg], j4, seq![])
                    } else {
                        let (rest, e, ws) = group_legs(l, li, lo, hi, j4, dst);
                        (seq![leg] + rest, e, ws)
                    }
                } else {
                    (seq![], j2, seq![Warning::SlideMissingDst { text: span(li, lo, hi) }])
                }
            },
        }
    }
}

pub proof fn lemma_group_legs_bounds(l: Seq<char>, li: usize, lo: int, hi: int, i: int, from: u8)
    requires
        i <= hi,
    ensures
        i <= group_legs(l, li, lo, hi, i, from).1 <= hi,
    decreases hi - i,
{
    if i < hi {
        match shape_at(l, i, hi) {
            None => {},
            Some((shape, w)) => {
                let j = i + w;
                let has_turn = shape == SlideShape::VBig && j < hi && is_button_char(l[j]);
                let j2 = if has_turn { j + 1 } else { j };
                if j2 < hi && is_button_char(l[j2]) {
                    let dst = button_of(l[j2]);
                    let j3 = j2 + 1;
                    let j4 = if j3 < hi && l[j3] == 'b' { j3 + 1 } else { j3 };
                    if !(j4 >= hi || l[j4] == '[' || l[j4] == '*') {
                        lemma_group_legs_bounds(l, li, lo, hi, j4, dst);
                    }
                }
            },
        }
    }
}

pub proof fn lemma_find_char_bounds(s: Seq<char>, lo: int, hi: int, c: char)
    ensures
        find_char(s, lo, hi, c) matches Some(j) ==> lo <= j < hi && s[j] == c,
    decreases hi - lo,
{
    if lo < hi && s[lo] != c {
        lemma_find_char_bounds(s, lo + 1, hi, c);
    }
}

pub proof fn lemma_bracket_bounds(l: Seq<char>, li: usize, lo: int, hi: int, bpm: Bpm, bpm_pos: bool)
    requires
        lo <= hi,
    ensures
        0 <= bracket(l, li, lo, hi, bpm, bpm_pos).1 <= hi - lo,
{
    lemma_find_char_bounds(l, lo, hi, ']');
}

/// The bracket that closes a slide group at `j` (and an optional `b` after
/// it): the group's duration and where the text continues.
pub open spec fn group_close(l: Seq<char>, li: usize, lo: int, hi: int, j: int, bpm: Bpm, bpm_pos: bool) -> (Dur, int, Seq<Warning>) {
    if j < hi && l[j] == '[' {
        let (d, c, wb) = bracket(l, li, j, hi, bpm, bpm_pos);
        let j1 = j + c;
        (d, if j1 < hi && l[j1] == 'b' { j1 + 1 } else { j1 }, wb)
    } else {
        (Dur::Default, j, seq![Warning::SlideNoBracket { text: span(li, lo, hi) }])
    }
}

/// Groups of a slide chain from `i`, chained by `*`.
pub open spec fn slide_groups(l: Seq<char>, li: usize, lo: int, hi: int, i: int, from: u8, bpm: Bpm, bpm_pos: bool) -> (Seq<SlideGroupView>, int, Seq<Warning>)
    decreases hi - i,
{
    if i > hi {
        (seq![], i, seq![])
    } else {
        let (legs, j, w1) = group_legs(l, li, lo, hi, i, from);
        let (dur, j2, w2) = group_close(l, li, lo, hi, j, bpm, bpm_pos);
        let g = SlideGroupView { legs: legs, dur: dur };
        let next_from = if legs.len() > 0 { legs.last().to } else { from };
        if j2 < hi && l[j2] == '*' {
            proof {
                lemma_group_legs_bounds(l, li, lo, hi, i, from);
                if j < hi && l[j] == '[' {
                    lemma_bracket_bounds(l, li, j, hi, bpm, bpm_pos);
                }
            }
            let (rest, e, w3) = slide_groups(l, li, lo, hi, j2 + 1, next_from, bpm, bpm_pos);
            (seq![g] + rest, e, w1 + w2 + w3)
        } else {
            (seq![g], j2, w1 + w2)
        }
    }
}

/// Tap modifiers after the button digit, from `i`: `b` break, `x` EX, `$`
/// star (a second `$`: spinning star), `?`/`!` no tap, `@` not a star.
pub open spec fn modifiers(l: Seq<char>, i: int, hi: int, brk: bool, ex: bool, star: StarKind, tapless: bool) -> (int, bool, bool, StarKind, bool)
    decreases hi - i,
{
    if i >= hi {
        (i, brk, ex, star, tapless)
    } else {
        let c = l[i];
        if c == 'b' {
            modifiers(l, i + 1, hi, true, ex, star, tapless)
        } else if c == 'x' {
            modifiers(l, i + 1, hi, brk, true, star, tapless)
        } else if c == '$' {
            modifiers(
                l,
                i + 1,
                hi,
                brk,
                ex,
                if star == StarKind::Plain { StarKind::Star } else { StarKind::Spin },
                tapless,
            )
        } else if c == '?' || c == '!' {
            modifiers(l, i + 1, hi, brk, ex, star, true)
        } else if c == '@' {
            modifiers(l, i + 1, hi, brk, ex, StarKind::Plain, tapless)
        } else {
            (i, brk, ex, star, tapless)
        }
    }
}

pub proof fn lemma_modifiers_bounds(l: Seq<char>, i: int, hi: int, brk: bool, ex: bool, star: StarKind, tapless: bool)
    requires
        i <= hi,
    ensures
        i <= modifiers(l, i, hi, brk, ex, star, tapless).0 <= hi,
    decreases hi - i,
{
    if i < hi {
        let c = l[i];
        if c == 'b' {
            lemma_modifiers_bounds(l, i + 1, hi, true, ex, star, tapless);
        } else if c == 'x' {
            lemma_modifiers_bounds(l, i + 1, hi, brk, true, star, tapless);
        } else if c == '$' {
            lemma_modifiers_bounds(
                l,
                i + 1,
                hi,
                brk,
                ex,
                if star == StarKind::Plain { StarKind::Star } else { StarKind::Spin },
                tapless,
            );
        } else if c == '?' || c == '!' {
            lemma_modifiers_bounds(l, i + 1, hi, brk, ex, star, true);
        } else if c == '@' {
            lemma_modifiers_bounds(l, i + 1, hi, brk, ex, StarKind::Plain, tapless);
        }
    }
}

/// The tempo in effect at a note, and whether it is positive.
#[derive(Clone, Copy, Debug, PartialEq, Eq, Structural)]
pub struct NoteCtx {
    pub line: usize,
    pub tick: usize,
    pub bpm: Bpm,
    pub bpm_pos: bool,
}

/// One ring note whose button digit is at `lo`: the end of its text, the
/// note it yields (a hold, a slide, a tap, or nothing for a tapless star),
/// and the warnings.
pub open spec fn ring_note(l: Seq<char>, lo: int, hi: int, cx: NoteCtx) -> (int, Seq<EventView>, Seq<Warning>) {
    let btn = button_of(l[lo]);
    let (i, brk, ex, star, tapless) = modifiers(l, lo + 1, hi, false, false, StarKind::Plain, false);
    let pos = Position::Button(btn);
    if i < hi && l[i] == 'h' {
        let (d, c, w) = bracket(l, cx.line, i + 1, hi, cx.bpm, cx.bpm_pos);
        (
            i + 1 + c,
            seq![EventView { tick: cx.tick, pos: pos, kind: KindView::Hold { dur: d, brk: brk, ex: ex }, firework: false }],
            w,
        )
    } else if i < hi && is_shape_start_char(l[i]) {
        let star_kind = if tapless {
            StarKind::Plain
        } else if star == StarKind::Plain {
            StarKind::Star
        } else {
            star
        };
        let lead = if cx.bpm_pos { Lead::Beat(cx.bpm) } else { Lead::Half };
        let (groups, e, w) = slide_groups(l, cx.line, i, hi, i, btn, cx.bpm, cx.bpm_pos);
        (
            e,
            seq![EventView {
                tick: cx.tick,
                pos: pos,
                kind: KindView::Slide { star: star_kind, brk: brk, ex: ex, lead: lead, groups: groups },
                firework: false,
            }],
            w,
        )
    } else if tapless {
        (i, seq![], seq![])
    } else {
        (
            i,
            seq![EventView { tick: cx.tick, pos: pos, kind: KindView::Tap { brk: brk, ex: ex, star: star }, firework: false }],
            seq![],
        )
    }
}

pub proof fn lemma_slide_groups_bounds(l: Seq<char>, li: usize, lo: int, hi: int, i: int, from: u8, bpm: Bpm, bpm_pos: bool)
    requires
        i <= hi,
    ensures
        i <= slide_groups(l, li, lo, hi, i, from, bpm, bpm_pos).1 <= hi,
    decreases hi - i,
{
    let (legs, j, w1) = group_legs(l, li, lo, hi, i, from);
    lemma_group_legs_bounds(l, li, lo, hi, i, from);
    if j < hi && l[j] == '[' {
        lemma_bracket_bounds(l, li, j, hi, bpm, bpm_pos);
    }
    let (dur, j2, w2) = group_close(l, li, lo, hi, j, bpm, bpm_pos);
    let next_from = if legs.len() > 0 { legs.last().to } else { from };
    if j2 < hi && l[j2] == '*' {
        lemma_slide_groups_bounds(l, li, lo, hi, j2 + 1, next_from, bpm, bpm_pos);
    }
}

/// Law: each slide letter names its own shape: `-` line, `>`/`<` arcs, `^`
/// shortest arc, `p`/`q` the U-loops, `pp`/`qq` the cups, `v` through the
/// center (`vV` and `V` the L-shape), `w` fan, `z`/`s` zigzags; any other
/// character starts no shape.
pub proof fn lemma_shape_letters(l: Seq<char>, i: int, hi: int)
    requires
        0 <= i < hi,
    ensures
        l[i] == '-' ==> shape_at(l, i, hi) == Some((SlideShape::Line, 1int)),
        l[i] == '>' ==> shape_at(l, i, hi) == Some((SlideShape::ArcRight, 1int)),
        l[i] == '<' ==> shape_at(l, i, hi) == Some((SlideShape::ArcLeft, 1int)),
        l[i] == '^' ==> shape_at(l, i, hi) == Some((SlideShape::AutoCircle, 1int)),
        l[i] == 'p' && !(i + 1 < hi && l[i + 1] == 'p') ==> shape_at(l, i, hi) == Some((SlideShape::P, 1int)),
        l[i] == 'p' && i + 1 < hi && l[i + 1] == 'p' ==> shape_at(l, i, hi) == Some((SlideShape::PP, 2int)),
        l[i] == 'q' && !(i + 1 < hi && l[i + 1] == 'q') ==> shape_at(l, i, hi) == Some((SlideShape::Q, 1int)),
        l[i] == 'q' && i + 1 < hi && l[i + 1] == 'q' ==> shape_at(l, i, hi) == Some((SlideShape::QQ, 2int)),
        l[i] == 'w' ==> shape_at(l, i, hi) == Some((SlideShape::W, 1int)),
        l[i] == 'v' && !(i + 1 < hi && l[i + 1] == 'V') ==> shape_at(l, i, hi) == Some((SlideShape::V, 1int)),
        l[i] == 'v' && i + 1 < hi && l[i + 1] == 'V' ==> shape_at(l, i, hi) == Some((SlideShape::VBig, 2int)),
        l[i] == 'V' ==> shape_at(l, i, hi) == Some((SlideShape::VBig, 1int)),
        l[i] == 'z' ==> shape_at(l, i, hi) == Some((SlideShape::Z, 1int)),
        l[i] == 's' ==> shape_at(l, i, hi) == Some((SlideShape::S, 1int)),
        shape_at(l, i, hi) is Some <==> is_shape_start_char(l[i]),
{
}

/// Law: a leg written `<p or q><dst>` is the U-loop of that letter from the
/// slide's current button to `dst`, and one written `<pp or qq><dst>` is the
/// cup of that letter; `p` loops run counter-clockwise and `q` loops
/// clockwise, so for different buttons they sweep opposite ways.
pub proof fn lemma_loop_legs(l: Seq<char>, li: usize, lo: int, hi: int, i: int, from: u8)
    requires
        0 <= i,
        1 <= from <= 8,
    ensures
        i + 1 < hi && (l[i] == 'p' || l[i] == 'q') && is_button_char(l[i + 1]) ==> {
            let legs = group_legs(l, li, lo, hi, i, from).0;
            &&& legs.len() >= 1
            &&& legs[0] == SlidePart {
                shape: if l[i] == 'p' { SlideShape::P } else { SlideShape::Q },
                from: from,
                to: button_of(l[i + 1]),
                turn: 0,
            }
        },
        i + 2 < hi && (l[i] == 'p' || l[i] == 'q') && l[i + 1] == l[i] && is_button_char(l[i + 2]) ==> {
            let legs = group_legs(l, li, lo, hi, i, from).0;
            &&& legs.len() >= 1
            &&& legs[0] == SlidePart {
                shape: if l[i] == 'p' { SlideShape::PP } else { SlideShape::QQ },
                from: from,
                to: button_of(l[i + 2]),
                turn: 0,
            }
        },
        forall|to: u8| 1 <= to <= 8 && to != from ==> {
            &&& crate::render::arc_steps_spec(SlideShape::P, from, to)->0 < 0
            &&& crate::render::arc_steps_spec(SlideShape::PP, from, to)->0 < 0
            &&& crate::render::arc_steps_spec(SlideShape::Q, from, to)->0 > 0
            &&& crate::render::arc_steps_spec(SlideShape::QQ, from, to)->0 > 0
        },
{
    if i < hi {
        lemma_shape_letters(l, i, hi);
    }
    if i + 1 < hi && (l[i] == 'p' || l[i] == 'q') && is_button_char(l[i + 1]) {
        assert(l[i + 1] != 'p' && l[i + 1] != 'q');
        let legs = group_legs(l, li, lo, hi, i, from).0;
        let j4 = if i + 2 < hi && l[i + 2] == 'b' { i + 3 } else { i + 2 };
        if !(j4 >= hi || l[j4] == '[' || l[j4] == '*') {
            assert(legs[0] == (seq![SlidePart {
                shape: if l[i] == 'p' { SlideShape::P } else { SlideShape::Q },
                from: from,
                to: button_of(l[i + 1]),
                turn: 0,
            }] + group_legs(l, li, lo, hi, j4, button_of(l[i + 1])).0)[0]);
        }
    }
    if i + 2 < hi && (l[i] == 'p' || l[i] == 'q') && l[i + 1] == l[i] && is_button_char(l[i + 2]) {
        let legs = group_legs(l, li, lo, hi, i, from).0;
        let j4 = if i + 3 < hi && l[i + 3] == 'b' { i + 4 } else { i + 3 };
        if !(j4 >= hi || l[j4] == '[' || l[j4] == '*') {
            assert(legs[0] == (seq![SlidePart {
                shape: if l[i] == 'p' { SlideShape::PP } else { SlideShape::QQ },
                from: from,
                to: button_of(l[i + 2]),
                turn: 0,
            }] + group_legs(l, li, lo, hi, j4, button_of(l[i + 2])).0)[0]);
        }
    }
    assert forall|to: u8| 1 <= to <= 8 && to != from implies {
        &&& crate::render::arc_steps_spec(SlideShape::P, from, to)->0 < 0
        &&& crate::render::arc_steps_spec(SlideShape::PP, from, to)->0 < 0
        &&& crate::render::arc_steps_spec(SlideShape::Q, from, to)->0 > 0
        &&& crate::render::arc_steps_spec(SlideShape::QQ, from, to)->0 > 0
    } by {
        let d = to as int - from as int;
        assert(-7 <= d <= 7 && d != 0);
        assert(((d % 8) + 8) % 8 != 0) by (nonlinear_arith)
            requires
                -7 <= d <= 7,
                d != 0,
        ;
        assert((((-d) % 8) + 8) % 8 != 0) by (nonlinear_arith)
            requires
                -7 <= d <= 7,
                d != 0,
        ;
    }
}

/// The legs of a chain of slide groups, group after group.
pub open spec fn chain_legs(gs: Seq<SlideGroupView>) -> Seq<SlidePart>
    decreases gs.len(),
{
    if gs.len() == 0 {
        seq![]
    } else {
        gs[0].legs + chain_legs(gs.drop_first())
    }
}

/// Legs that start at `from`, each starting where the one before ended,
/// with every destination a button 1..=8 and every turning point either
/// absent (0) or a button.
pub open spec fn legs_chain(legs: Seq<SlidePart>, from: u8) -> bool {
    &&& (legs.len() > 0 ==> legs[0].from == from)
    &&& forall|a: int, b: int| 0 <= a && b == a + 1 && b < legs.len() ==> (#[trigger] legs[b]).from == (#[trigger] legs[a]).to
    &&& forall|k: int| 0 <= k < legs.len() ==> 1 <= (#[trigger] legs[k]).to <= 8 && (legs[k].turn == 0 || 1 <= legs[k].turn <= 8)
}

proof fn lemma_chain_concat(a: Seq<SlidePart>, b: Seq<SlidePart>, from: u8)
    requires
        legs_chain(a, from),
        legs_chain(b, if a.len() > 0 { a.last().to } else { from }),
    ensures
        legs_chain(a + b, from),
{
    let c = a + b;
    assert forall|x: int, y: int| 0 <= x && y == x + 1 && y < c.len() implies (#[trigger] c[y]).from == (#[trigger] c[x]).to by {
        if y < a.len() {
            assert(c[y] == a[y] && c[x] == a[x]);
        } else if y == a.len() {
            assert(c[y] == b[0]);
            assert(c[x] == a[x]);
        } else {
            assert(c[y] == b[y - a.len()] && c[x] == b[x - a.len()]);
        }
    }
    assert forall|k: int| 0 <= k < c.len() implies 1 <= (#[trigger] c[k]).to <= 8 && (c[k].turn == 0 || 1 <= c[k].turn <= 8) by {
        if k < a.len() {
            assert(c[k] == a[k]);
        } else {
            assert(c[k] == b[k - a.len()]);
        }
    }
    if c.len() > 0 {
        if a.len() > 0 {
            assert(c[0] == a[0]);
        } else {
            assert(c[0] == b[0]);
        }
    }
}

proof fn lemma_group_legs_chain(l: Seq<char>, li: usize, lo: int, hi: int, i: int, from: u8)
    ensures
        legs_chain(group_legs(l, li, lo, hi, i, from).0, from),
    decreases hi - i,
{
    if i < hi {
        match shape_at(l, i, hi) {
            None => {},
            Some((shape, w)) => {
                let j = i + w;
                let has_turn = shape == SlideShape::VBig && j < hi && is_button_char(l[j]);
                let turn: u8 = if has_turn { button_of(l[j]) } else { 0 };
                let j2 = if has_turn { j + 1 } else { j };
                if j2 < hi && is_button_char(l[j2]) {
                    let dst = button_of(l[j2]);
                    let j3 = j2 + 1;
                    let j4 = if j3 < hi && l[j3] == 'b' { j3 + 1 } else { j3 };
                    let leg = SlidePart { shape: shape, from: from, to: dst, turn: turn };
                    assert(legs_chain(seq![leg], from));
                    if !(j4 >= hi || l[j4] == '[' || l[j4] == '*') {
                        lemma_group_legs_chain(l, li, lo, hi, j4, dst);
                        lemma_chain_concat(seq![leg], group_legs(l, li, lo, hi, j4, dst).0, from);
                    }
                }
            },
        }
    }
}

proof fn lemma_slide_groups_chain(l: Seq<char>, li: usize, lo: int, hi: int, i: int, from: u8, bpm: Bpm, bpm_pos: bool)
    ensures
        legs_chain(chain_legs(slide_groups(l, li, lo, hi, i, from, bpm, bpm_pos).0), from),
    decreases hi - i,
{
    if i <= hi {
        let (legs, j, w1) = group_legs(l, li, lo, hi, i, from);
        lemma_group_legs_chain(l, li, lo, hi, i, from);
        lemma_group_legs_bounds(l, li, lo, hi, i, from);
        if j < hi && l[j] == '[' {
            lemma_bracket_bounds(l, li, j, hi, bpm, bpm_pos);
        }
        let (dur, j2, w2) = group_close(l, li, lo, hi, j, bpm, bpm_pos);
        let g = SlideGroupView { legs: legs, dur: dur };
        let next_from = if legs.len() > 0 { legs.last().to } else { from };
        let gs = slide_groups(l, li, lo, hi, i, from, bpm, bpm_pos).0;
        if j2 < hi && l[j2] == '*' {
            let rest = slide_groups(l, li, lo, hi, j2 + 1, next_from, bpm, bpm_pos).0;
            lemma_slide_groups_chain(l, li, lo, hi, j2 + 1, next_from, bpm, bpm_pos);
            assert(gs == seq![g] + rest);
            assert(gs.drop_first() =~= rest);
            assert(gs[0] == g);
            assert(chain_legs(gs) == legs + chain_legs(rest));
            lemma_chain_concat(legs, chain_legs(rest), from);
        } else {
            assert(gs == seq![g]);
            assert(gs.drop_first() =~= Seq::<SlideGroupView>::empty());
            assert(gs[0] == g);
            assert(chain_legs(gs.drop_first()) == Seq::<SlidePart>::empty());
            assert(chain_legs(gs) =~= legs);
        }
    }
}

/// Law: a slide chain read from its first shape stays inside the slide's
/// text, and its legs, group after group, start at the star's button, each
/// leg starting where the one before ended, with every destination (and
/// every turning point of a `V`) a button 1..=8.
pub proof fn lemma_slide_chain(l: Seq<char>, li: usize, lo: int, hi: int, i: int, from: u8, bpm: Bpm, bpm_pos: bool)
    requires
        i <= hi,
    ensures
        i <= slide_groups(l, li, lo, hi, i, from, bpm, bpm_pos).1 <= hi,
        legs_chain(chain_legs(slide_groups(l, li, lo, hi, i, from, bpm, bpm_pos).0), from),
{
    lemma_slide_groups_bounds(l, li, lo, hi, i, from, bpm, bpm_pos);
    lemma_slide_groups_chain(l, li, lo, hi, i, from, bpm, bpm_pos);
}

pub proof fn lemma_ring_note_bounds(l: Seq<char>, lo: int, hi: int, cx: NoteCtx)
    requires
        lo < hi,
    ensures
        lo < ring_note(l, lo, hi, cx).0 <= hi,
{
    lemma_modifiers_bounds(l, lo + 1, hi, false, false, StarKind::Plain, false);
    let i = modifiers(l, lo + 1, hi, false, false, StarKind::Plain, false).0;
    if i < hi && l[i] == 'h' {
        lemma_bracket_bounds(l, cx.line, i + 1, hi, cx.bpm, cx.bpm_pos);
    } else if i < hi && is_shape_start_char(l[i]) {
        lemma_slide_groups_bounds(l, cx.line, i, hi, i, button_of(l[lo]), cx.bpm, cx.bpm_pos);
    }
}

/// Ring notes written one after another from `idx` (`12` is two taps).
pub open spec fn ring_run(l: Seq<char>, lo: int, hi: int, idx: int, emitted: bool, cx: NoteCtx) -> (bool, Seq<EventView>, Seq<Warning>)
    decreases hi - idx,
{
    if idx >= hi || idx < lo || !is_button_char(l[idx]) {
        (emitted, seq![], seq![])
    } else {
        let (e, ev, w) = ring_note(l, idx, hi, cx);
        proof {
            lemma_ring_note_bounds(l, idx, hi, cx);
        }
        let (em, ev2, w2) = ring_run(l, lo, hi, e, true, cx);
        (em, ev + ev2, w + w2)
    }
}

pub open spec fn zone_of(c: char) -> Option<Zone> {
    if c == 'A' {
        Some(Zone::A)
    } else if c == 'B' {
        Some(Zone::B)
    } else if c == 'C' {
        Some(Zone::C)
    } else if c == 'D' {
        Some(Zone::D)
    } else if c == 'E' {
        Some(Zone::E)
    } else {
        None
    }
}

/// A touch note `[lo..hi]`: zone letter, index, `f` firework, `h[..]` hold.
pub open spec fn touch_note(l: Seq<char>, lo: int, hi: int, cx: NoteCtx) -> (bool, Seq<EventView>, Seq<Warning>) {
    match zone_of(l[lo]) {
        None => (false, seq![], seq![]),
        Some(zone) => {
            let i = lo + 1;
            let has_idx = i < hi && is_button_char(l[i]);
            let idx: u8 = if has_idx { button_of(l[i]) } else { 0 };
            let i2 = if has_idx { i + 1 } else { i };
            let w0 = if !has_idx && zone != Zone::C {
                seq![Warning::TouchMissingIndex { token: span(cx.line, lo, hi) }]
            } else {
                seq![]
            };
            let fw = i2 < hi && l[i2] == 'f';
            let i3 = if fw { i2 + 1 } else { i2 };
            let pos = Position::Touch(zone, idx);
            if i3 < hi && l[i3] == 'h' {
                let (d, c, w) = bracket(l, cx.line, i3 + 1, hi, cx.bpm, cx.bpm_pos);
                (
                    true,
                    seq![EventView { tick: cx.tick, pos: pos, kind: KindView::TouchHold { dur: d, firework: fw }, firework: fw }],
                    w0 + w,
                )
            } else {
                (
                    true,
                    seq![EventView {
                        tick: cx.tick,
                        pos: pos,
                        kind: KindView::Tap { brk: false, ex: false, star: StarKind::Plain },
                        firework: fw,
                    }],
                    w0,
                )
            }
        },
    }
}

/// One note token `[lo..hi]` (non-empty): whether it was recognised, the
/// notes and the warnings.
pub open spec fn note_token(l: Seq<char>, lo: int, hi: int, cx: NoteCtx) -> (bool, Seq<EventView>, Seq<Warning>) {
    if 'A' <= l[lo] && l[lo] <= 'Z' {
        touch_note(l, lo, hi, cx)
    } else if hi - lo == 1 && l[lo] == '0' {
        (true, seq![], seq![])
    } else {
        ring_run(l, lo, hi, lo, false, cx)
    }
}

/// The `/`-separated parts of a slot, each trimmed; empty parts are skipped
/// and an unrecognised part is reported.
pub open spec fn slot_notes(l: Seq<char>, parts: Seq<(int, int)>, cx: NoteCtx) -> (Seq<EventView>, Seq<Warning>)
    decreases parts.len(),
{
    if parts.len() == 0 {
        (seq![], seq![])
    } else {
        let (a, b) = trim_range(l, parts[0].0, parts[0].1);
        let (e1, w1) = if a >= b {
            (seq![], seq![])
        } else {
            let (ok, ev, w) = note_token(l, a, b, cx);
            (ev, if ok { w } else { w.push(Warning::UnparsedNote { token: span(cx.line, a, b), tick: cx.tick }) })
        };
        let (e2, w2) = slot_notes(l, parts.drop_first(), cx);
        (e1 + e2, w1 + w2)
    }
}

/// Leading `(BPM)` and `{divisor}` tokens of a slot from `lo`: where the
/// notes start, the tempo and divisor after them, and the warnings.
pub open spec fn slot_head(l: Seq<char>, li: usize, lo: int, hi: int, bpm: Bpm, div: u32) -> (int, Bpm, u32, Seq<Warning>)
    decreases hi - lo,
{
    let t = skip_ws(l, lo, hi);
    if lo <= t < hi && l[t] == '(' && find_char(l, t + 1, hi, ')') is Some {
        let e = find_char(l, t + 1, hi, ')')->0;
        proof {
            lemma_find_char_bounds(l, t + 1, hi, ')');
        }
        let ok = lit(l, t + 1, e);
        let nb = if ok { Bpm::Written(span(li, t + 1, e)) } else { bpm };
        let w = if ok { seq![] } else { seq![Warning::BadBpm { line: li, num: span(li, t + 1, e) }] };
        let (r, b2, d2, w2) = slot_head(l, li, e + 1, hi, nb, div);
        (r, b2, d2, w + w2)
    } else if lo <= t < hi && l[t] == '{' && find_char(l, t + 1, hi, '}') is Some {
        let e = find_char(l, t + 1, hi, '}')->0;
        proof {
            lemma_find_char_bounds(l, t + 1, hi, '}');
        }
        let (nd, w) = match parse_unsigned(l.subrange(t + 1, e), u32::MAX as nat) {
            Some(d) => (if d > 0 { d as u32 } else { div }, seq![]),
            None => (div, if t + 1 < e && l[t + 1] == '#' {
                seq![Warning::SecondsMeasure { line: li }]
            } else {
                seq![Warning::BadDivisor { line: li, num: span(li, t + 1, e) }]
            }),
        };
        let (r, b2, d2, w2) = slot_head(l, li, e + 1, hi, bpm, nd);
        (r, b2, d2, w + w2)
    } else {
        (lo, bpm, div, seq![])
    }
}

/// The characters of a tempo.
pub open spec fn bpm_text(measures: Seq<Seq<char>>, bpm0: Seq<char>, b: Bpm) -> Seq<char> {
    match b {
        Bpm::Initial => bpm0,
        Bpm::Written(sp) => measures[sp.line as int].subrange(sp.start as int, sp.end as int),
    }
}

/// The state of the walk: time so far (in ticks), tempo and divisor.
#[derive(Clone, Copy, Debug, PartialEq, Eq, Structural)]
pub struct WalkState {
    pub tick: usize,
    pub bpm: Bpm,
    pub div: u32,
}

/// What a walk produces: the steps that advanced time, the notes, the
/// warnings.
pub struct WalkOut {
    pub steps: Seq<Tempo>,
    pub events: Seq<EventView>,
    pub warnings: Seq<Warning>,
}

/// The comma slots of a line: `split(',')` without a last empty piece.
pub open spec fn line_slots(l: Seq<char>) -> Seq<(int, int)> {
    let p = split_ranges(l, 0, l.len() as int, ',');
    if p.len() > 0 && p.last().0 == p.last().1 {
        p.drop_last()
    } else {
        p
    }
}

/// One slot `[lo..hi]` of line `li`: the state after it and what it yields.
pub open spec fn slot_step(measures: Seq<Seq<char>>, bpm0: Seq<char>, li: usize, lo: int, hi: int, st: WalkState) -> (WalkState, WalkOut) {
    let l = measures[li as int];
    let (rs, b, d, w0) = slot_head(l, li, lo, hi, st.bpm, st.div);
    let pos = denotes_positive(bpm_text(measures, bpm0, b));
    let cx = NoteCtx { line: li, tick: st.tick, bpm: b, bpm_pos: pos };
    let (ea, eb) = trim_range(l, rs, hi);
    let (ev, w1) = if ea < eb {
        slot_notes(l, split_ranges(l, ea, eb, '/'), cx)
    } else {
        (seq![], seq![])
    };
    let advances = pos && d > 0;
    (
        WalkState { tick: if advances { (st.tick + 1) as usize } else { st.tick }, bpm: b, div: d },
        WalkOut {
            steps: if advances { seq![Tempo { bpm: b, divisor: d }] } else { seq![] },
            events: ev,
            warnings: if advances {
                w0 + w1
            } else {
                w0 + w1 + seq![Warning::ZeroStep { line: li, tick: st.tick }]
            },
        },
    )
}

pub open spec fn join(a: WalkOut, b: WalkOut) -> WalkOut {
    WalkOut { steps: a.steps + b.steps, events: a.events + b.events, warnings: a.warnings + b.warnings }
}

pub open spec fn empty_out() -> WalkOut {
    WalkOut { steps: seq![], events: seq![], warnings: seq![] }
}

/// The slots `k..` of line `li`.
pub open spec fn walk_slots(measures: Seq<Seq<char>>, bpm0: Seq<char>, li: usize, slots: Seq<(int, int)>, k: int, st: WalkState) -> (WalkState, WalkOut)
    decreases slots.len() - k,
{
    if k >= slots.len() || k < 0 {
        (st, empty_out())
    } else {
        let (st1, o1) = slot_step(measures, bpm0, li, slots[k].0, slots[k].1, st);
        let (st2, o2) = walk_slots(measures, bpm0, li, slots, k + 1, st1);
        (st2, join(o1, o2))
    }
}

/// The lines `li..` of the chart.
pub open spec fn walk_lines(measures: Seq<Seq<char>>, bpm0: Seq<char>, li: int, st: WalkState) -> WalkOut
    decreases measures.len() - li,
{
    if li >= measures.len() || li < 0 {
        empty_out()
    } else {
        let (st1, o1) = walk_slots(measures, bpm0, li as usize, line_slots(measures[li]), 0, st);
        join(o1, walk_lines(measures, bpm0, li + 1, st1))
    }
}

/// The chart a list of measure lines describes, from tempo `bpm0` and
/// divisor `div0`.
pub open spec fn resolve_spec(measures: Seq<Seq<char>>, bpm0: Seq<char>, div0: u32) -> WalkOut {
    walk_lines(measures, bpm0, 0, WalkState { tick: 0, bpm: Bpm::Initial, div: div0 })
}

// ---------------------------------------------------------------------------
// Notes come out in time order.

pub open spec fn all_at(evs: Seq<EventView>, t: usize) -> bool {
    forall|i: int| 0 <= i < evs.len() ==> (#[trigger] evs[i]).tick == t
}

/// Ticks never decrease and lie in `[lo, hi]`.
pub open spec fn ordered_within(evs: Seq<EventView>, lo: int, hi: int) -> bool {
    &&& forall|i: int, j: int| 0 <= i <= j < evs.len() ==> (#[trigger] evs[i]).tick <= (#[trigger] evs[j]).tick
    &&& forall|i: int| 0 <= i < evs.len() ==> lo <= (#[trigger] evs[i]).tick <= hi
}

proof fn lemma_ring_run_at(l: Seq<char>, lo: int, hi: int, idx: int, emitted: bool, cx: NoteCtx)
    ensures
        all_at(ring_run(l, lo, hi, idx, emitted, cx).1, cx.tick),
    decreases hi - idx,
{
    if !(idx >= hi || idx < lo || !is_button_char(l[idx])) {
        let (e, ev, w) = ring_note(l, idx, hi, cx);
        lemma_ring_note_bounds(l, idx, hi, cx);
        lemma_ring_run_at(l, lo, hi, e, true, cx);
        let ev2 = ring_run(l, lo, hi, e, true, cx).1;
        assert forall|i: int| 0 <= i < (ev + ev2).len() implies (#[trigger] (ev + ev2)[i]).tick == cx.tick by {
            if i >= ev.len() {
                assert((ev + ev2)[i] == ev2[i - ev.len()]);
            }
        }
    }
}

proof fn lemma_slot_notes_at(l: Seq<char>, parts: Seq<(int, int)>, cx: NoteCtx)
    ensures
        all_at(slot_notes(l, parts, cx).0, cx.tick),
    decreases parts.len(),
{
    if parts.len() > 0 {
        let (a, b) = trim_range(l, parts[0].0, parts[0].1);
        if a < b {
            lemma_ring_run_at(l, a, b, a, false, cx);
        }
        lemma_slot_notes_at(l, parts.drop_first(), cx);
        let (e1, w1) = if a >= b {
            (seq![], seq![])
        } else {
            let (ok, ev, w) = note_token(l, a, b, cx);
            (ev, if ok { w } else { w.push(Warning::UnparsedNote { token: span(cx.line, a, b), tick: cx.tick }) })
        };
        let e2 = slot_notes(l, parts.drop_first(), cx).0;
        assert forall|i: int| 0 <= i < (e1 + e2).len() implies (#[trigger] (e1 + e2)[i]).tick == cx.tick by {
            if i >= e1.len() {
                assert((e1 + e2)[i] == e2[i - e1.len()]);
            } else {
                assert((e1 + e2)[i] == e1[i]);
            }
        }
    }
}

proof fn lemma_slot_step_at(measures: Seq<Seq<char>>, bpm0: Seq<char>, li: usize, lo: int, hi: int, st: WalkState)
    ensures
        all_at(slot_step(measures, bpm0, li, lo, hi, st).1.events, st.tick),
        slot_step(measures, bpm0, li, lo, hi, st).1.steps.len() <= 1,
        slot_step(measures, bpm0, li, lo, hi, st).1.steps.len() == 0 ==> slot_step(measures, bpm0, li, lo, hi, st).0.tick == st.tick,
        slot_step(measures, bpm0, li, lo, hi, st).1.steps.len() == 1 ==> slot_step(measures, bpm0, li, lo, hi, st).0.tick == (st.tick + 1) as usize,
{
    let l = measures[li as int];
    let (rs, b, d, w0) = slot_head(l, li, lo, hi, st.bpm, st.div);
    let pos = denotes_positive(bpm_text(measures, bpm0, b));
    let cx = NoteCtx { line: li, tick: st.tick, bpm: b, bpm_pos: pos };
    let (ea, eb) = trim_range(l, rs, hi);
    if ea < eb {
        lemma_slot_notes_at(l, split_ranges(l, ea, eb, '/'), cx);
    }
}

proof fn lemma_concat_ordered(a: Seq<EventView>, b: Seq<EventView>, lo: int, mid: int, hi: int)
    requires
        ordered_within(a, lo, mid),
        ordered_within(b, mid, hi),
        lo <= mid <= hi,
    ensures
        ordered_within(a + b, lo, hi),
{
    let c = a + b;
    assert forall|i: int, j: int| 0 <= i <= j < c.len() implies (#[trigger] c[i]).tick <= (#[trigger] c[j]).tick by {
        if i < a.len() {
            assert(c[i] == a[i]);
        } else {
            assert(c[i] == b[i - a.len()]);
        }
        if j < a.len() {
            assert(c[j] == a[j]);
        } else {
            assert(c[j] == b[j - a.len()]);
        }
    }
    assert forall|i: int| 0 <= i < c.len() implies lo <= (#[trigger] c[i]).tick <= hi by {
        if i < a.len() {
            assert(c[i] == a[i]);
        } else {
            assert(c[i] == b[i - a.len()]);
        }
    }
}

proof fn lemma_walk_slots_ordered(measures: Seq<Seq<char>>, bpm0: Seq<char>, li: usize, slots: Seq<(int, int)>, k: int, st: WalkState)
    requires
        st.tick + walk_slots(measures, bpm0, li, slots, k, st).1.steps.len() <= usize::MAX,
    ensures
        ordered_within(walk_slots(measures, bpm0, li, slots, k, st).1.events, st.tick as int, st.tick + walk_slots(measures, bpm0, li, slots, k, st).1.steps.len()),
        walk_slots(measures, bpm0, li, slots, k, st).0.tick == st.tick + walk_slots(measures, bpm0, li, slots, k, st).1.steps.len(),
    decreases slots.len() - k,
{
    if !(k >= slots.len() || k < 0) {
        let (st1, o1) = slot_step(measures, bpm0, li, slots[k].0, slots[k].1, st);
        let (st2, o2) = walk_slots(measures, bpm0, li, slots, k + 1, st1);
        lemma_slot_step_at(measures, bpm0, li, slots[k].0, slots[k].1, st);
        lemma_walk_slots_ordered(measures, bpm0, li, slots, k + 1, st1);
        assert(ordered_within(o1.events, st.tick as int, st1.tick as int));
        lemma_concat_ordered(o1.events, o2.events, st.tick as int, st1.tick as int, st1.tick + o2.steps.len());
    } else {
        assert(ordered_within(seq![], st.tick as int, st.tick as int));
    }
}

proof fn lemma_walk_lines_ordered(measures: Seq<Seq<char>>, bpm0: Seq<char>, li: int, st: WalkState)
    requires
        st.tick + walk_lines(measures, bpm0, li, st).steps.len() <= usize::MAX,
    ensures
        ordered_within(walk_lines(measures, bpm0, li, st).events, st.tick as int, st.tick + walk_lines(measures, bpm0, li, st).steps.len()),
    decreases measures.len() - li,
{
    if !(li >= measures.len() || li < 0) {
        let (st1, o1) = walk_slots(measures, bpm0, li as usize, line_slots(measures[li]), 0, st);
        let rest = walk_lines(measures, bpm0, li + 1, st1);
        lemma_walk_slots_ordered(measures, bpm0, li as usize, line_slots(measures[li]), 0, st);
        lemma_walk_lines_ordered(measures, bpm0, li + 1, st1);
        lemma_concat_ordered(o1.events, rest.events, st.tick as int, st1.tick as int, st1.tick + rest.steps.len());
    } else {
        assert(ordered_within(seq![], st.tick as int, st.tick as int));
    }
}

/// Law: the notes of a resolved chart come in time order, and no note lies
/// after the last tempo step.
pub proof fn lemma_resolve_ordered(measures: Seq<Seq<char>>, bpm0: Seq<char>, div0: u32)
    requires
        resolve_spec(measures, bpm0, div0).steps.len() <= usize::MAX,
    ensures
        ordered_within(resolve_spec(measures, bpm0, div0).events, 0, resolve_spec(measures, bpm0, div0).steps.len() as int),
{
    lemma_walk_lines_ordered(measures, bpm0, 0, WalkState { tick: 0, bpm: Bpm::Initial, div: div0 });
}

/// A step of positive length: a positive tempo and a divisor above 0.
pub open spec fn step_ok(measures: Seq<Seq<char>>, bpm0: Seq<char>, t: Tempo) -> bool {
    t.divisor > 0 && denotes_positive(bpm_text(measures, bpm0, t.bpm))
}

pub open spec fn all_steps_ok(measures: Seq<Seq<char>>, bpm0: Seq<char>, steps: Seq<Tempo>) -> bool {
    forall|k: int| 0 <= k < steps.len() ==> step_ok(measures, bpm0, #[trigger] steps[k])
}

proof fn lemma_concat_steps_ok(measures: Seq<Seq<char>>, bpm0: Seq<char>, a: Seq<Tempo>, b: Seq<Tempo>)
    requires
        all_steps_ok(measures, bpm0, a),
        all_steps_ok(measures, bpm0, b),
    ensures
        all_steps_ok(measures, bpm0, a + b),
{
    assert forall|k: int| 0 <= k < (a + b).len() implies step_ok(measures, bpm0, #[trigger] (a + b)[k]) by {
        if k < a.len() {
            assert((a + b)[k] == a[k]);
        } else {
            assert((a + b)[k] == b[k - a.len()]);
        }
    }
}

proof fn lemma_walk_slots_steps_ok(measures: Seq<Seq<char>>, bpm0: Seq<char>, li: usize, slots: Seq<(int, int)>, k: int, st: WalkState)
    ensures
        all_steps_ok(measures, bpm0, walk_slots(measures, bpm0, li, slots, k, st).1.steps),
    decreases slots.len() - k,
{
    if !(k >= slots.len() || k < 0) {
        let (st1, o1) = slot_step(measures, bpm0, li, slots[k].0, slots[k].1, st);
        lemma_walk_slots_steps_ok(measures, bpm0, li, slots, k + 1, st1);
        let (st2, o2) = walk_slots(measures, bpm0, li, slots, k + 1, st1);
        lemma_concat_steps_ok(measures, bpm0, o1.steps, o2.steps);
    }
}

proof fn lemma_walk_lines_steps_ok(measures: Seq<Seq<char>>, bpm0: Seq<char>, li: int, st: WalkState)
    ensures
        all_steps_ok(measures, bpm0, walk_lines(measures, bpm0, li, st).steps),
    decreases measures.len() - li,
{
    if !(li >= measures.len() || li < 0) {
        let (st1, o1) = walk_slots(measures, bpm0, li as usize, line_slots(measures[li]), 0, st);
        lemma_walk_slots_steps_ok(measures, bpm0, li as usize, line_slots(measures[li]), 0, st);
        lemma_walk_lines_steps_ok(measures, bpm0, li + 1, st1);
        lemma_concat_steps_ok(measures, bpm0, o1.steps, walk_lines(measures, bpm0, li + 1, st1).steps);
    }
}

/// Law: every step of a resolved chart has a positive tempo and a divisor
/// above 0.
pub proof fn lemma_steps_move_forward(measures: Seq<Seq<char>>, bpm0: Seq<char>, div0: u32)
    ensures
        all_steps_ok(measures, bpm0, resolve_spec(measures, bpm0, div0).steps),
{
    lemma_walk_lines_steps_ok(measures, bpm0, 0, WalkState { tick: 0, bpm: Bpm::Initial, div: div0 });
}

// ---------------------------------------------------------------------------
// The resolver.

fn is_lit(l: &Vec<char>, lo: usize, hi: usize) -> (r: bool)
    requires
        lo <= hi <= l.len(),
    ensures
        r == lit(l@, lo as int, hi as int),
{
    float_literal(l, lo, hi).is_some()
}

fn is_pos(l: &Vec<char>, lo: usize, hi: usize) -> (r: bool)
    requires
        lo <= hi <= l.len(),
    ensures
        r == positive(l@, lo as int, hi as int),
{
    match float_literal(l, lo, hi) {
        Some(p) => p,
        None => false,
    }
}

fn mk_span(li: usize, lo: usize, hi: usize) -> (r: Span)
    ensures
        r == span(li, lo as int, hi as int),
{
    Span { line: li, start: lo, end: hi }
}

fn parse_bracket_inner(l: &Vec<char>, li: usize, ilo: usize, ihi: usize, bpm: Bpm, bpm_pos: bool, w: &mut Vec<Warning>) -> (r: Dur)
    requires
        ilo <= ihi <= l.len(),
    ensures
        r == bracket_inner(l@, li, ilo as int, ihi as int, bpm, bpm_pos).0,
        final(w)@ == old(w)@ + bracket_inner(l@, li, ilo as int, ihi as int, bpm, bpm_pos).1,
{
    if ilo < ihi && l[ilo] == '#' && is_lit(l, ilo + 1, ihi) {
        assert(old(w)@ + seq![] =~= old(w)@);
        return Dur::Seconds(mk_span(li, ilo + 1, ihi));
    }
    proof {
        lemma_find_char_bounds(l@, ilo as int, ihi as int, '#');
    }
    match find(l, ilo, ihi, '#') {
        Some(h) => {
            proof {
                lemma_find_char_bounds(l@, h + 1, ihi as int, ':');
            }
            let colon = find(l, h + 1, ihi, ':');
            let custom = is_lit(l, ilo, h);
            if custom && colon.is_some() && is_lit(l, h + 1, colon.unwrap()) && is_lit(l, colon.unwrap() + 1, ihi) {
                let c = colon.unwrap();
                assert(old(w)@ + seq![] =~= old(w)@);
                if is_pos(l, ilo, h) && is_pos(l, h + 1, c) {
                    Dur::Beats { bpm: Bpm::Written(mk_span(li, ilo, h)), per: mk_span(li, h + 1, c), count: mk_span(li, c + 1, ihi) }
                } else {
                    Dur::Default
                }
            } else if custom && is_lit(l, h + 1, ihi) {
                assert(old(w)@ + seq![] =~= old(w)@);
                Dur::Seconds(mk_span(li, h + 1, ihi))
            } else {
                match find_double(l, ilo, ihi, '#') {
                    Some(p) => {
                        w.push(Warning::FreeFormBracket { inner: mk_span(li, ilo, ihi) });
                        assert(final(w)@ =~= old(w)@ + seq![Warning::FreeFormBracket { inner: span(li, ilo as int, ihi as int) }]);
                        let delay = if is_lit(l, ilo, p) {
                            Some(mk_span(li, ilo, p))
                        } else {
                            None
                        };
                        let slide = if is_lit(l, p + 2, ihi) {
                            Some(mk_span(li, p + 2, ihi))
                        } else {
                            None
                        };
                        Dur::DelayPlus { delay, slide }
                    },
                    None => {
                        w.push(Warning::ExoticBracket { inner: mk_span(li, ilo, ihi) });
                        assert(final(w)@ =~= old(w)@ + seq![Warning::ExoticBracket { inner: span(li, ilo as int, ihi as int) }]);
                        Dur::Default
                    },
                }
            }
        },
        None => {
            proof {
                lemma_find_char_bounds(l@, ilo as int, ihi as int, ':');
            }
            match find(l, ilo, ihi, ':') {
                Some(c) => {
                    if is_lit(l, ilo, c) && is_lit(l, c + 1, ihi) && is_pos(l, ilo, c) && bpm_pos {
                        assert(old(w)@ + seq![] =~= old(w)@);
                        Dur::Beats { bpm, per: mk_span(li, ilo, c), count: mk_span(li, c + 1, ihi) }
                    } else {
                        w.push(Warning::UnparsedBracket { inner: mk_span(li, ilo, ihi) });
                        assert(final(w)@ =~= old(w)@ + seq![Warning::UnparsedBracket { inner: span(li, ilo as int, ihi as int) }]);
                        Dur::Default
                    }
                },
                None => {
                    w.push(Warning::UnparsedBracket { inner: mk_span(li, ilo, ihi) });
                    assert(final(w)@ =~= old(w)@ + seq![Warning::UnparsedBracket { inner: span(li, ilo as int, ihi as int) }]);
                    Dur::Default
                },
            }
        },
    }
}

/// A duration bracket at `lo`: the duration and the characters it takes.
fn parse_bracket(l: &Vec<char>, li: usize, lo: usize, hi: usize, bpm: Bpm, bpm_pos: bool, w: &mut Vec<Warning>) -> (r: (Dur, usize))
    requires
        lo <= hi <= l.len(),
    ensures
        r.0 == bracket(l@, li, lo as int, hi as int, bpm, bpm_pos).0,
        r.1 as int == bracket(l@, li, lo as int, hi as int, bpm, bpm_pos).1,
        final(w)@ == old(w)@ + bracket(l@, li, lo as int, hi as int, bpm, bpm_pos).2,
        r.1 <= hi - lo,
{
    if lo >= hi || l[lo] != '[' {
        assert(old(w)@ + seq![] =~= old(w)@);
        return (Dur::Default, 0);
    }
    proof {
        lemma_find_char_bounds(l@, lo as int, hi as int, ']');
    }
    match find(l, lo, hi, ']') {
        None => {
            w.push(Warning::UnterminatedBracket { text: mk_span(li, lo, hi) });
            assert(final(w)@ =~= old(w)@ + seq![Warning::UnterminatedBracket { text: span(li, lo as int, hi as int) }]);
            (Dur::Default, 0)
        },
        Some(e) => {
            let d = parse_bracket_inner(l, li, lo + 1, e, bpm, bpm_pos, w);
            (d, e + 1 - lo)
        },
    }
}

fn is_button(c: char) -> (r: bool)
    ensures
        r == is_button_char(c),
{
    '1' <= c && c <= '8'
}

fn button(c: char) -> (r: u8)
    requires
        is_button_char(c),
    ensures
        r == button_of(c),
        1 <= r <= 8,
{
    (c as u32 - '0' as u32) as u8
}

fn shape_at_exec(l: &Vec<char>, i: usize, hi: usize) -> (r: Option<(SlideShape, usize)>)
    requires
        i < hi <= l.len(),
    ensures
        r matches Some((sh, w)) ==> shape_at(l@, i as int, hi as int) == Some((sh, w as int)),
        r is None ==> shape_at(l@, i as int, hi as int) is None,
        r matches Some((sh, w)) ==> 1 <= w <= 2 && i + w <= hi,
{
    let c = l[i];
    let next_is = |x: char| -> (b: bool)
        ensures
            b == (i + 1 < hi && l@[i + 1] == x),
        { i + 1 < hi && l[i + 1] == x };
    if c == '-' {
        Some((SlideShape::Line, 1))
    } else if c == '>' {
        Some((SlideShape::ArcRight, 1))
    } else if c == '<' {
        Some((SlideShape::ArcLeft, 1))
    } else if c == '^' {
        Some((SlideShape::AutoCircle, 1))
    } else if c == 'p' {
        if next_is('p') {
            Some((SlideShape::PP, 2))
        } else {
            Some((SlideShape::P, 1))
        }
    } else if c == 'q' {
        if next_is('q') {
            Some((SlideShape::QQ, 2))
        } else {
            Some((SlideShape::Q, 1))
        }
    } else if c == 'w' {
        Some((SlideShape::W, 1))
    } else if c == 'v' {
        if next_is('V') {
            Some((SlideShape::VBig, 2))
        } else {
            Some((SlideShape::V, 1))
        }
    } else if c == 'V' {
        Some((SlideShape::VBig, 1))
    } else if c == 'z' {
        Some((SlideShape::Z, 1))
    } else if c == 's' {
        Some((SlideShape::S, 1))
    } else {
        None
    }
}

fn parse_group_legs(l: &Vec<char>, li: usize, lo: usize, hi: usize, i: usize, from: u8, w: &mut Vec<Warning>) -> (r: (Vec<SlidePart>, usize))
    requires
        i <= hi <= l.len(),
    ensures
        r.0@ == group_legs(l@, li, lo as int, hi as int, i as int, from).0,
        r.1 as int == group_legs(l@, li, lo as int, hi as int, i as int, from).1,
        final(w)@ == old(w)@ + group_legs(l@, li, lo as int, hi as int, i as int, from).2,
        i <= r.1 <= hi,
    decreases hi - i,
{
    if i >= hi {
        w.push(Warning::SlideEndedEarly { text: mk_span(li, lo, hi) });
        assert(final(w)@ =~= old(w)@ + seq![Warning::SlideEndedEarly { text: span(li, lo as int, hi as int) }]);
        return (Vec::new(), i);
    }
    match shape_at_exec(l, i, hi) {
        None => {
            assert(old(w)@ + seq![] =~= old(w)@);
            (Vec::new(), i)
        },
        Some((shape, sw)) => {
            let j = i + sw;
            let has_turn = shape == SlideShape::VBig && j < hi && is_button(l[j]);
            let turn: u8 = if has_turn {
                button(l[j])
            } else {
                0
            };
            let j2 = if has_turn {
                j + 1
            } else {
                j
            };
            if j2 < hi && is_button(l[j2]) {
                let dst = button(l[j2]);
                let j3 = j2 + 1;
                let j4 = if j3 < hi && l[j3] == 'b' {
                    j3 + 1
                } else {
                    j3
                };
                let leg = SlidePart { shape, from, to: dst, turn };
                if j4 >= hi || l[j4] == '[' || l[j4] == '*' {
                    assert(old(w)@ + seq![] =~= old(w)@);
                    let mut v = Vec::new();
                    v.push(leg);
                    assert(v@ =~= seq![leg]);
                    (v, j4)
                } else {
                    let (mut rest, e) = parse_group_legs(l, li, lo, hi, j4, dst, w);
                    let ghost rv = rest@;
                    rest.insert(0, leg);
                    assert(rest@ =~= seq![leg] + rv);
                    (rest, e)
                }
            } else {
                w.push(Warning::SlideMissingDst { text: mk_span(li, lo, hi) });
                assert(final(w)@ =~= old(w)@ + seq![Warning::SlideMissingDst { text: span(li, lo as int, hi as int) }]);
                (Vec::new(), j2)
            }
        },
    }
}

fn parse_group_close(l: &Vec<char>, li: usize, lo: usize, hi: usize, j: usize, bpm: Bpm, bpm_pos: bool, w: &mut Vec<Warning>) -> (r: (Dur, usize))
    requires
        j <= hi <= l.len(),
    ensures
        r.0 == group_close(l@, li, lo as int, hi as int, j as int, bpm, bpm_pos).0,
        r.1 as int == group_close(l@, li, lo as int, hi as int, j as int, bpm, bpm_pos).1,
        final(w)@ == old(w)@ + group_close(l@, li, lo as int, hi as int, j as int, bpm, bpm_pos).2,
        j <= r.1 <= hi,
{
    if j < hi && l[j] == '[' {
        let (d, c) = parse_bracket(l, li, j, hi, bpm, bpm_pos, w);
        let j1 = j + c;
        let j2 = if j1 < hi && l[j1] == 'b' {
            j1 + 1
        } else {
            j1
        };
        (d, j2)
    } else {
        w.push(Warning::SlideNoBracket { text: mk_span(li, lo, hi) });
        assert(final(w)@ =~= old(w)@ + seq![Warning::SlideNoBracket { text: span(li, lo as int, hi as int) }]);
        (Dur::Default, j)
    }
}

#[verifier::rlimit(60)]
fn parse_slide_groups(l: &Vec<char>, li: usize, lo: usize, hi: usize, i: usize, from: u8, bpm: Bpm, bpm_pos: bool, w: &mut Vec<Warning>) -> (r: (Vec<SlideGroup>, usize))
    requires
        i <= hi <= l.len(),
    ensures
        groups_view(r.0@) == slide_groups(l@, li, lo as int, hi as int, i as int, from, bpm, bpm_pos).0,
        r.1 as int == slide_groups(l@, li, lo as int, hi as int, i as int, from, bpm, bpm_pos).1,
        final(w)@ == old(w)@ + slide_groups(l@, li, lo as int, hi as int, i as int, from, bpm, bpm_pos).2,
        i <= r.1 <= hi,
    decreases hi - i,
{
    let ghost w0 = w@;
    let (legs, j) = parse_group_legs(l, li, lo, hi, i, from, w);
    let ghost w1 = w@;
    let (dur, j2) = parse_group_close(l, li, lo, hi, j, bpm, bpm_pos, w);
    let ghost w2 = w@;
    let next_from = if legs.len() > 0 {
        legs[legs.len() - 1].to
    } else {
        from
    };
    let ghost legs_v = legs@;
    let g = SlideGroup { legs, dur };
    assert(g@ =~= SlideGroupView { legs: legs_v, dur: dur });
    let ghost gl = group_legs(l@, li, lo as int, hi as int, i as int, from);
    let ghost gc = group_close(l@, li, lo as int, hi as int, j as int, bpm, bpm_pos);
    if j2 < hi && l[j2] == '*' {
        let (mut rest, e) = parse_slide_groups(l, li, lo, hi, j2 + 1, next_from, bpm, bpm_pos, w);
        let ghost rv = rest@;
        rest.insert(0, g);
        assert(groups_view(rest@) =~= seq![g@] + groups_view(rv));
        let ghost sr = slide_groups(l@, li, lo as int, hi as int, j2 + 1, next_from, bpm, bpm_pos);
        assert(w@ =~= w0 + (gl.2 + gc.2 + sr.2));
        (rest, e)
    } else {
        let mut v = Vec::new();
        v.push(g);
        assert(groups_view(v@) =~= seq![g@]);
        assert(w@ =~= w0 + (gl.2 + gc.2));
        (v, j2)
    }
}

fn parse_modifiers(l: &Vec<char>, i: usize, hi: usize, brk: bool, ex: bool, star: StarKind, tapless: bool) -> (r: (usize, bool, bool, StarKind, bool))
    requires
        i <= hi <= l.len(),
    ensures
        (r.0 as int, r.1, r.2, r.3, r.4) == modifiers(l@, i as int, hi as int, brk, ex, star, tapless),
        i <= r.0 <= hi,
    decreases hi - i,
{
    if i >= hi {
        return (i, brk, ex, star, tapless);
    }
    let c = l[i];
    if c == 'b' {
        parse_modifiers(l, i + 1, hi, true, ex, star, tapless)
    } else if c == 'x' {
        parse_modifiers(l, i + 1, hi, brk, true, star, tapless)
    } else if c == '$' {
        let st = if star == StarKind::Plain {
            StarKind::Star
        } else {
            StarKind::Spin
        };
        parse_modifiers(l, i + 1, hi, brk, ex, st, tapless)
    } else if c == '?' || c == '!' {
        parse_modifiers(l, i + 1, hi, brk, ex, star, true)
    } else if c == '@' {
        parse_modifiers(l, i + 1, hi, brk, ex, StarKind::Plain, tapless)
    } else {
        (i, brk, ex, star, tapless)
    }
}

fn is_shape_start(c: char) -> (r: bool)
    ensures
        r == is_shape_start_char(c),
{
    c == '-' || c == '>' || c == '<' || c == '^' || c == 'p' || c == 'q' || c == 'w' || c == 'v'
        || c == 'V' || c == 'z' || c == 's'
}

proof fn lemma_events_push(v: Seq<NoteEvent>, e: NoteEvent)
    ensures
        events_view(v.push(e)) == events_view(v) + seq![e@],
{
    assert(events_view(v.push(e)) =~= events_view(v) + seq![e@]);
}

#[verifier::rlimit(40)]
fn parse_ring_note(l: &Vec<char>, lo: usize, hi: usize, cx: NoteCtx, ev: &mut Vec<NoteEvent>, w: &mut Vec<Warning>) -> (r: usize)
    requires
        lo < hi <= l.len(),
        is_button_char(l@[lo as int]),
    ensures
        r as int == ring_note(l@, lo as int, hi as int, cx).0,
        events_view(final(ev)@) == events_view(old(ev)@) + ring_note(l@, lo as int, hi as int, cx).1,
        final(w)@ == old(w)@ + ring_note(l@, lo as int, hi as int, cx).2,
        lo < r <= hi,
{
    let btn = button(l[lo]);
    let (i, brk, ex, star, tapless) = parse_modifiers(l, lo + 1, hi, false, false, StarKind::Plain, false);
    let pos = Position::Button(btn);
    let ghost ev0 = ev@;
    if i < hi && l[i] == 'h' {
        let (d, c) = parse_bracket(l, cx.line, i + 1, hi, cx.bpm, cx.bpm_pos, w);
        let e = NoteEvent { tick: cx.tick, pos, kind: Kind::Hold { dur: d, brk, ex }, firework: false };
        ev.push(e);
        proof {
            lemma_events_push(ev0, e);
        }
        i + 1 + c
    } else if i < hi && is_shape_start(l[i]) {
        let star_kind = if tapless {
            StarKind::Plain
        } else if star == StarKind::Plain {
            StarKind::Star
        } else {
            star
        };
        let lead = if cx.bpm_pos {
            Lead::Beat(cx.bpm)
        } else {
            Lead::Half
        };
        let (groups, end) = parse_slide_groups(l, cx.line, i, hi, i, btn, cx.bpm, cx.bpm_pos, w);
        let e = NoteEvent {
            tick: cx.tick,
            pos,
            kind: Kind::Slide { star: star_kind, brk, ex, lead, groups },
            firework: false,
        };
        ev.push(e);
        proof {
            lemma_events_push(ev0, e);
        }
        end
    } else if tapless {
        assert(old(w)@ + seq![] =~= old(w)@);
        assert(events_view(old(ev)@) + seq![] =~= events_view(old(ev)@));
        i
    } else {
        let e = NoteEvent { tick: cx.tick, pos, kind: Kind::Tap { brk, ex, star }, firework: false };
        ev.push(e);
        proof {
            lemma_events_push(ev0, e);
        }
        assert(old(w)@ + seq![] =~= old(w)@);
        i
    }
}

fn zone(c: char) -> (r: Option<Zone>)
    ensures
        r == zone_of(c),
{
    if c == 'A' {
        Some(Zone::A)
    } else if c == 'B' {
        Some(Zone::B)
    } else if c == 'C' {
        Some(Zone::C)
    } else if c == 'D' {
        Some(Zone::D)
    } else if c == 'E' {
        Some(Zone::E)
    } else {
        None
    }
}

#[verifier::rlimit(100)]
#[verifier::spinoff_prover]
fn parse_touch(l: &Vec<char>, lo: usize, hi: usize, cx: NoteCtx, ev: &mut Vec<NoteEvent>, w: &mut Vec<Warning>) -> (r: bool)
    requires
        lo < hi <= l.len(),
    ensures
        r == touch_note(l@, lo as int, hi as int, cx).0,
        events_view(final(ev)@) == events_view(old(ev)@) + touch_note(l@, lo as int, hi as int, cx).1,
        final(w)@ == old(w)@ + touch_note(l@, lo as int, hi as int, cx).2,
{
    let z = match zone(l[lo]) {
        None => {
            assert(old(w)@ + seq![] =~= old(w)@);
            assert(events_view(old(ev)@) + seq![] =~= events_view(old(ev)@));
            return false;
        },
        Some(z) => z,
    };
    let i = lo + 1;
    let has_idx = i < hi && is_button(l[i]);
    let idx: u8 = if has_idx {
        button(l[i])
    } else {
        0
    };
    let i2 = if has_idx {
        i + 1
    } else {
        i
    };
    let ghost w0 = w@;
    if !has_idx && z != Zone::C {
        w.push(Warning::TouchMissingIndex { token: mk_span(cx.line, lo, hi) });
    }
    let ghost w1 = w@;
    let fw = i2 < hi && l[i2] == 'f';
    let i3 = if fw {
        i2 + 1
    } else {
        i2
    };
    let pos = Position::Touch(z, idx);
    let ghost ev0 = ev@;
    if i3 < hi && l[i3] == 'h' {
        let (d, _c) = parse_bracket(l, cx.line, i3 + 1, hi, cx.bpm, cx.bpm_pos, w);
        let e = NoteEvent { tick: cx.tick, pos, kind: Kind::TouchHold { dur: d, firework: fw }, firework: fw };
        ev.push(e);
        proof {
            lemma_events_push(ev0, e);
        }
        assert(w@ =~= w0 + (w1.skip(w0.len() as int) + w@.skip(w1.len() as int)));
        true
    } else {
        let e = NoteEvent {
            tick: cx.tick,
            pos,
            kind: Kind::Tap { brk: false, ex: false, star: StarKind::Plain },
            firework: fw,
        };
        ev.push(e);
        proof {
            lemma_events_push(ev0, e);
        }
        true
    }
}

#[verifier::rlimit(40)]
fn parse_ring_run(l: &Vec<char>, lo: usize, hi: usize, idx: usize, emitted: bool, cx: NoteCtx, ev: &mut Vec<NoteEvent>, w: &mut Vec<Warning>) -> (r: bool)
    requires
        lo <= idx <= hi <= l.len(),
    ensures
        r == ring_run(l@, lo as int, hi as int, idx as int, emitted, cx).0,
        events_view(final(ev)@) == events_view(old(ev)@) + ring_run(l@, lo as int, hi as int, idx as int, emitted, cx).1,
        final(w)@ == old(w)@ + ring_run(l@, lo as int, hi as int, idx as int, emitted, cx).2,
    decreases hi - idx,
{
    if idx >= hi || !is_button(l[idx]) {
        assert(old(w)@ + seq![] =~= old(w)@);
        assert(events_view(old(ev)@) + seq![] =~= events_view(old(ev)@));
        return emitted;
    }
    let ghost ev0 = events_view(ev@);
    let ghost w0 = w@;
    let e = parse_ring_note(l, idx, hi, cx, ev, w);
    let ghost ev1 = events_view(ev@);
    let ghost w1 = w@;
    let r = parse_ring_run(l, lo, hi, e, true, cx, ev, w);
    let ghost rn = ring_note(l@, idx as int, hi as int, cx);
    let ghost rr = ring_run(l@, lo as int, hi as int, e as int, true, cx);
    assert(events_view(ev@) =~= ev0 + (rn.1 + rr.1));
    assert(w@ =~= w0 + (rn.2 + rr.2));
    r
}

/// Parse one note token `[lo..hi]`; `false` if it is not recognised.
fn parse_note(l: &Vec<char>, lo: usize, hi: usize, cx: NoteCtx, ev: &mut Vec<NoteEvent>, w: &mut Vec<Warning>) -> (r: bool)
    requires
        lo < hi <= l.len(),
    ensures
        r == note_token(l@, lo as int, hi as int, cx).0,
        events_view(final(ev)@) == events_view(old(ev)@) + note_token(l@, lo as int, hi as int, cx).1,
        final(w)@ == old(w)@ + note_token(l@, lo as int, hi as int, cx).2,
{
    let c = l[lo];
    if 'A' <= c && c <= 'Z' {
        parse_touch(l, lo, hi, cx, ev, w)
    } else if hi - lo == 1 && c == '0' {
        assert(old(w)@ + seq![] =~= old(w)@);
        assert(events_view(old(ev)@) + seq![] =~= events_view(old(ev)@));
        true
    } else {
        parse_ring_run(l, lo, hi, lo, false, cx, ev, w)
    }
}

/// Parse the `/`-separated notes `parts[k..]` of a slot.
#[verifier::rlimit(40)]
fn parse_slot_notes(l: &Vec<char>, parts: &Vec<(usize, usize)>, cx: NoteCtx, ev: &mut Vec<NoteEvent>, w: &mut Vec<Warning>)
    requires
        forall|k: int| 0 <= k < parts.len() ==> (#[trigger] parts[k]).0 <= parts[k].1 <= l.len(),
    ensures
        events_view(final(ev)@) == events_view(old(ev)@) + slot_notes(l@, parts@.map_values(|p: (usize, usize)| (p.0 as int, p.1 as int)), cx).0,
        final(w)@ == old(w)@ + slot_notes(l@, parts@.map_values(|p: (usize, usize)| (p.0 as int, p.1 as int)), cx).1,
{
    let ghost all = parts@.map_values(|p: (usize, usize)| (p.0 as int, p.1 as int));
    let ghost ev0 = events_view(ev@);
    let ghost w0 = w@;
    let mut k: usize = 0;
    assert(all.skip(0) =~= all);
    while k < parts.len()
        invariant
            k <= parts.len(),
            all == parts@.map_values(|p: (usize, usize)| (p.0 as int, p.1 as int)),
            forall|q: int| 0 <= q < parts.len() ==> (#[trigger] parts[q]).0 <= parts[q].1 <= l.len(),
            events_view(ev@) + slot_notes(l@, all.skip(k as int), cx).0 == ev0 + slot_notes(l@, all, cx).0,
            w@ + slot_notes(l@, all.skip(k as int), cx).1 == w0 + slot_notes(l@, all, cx).1,
        decreases parts.len() - k,
    {
        let ghost rest = all.skip(k as int);
        let ghost evb = events_view(ev@);
        let ghost wb = w@;
        let (pa, pb) = parts[k];
        let (a, b) = trim(l, pa, pb);
        assert(rest[0] == (pa as int, pb as int));
        assert(rest.drop_first() =~= all.skip(k + 1));
        if a < b {
            let ok = parse_note(l, a, b, cx, ev, w);
            if !ok {
                w.push(Warning::UnparsedNote { token: mk_span(cx.line, a, b), tick: cx.tick });
            }
            let ghost nt = note_token(l@, a as int, b as int, cx);
            let ghost sn = slot_notes(l@, all.skip(k + 1), cx);
            assert(events_view(ev@) + sn.0 =~= evb + (nt.1 + sn.0));
            if ok {
                assert(w@ + sn.1 =~= wb + (nt.2 + sn.1));
            } else {
                assert(w@ + sn.1 =~= wb + (nt.2.push(Warning::UnparsedNote { token: span(cx.line, a as int, b as int), tick: cx.tick }) + sn.1));
            }
        } else {
            let ghost sn = slot_notes(l@, all.skip(k + 1), cx);
            assert(seq![] + sn.0 =~= sn.0);
            assert(seq![] + sn.1 =~= sn.1);
        }
        k = k + 1;
    }
    assert(all.skip(parts.len() as int) =~= Seq::<(int, int)>::empty());
    assert(events_view(ev@) + seq![] =~= events_view(ev@));
    assert(w@ + seq![] =~= w@);
}

/// A tempo whose text lies inside the chart.
pub open spec fn bpm_in_chart(measures: Seq<Seq<char>>, b: Bpm) -> bool {
    match b {
        Bpm::Initial => true,
        Bpm::Written(sp) => sp.line < measures.len() && sp.start <= sp.end <= measures[sp.line as int].len(),
    }
}

pub open spec fn lines_view(m: Seq<Vec<char>>) -> Seq<Seq<char>> {
    m.map_values(|v: Vec<char>| v@)
}

#[verifier::rlimit(40)]
fn parse_slot_head(l: &Vec<char>, li: usize, lo: usize, hi: usize, bpm: Bpm, div: u32, w: &mut Vec<Warning>) -> (r: (usize, Bpm, u32))
    requires
        lo <= hi <= l.len(),
    ensures
        (r.0 as int, r.1, r.2) == (slot_head(l@, li, lo as int, hi as int, bpm, div).0, slot_head(l@, li, lo as int, hi as int, bpm, div).1, slot_head(l@, li, lo as int, hi as int, bpm, div).2),
        final(w)@ == old(w)@ + slot_head(l@, li, lo as int, hi as int, bpm, div).3,
        lo <= r.0 <= hi,
        r.1 == bpm || (r.1 matches Bpm::Written(sp) && sp.line == li && sp.start <= sp.end <= hi),
    decreases hi - lo,
{
    let t = trim_start(l, lo, hi);
    if t < hi && l[t] == '(' {
        proof {
            lemma_find_char_bounds(l@, t + 1, hi as int, ')');
        }
        if let Some(e) = find(l, t + 1, hi, ')') {
            let ok = is_lit(l, t + 1, e);
            let nb = if ok {
                Bpm::Written(mk_span(li, t + 1, e))
            } else {
                bpm
            };
            let ghost w0 = w@;
            if !ok {
                w.push(Warning::BadBpm { line: li, num: mk_span(li, t + 1, e) });
            }
            let ghost w1 = w@;
            let r = parse_slot_head(l, li, e + 1, hi, nb, div, w);
            assert(w@ =~= w0 + (w1.skip(w0.len() as int) + w@.skip(w1.len() as int)));
            return r;
        }
    }
    if t < hi && l[t] == '{' {
        proof {
            lemma_find_char_bounds(l@, t + 1, hi as int, '}');
        }
        if let Some(e) = find(l, t + 1, hi, '}') {
            let ghost w0 = w@;
            let nd = match parse_uint(l, t + 1, e, 0xffff_ffff) {
                Some(d) => if d > 0 {
                    d as u32
                } else {
                    div
                },
                None => {
                    if t + 1 < e && l[t + 1] == '#' {
                        w.push(Warning::SecondsMeasure { line: li });
                    } else {
                        w.push(Warning::BadDivisor { line: li, num: mk_span(li, t + 1, e) });
                    }
                    div
                },
            };
            let ghost w1 = w@;
            let r = parse_slot_head(l, li, e + 1, hi, bpm, nd, w);
            assert(w@ =~= w0 + (w1.skip(w0.len() as int) + w@.skip(w1.len() as int)));
            return r;
        }
    }
    assert(old(w)@ + seq![] =~= old(w)@);
    (lo, bpm, div)
}

/// What is left of the walk from slot `k` of line `li` on.
pub open spec fn rest_of_walk(measures: Seq<Seq<char>>, bpm0: Seq<char>, li: usize, slots: Seq<(int, int)>, k: int, st: WalkState) -> WalkOut {
    let (st1, o) = walk_slots(measures, bpm0, li, slots, k, st);
    join(o, walk_lines(measures, bpm0, li + 1, st1))
}

/// `line_slots` of a line, computed.
fn slots_of(l: &Vec<char>) -> (r: Vec<(usize, usize)>)
    ensures
        r@.map_values(|p: (usize, usize)| (p.0 as int, p.1 as int)) == line_slots(l@),
        forall|k: int| 0 <= k < r.len() ==> (#[trigger] r[k]).0 <= r[k].1 <= l.len(),
{
    let mut p = split(l, 0, l.len(), ',');
    let ghost pv = p@.map_values(|q: (usize, usize)| (q.0 as int, q.1 as int));
    if p.len() > 0 && p[p.len() - 1].0 == p[p.len() - 1].1 {
        assert(pv.last() == (p@.last().0 as int, p@.last().1 as int));
        p.pop();
        assert(p@.map_values(|q: (usize, usize)| (q.0 as int, q.1 as int)) =~= pv.drop_last());
    } else {
        proof {
            if p.len() > 0 {
                assert(pv.last() == (p@.last().0 as int, p@.last().1 as int));
            }
        }
    }
    p
}

fn tempo_positive(measures: &Vec<Vec<char>>, Ghost(bpm0): Ghost<Seq<char>>, pos0: bool, b: Bpm) -> (r: bool)
    requires
        bpm_in_chart(lines_view(measures@), b),
        pos0 == denotes_positive(bpm0),
    ensures
        r == denotes_positive(bpm_text(lines_view(measures@), bpm0, b)),
{
    match b {
        Bpm::Initial => pos0,
        Bpm::Written(sp) => {
            assert(lines_view(measures@)[sp.line as int] == measures@[sp.line as int]@);
            is_pos(&measures[sp.line], sp.start, sp.end)
        },
    }
}

#[verifier::rlimit(60)]
fn resolve_slot(
    measures: &Vec<Vec<char>>,
    Ghost(bpm0): Ghost<Seq<char>>,
    pos0: bool,
    li: usize,
    lo: usize,
    hi: usize,
    st: WalkState,
    steps: &mut Vec<Tempo>,
    events: &mut Vec<NoteEvent>,
    warnings: &mut Vec<Warning>,
) -> (r: WalkState)
    requires
        li < measures.len(),
        lo <= hi <= measures@[li as int].len(),
        pos0 == denotes_positive(bpm0),
        bpm_in_chart(lines_view(measures@), st.bpm),
        st.tick == old(steps).len(),
    ensures
        r == slot_step(lines_view(measures@), bpm0, li, lo as int, hi as int, st).0,
        final(steps)@ == old(steps)@ + slot_step(lines_view(measures@), bpm0, li, lo as int, hi as int, st).1.steps,
        events_view(final(events)@) == events_view(old(events)@) + slot_step(lines_view(measures@), bpm0, li, lo as int, hi as int, st).1.events,
        final(warnings)@ == old(warnings)@ + slot_step(lines_view(measures@), bpm0, li, lo as int, hi as int, st).1.warnings,
        r.tick == final(steps).len(),
        bpm_in_chart(lines_view(measures@), r.bpm),
{
    let ghost m = lines_view(measures@);
    let l = &measures[li];
    assert(m[li as int] == l@);
    let ghost w0 = warnings@;
    let ghost e0 = events_view(events@);
    let (rs, b, d) = parse_slot_head(l, li, lo, hi, st.bpm, st.div, warnings);
    let ghost w1 = warnings@;
    let pos = tempo_positive(measures, Ghost(bpm0), pos0, b);
    let cx = NoteCtx { line: li, tick: st.tick, bpm: b, bpm_pos: pos };
    let (ea, eb) = trim(l, rs, hi);
    if ea < eb {
        let parts = split(l, ea, eb, '/');
        parse_slot_notes(l, &parts, cx, events, warnings);
    } else {
        assert(events_view(events@) =~= e0 + seq![]);
        assert(warnings@ =~= w1 + seq![]);
    }
    let ghost w2 = warnings@;
    let ghost sh = slot_head(l@, li, lo as int, hi as int, st.bpm, st.div);
    let ghost notes = if ea < eb {
        slot_notes(l@, split_ranges(l@, ea as int, eb as int, '/'), cx)
    } else {
        (seq![], seq![])
    };
    assert(w1 == w0 + sh.3);
    assert(w2 == w1 + notes.1);
    if pos && d > 0 {
        steps.push(Tempo { bpm: b, divisor: d });
        assert(warnings@ =~= w0 + (sh.3 + notes.1));
        WalkState { tick: steps.len(), bpm: b, div: d }
    } else {
        warnings.push(Warning::ZeroStep { line: li, tick: st.tick });
        assert(warnings@ =~= w0 + (sh.3 + notes.1 + seq![Warning::ZeroStep { line: li, tick: st.tick }]));
        assert(steps@ =~= old(steps)@ + seq![]);
        WalkState { tick: st.tick, bpm: b, div: d }
    }
}

proof fn lemma_rest_step(measures: Seq<Seq<char>>, bpm0: Seq<char>, li: usize, slots: Seq<(int, int)>, k: int, st: WalkState)
    requires
        0 <= k < slots.len(),
    ensures
        ({
            let (st1, o1) = slot_step(measures, bpm0, li, slots[k].0, slots[k].1, st);
            let r = rest_of_walk(measures, bpm0, li, slots, k, st);
            let r1 = rest_of_walk(measures, bpm0, li, slots, k + 1, st1);
            &&& r.steps == o1.steps + r1.steps
            &&& r.events == o1.events + r1.events
            &&& r.warnings == o1.warnings + r1.warnings
        }),
{
    let (st1, o1) = slot_step(measures, bpm0, li, slots[k].0, slots[k].1, st);
    let (st2, o2) = walk_slots(measures, bpm0, li, slots, k + 1, st1);
    let tail = walk_lines(measures, bpm0, li + 1, st2);
    assert(o1.steps + o2.steps + tail.steps =~= o1.steps + (o2.steps + tail.steps));
    assert(o1.events + o2.events + tail.events =~= o1.events + (o2.events + tail.events));
    assert(o1.warnings + o2.warnings + tail.warnings =~= o1.warnings + (o2.warnings + tail.warnings));
}

proof fn lemma_rest_end(measures: Seq<Seq<char>>, bpm0: Seq<char>, li: usize, slots: Seq<(int, int)>, st: WalkState)
    ensures
        ({
            let r = rest_of_walk(measures, bpm0, li, slots, slots.len() as int, st);
            let t = walk_lines(measures, bpm0, li + 1, st);
            &&& r.steps == t.steps
            &&& r.events == t.events
            &&& r.warnings == t.warnings
        }),
{
    let t = walk_lines(measures, bpm0, li + 1, st);
    assert(seq![] + t.steps =~= t.steps);
    assert(seq![] + t.events =~= t.events);
    assert(seq![] + t.warnings =~= t.warnings);
}

/// Resolve a chart (its measure lines) into tempo steps and notes, from the
/// tempo `bpm0` (the text of a number) and divisor `div0`; the remarks on
/// the text are appended to `warnings`. The notes come in time order.
#[verifier::rlimit(60)]
pub fn resolve(measures: &Vec<Vec<char>>, bpm0: &Vec<char>, div0: u32, warnings: &mut Vec<Warning>) -> (r: Chart)
    ensures
        r.steps@ == resolve_spec(lines_view(measures@), bpm0@, div0).steps,
        events_view(r.events@) == resolve_spec(lines_view(measures@), bpm0@, div0).events,
        final(warnings)@ == old(warnings)@ + resolve_spec(lines_view(measures@), bpm0@, div0).warnings,
        forall|i: int, j: int| 0 <= i <= j < r.events.len() ==> (#[trigger] r.events[i]).tick <= (#[trigger] r.events[j]).tick,
        forall|i: int| 0 <= i < r.events.len() ==> (#[trigger] r.events[i]).tick <= r.steps.len(),
{
    let ghost m = lines_view(measures@);
    let ghost b0 = bpm0@;
    let ghost total = resolve_spec(m, b0, div0);
    let pos0 = match float_literal(bpm0, 0, bpm0.len()) {
        Some(p) => p,
        None => false,
    };
    assert(bpm0@.subrange(0, bpm0.len() as int) =~= bpm0@);
    let mut st = WalkState { tick: 0, bpm: Bpm::Initial, div: div0 };
    let mut steps: Vec<Tempo> = Vec::new();
    let mut events: Vec<NoteEvent> = Vec::new();
    let mut li: usize = 0;
    assert(seq![] + total.steps =~= total.steps);
    assert(events_view(events@) + total.events =~= total.events);
    while li < measures.len()
        invariant
            li <= measures.len(),
            m == lines_view(measures@),
            b0 == bpm0@,
            total == resolve_spec(m, b0, div0),
            pos0 == denotes_positive(b0),
            st.tick == steps.len(),
            bpm_in_chart(m, st.bpm),
            steps@ + walk_lines(m, b0, li as int, st).steps == total.steps,
            events_view(events@) + walk_lines(m, b0, li as int, st).events == total.events,
            warnings@ + walk_lines(m, b0, li as int, st).warnings == old(warnings)@ + total.warnings,
        decreases measures.len() - li,
    {
        let slots = slots_of(&measures[li]);
        assert(m[li as int] == measures@[li as int]@);
        let ghost sv = slots@.map_values(|p: (usize, usize)| (p.0 as int, p.1 as int));
        let mut k: usize = 0;
        while k < slots.len()
            invariant
                li < measures.len(),
                k <= slots.len(),
                m == lines_view(measures@),
                b0 == bpm0@,
                total == resolve_spec(m, b0, div0),
                pos0 == denotes_positive(b0),
                st.tick == steps.len(),
                bpm_in_chart(m, st.bpm),
                sv == slots@.map_values(|p: (usize, usize)| (p.0 as int, p.1 as int)),
                forall|q: int| 0 <= q < slots.len() ==> (#[trigger] slots[q]).0 <= slots[q].1 <= measures@[li as int].len(),
                steps@ + rest_of_walk(m, b0, li, sv, k as int, st).steps == total.steps,
                events_view(events@) + rest_of_walk(m, b0, li, sv, k as int, st).events == total.events,
                warnings@ + rest_of_walk(m, b0, li, sv, k as int, st).warnings == old(warnings)@ + total.warnings,
            decreases slots.len() - k,
        {
            let (lo, hi) = slots[k];
            assert(sv[k as int] == (lo as int, hi as int));
            proof {
                lemma_rest_step(m, b0, li, sv, k as int, st);
            }
            let ghost s0 = steps@;
            let ghost e0 = events_view(events@);
            let ghost w0 = warnings@;
            let ghost step = slot_step(m, b0, li, lo as int, hi as int, st);
            let ghost r1 = rest_of_walk(m, b0, li, sv, k + 1, step.0);
            let nst = resolve_slot(measures, Ghost(b0), pos0, li, lo, hi, st, &mut steps, &mut events, warnings);
            assert(steps@ + r1.steps =~= s0 + (step.1.steps + r1.steps));
            assert(events_view(events@) + r1.events =~= e0 + (step.1.events + r1.events));
            assert(warnings@ + r1.warnings =~= w0 + (step.1.warnings + r1.warnings));
            st = nst;
            k = k + 1;
        }
        proof {
            lemma_rest_end(m, b0, li, sv, st);
        }
        li = li + 1;
    }
    assert(steps@ + seq![] =~= steps@);
    assert(events_view(events@) + seq![] =~= events_view(events@));
    assert(warnings@ + seq![] =~= warnings@);
    proof {
        lemma_resolve_ordered(m, b0, div0);
        let ev = events_view(events@);
        assert forall|i: int, j: int| 0 <= i <= j < events.len() implies (#[trigger] events@[i]).tick <= (#[trigger] events@[j]).tick by {
            assert(ev[i] == events@[i]@);
            assert(ev[j] == events@[j]@);
        }
        assert forall|i: int| 0 <= i < events.len() implies (#[trigger] events@[i]).tick <= steps.len() by {
            assert(ev[i] == events@[i]@);
        }
    }
    Chart { steps, events }
}

} // verus!
