//! Data model for a resolved maimai chart.
//!
//! Numbers (tempos, bracket lengths) are never evaluated here: each one is
//! kept as the place in the chart text where it is written, and a time is
//! kept as a tick, the count of tempo steps before it. The value of a tick
//! in seconds is the sum of the step lengths `240 / (bpm * divisor)` before
//! it (see `Chart::steps`).

use vstd::prelude::*;

verus! {

/// Touch sensor zone.
#[derive(Clone, Copy, Debug, PartialEq, Eq, Structural)]
pub enum Zone {
    A,
    B,
    C,
    D,
    E,
}

/// Where a note lives.
#[derive(Clone, Copy, Debug, PartialEq, Eq, Structural)]
pub enum Position {
    /// Ring button 1..8 (1 = top-right, clockwise).
    Button(u8),
    /// Touch sensor: zone + index (index 0 for center `C`).
    Touch(Zone, u8),
}

#[derive(Clone, Copy, Debug, PartialEq, Eq, Structural)]
pub enum StarKind {
    /// Not a star.
    Plain,
    Star,
    Spin,
}

/// Slide shape, mirroring simai notation.
#[derive(Clone, Copy, Debug, PartialEq, Eq, Structural)]
pub enum SlideShape {
    /// `-`
    Line,
    /// `>`
    ArcRight,
    /// `<`
    ArcLeft,
    /// `^` (shortest-direction ring arc)
    AutoCircle,
    /// `p`
    P,
    /// `q`
    Q,
    /// `pp`
    PP,
    /// `qq`
    QQ,
    /// `v`
    V,
    /// `V` (L-shape via a turning-point button)
    VBig,
    /// `z`
    Z,
    /// `s`
    S,
    /// `w` (fan / WiFi)
    W,
}

/// A range `[start, end)` of characters in line `line` of a chart.
#[derive(Clone, Copy, Debug, PartialEq, Eq, Structural)]
pub struct Span {
    pub line: usize,
    pub start: usize,
    pub end: usize,
}

/// Where the tempo in effect was written: the initial tempo handed to the
/// resolver, or a `(BPM)` token.
#[derive(Clone, Copy, Debug, PartialEq, Eq, Structural)]
pub enum Bpm {
    Initial,
    Written(Span),
}

/// A duration in seconds, as written in a `[...]` bracket.
#[derive(Clone, Copy, Debug, PartialEq, Eq, Structural)]
pub enum Dur {
    /// The fallback of half a second.
    Default,
    /// `count * 240 / (bpm * per)` seconds (`[per:count]`, `[bpm#per:count]`).
    Beats { bpm: Bpm, per: Span, count: Span },
    /// A number of seconds (`[#s]`, `[bpm#s]`).
    Seconds(Span),
    /// `delay + slide` seconds (`[delay##slide]`); a missing or unreadable
    /// part counts as 0 (delay) or 0.5 (slide).
    DelayPlus { delay: Option<Span>, slide: Option<Span> },
}

/// When a slide's motion starts, after its star tap.
#[derive(Clone, Copy, Debug, PartialEq, Eq, Structural)]
pub enum Lead {
    /// One quarter note: `60 / bpm` seconds.
    Beat(Bpm),
    /// Half a second (the tempo was not positive).
    Half,
}

/// One leg of a (possibly chained) slide.
#[derive(Clone, Copy, Debug, PartialEq, Eq, Structural)]
pub struct SlidePart {
    pub shape: SlideShape,
    pub from: u8,
    pub to: u8,
    /// Turning-point button for the `V` (L-shape) slide; 0 = none.
    pub turn: u8,
}

/// Legs that share one bracket: the bracket's length (at least 0) is split
/// evenly among them, one after the other.
#[derive(Clone, Debug)]
pub struct SlideGroup {
    pub legs: Vec<SlidePart>,
    pub dur: Dur,
}

#[verifier::ext_equal]
pub struct SlideGroupView {
    pub legs: Seq<SlidePart>,
    pub dur: Dur,
}

impl View for SlideGroup {
    type V = SlideGroupView;

    open spec fn view(&self) -> SlideGroupView {
        SlideGroupView { legs: self.legs@, dur: self.dur }
    }
}

#[derive(Clone, Debug)]
pub enum Kind {
    Tap { brk: bool, ex: bool, star: StarKind },
    /// Ends `max(dur, 0)` after the hit.
    Hold { dur: Dur, brk: bool, ex: bool },
    /// The groups run one after the other from `lead` after the star tap.
    Slide { star: StarKind, brk: bool, ex: bool, lead: Lead, groups: Vec<SlideGroup> },
    /// Ends `max(dur, 0)` after the hit.
    TouchHold { dur: Dur, firework: bool },
}

#[verifier::ext_equal]
pub enum KindView {
    Tap { brk: bool, ex: bool, star: StarKind },
    Hold { dur: Dur, brk: bool, ex: bool },
    Slide { star: StarKind, brk: bool, ex: bool, lead: Lead, groups: Seq<SlideGroupView> },
    TouchHold { dur: Dur, firework: bool },
}

pub open spec fn groups_view(g: Seq<SlideGroup>) -> Seq<SlideGroupView> {
    g.map_values(|x: SlideGroup| x@)
}

impl View for Kind {
    type V = KindView;

    open spec fn view(&self) -> KindView {
        match self {
            Kind::Tap { brk, ex, star } => KindView::Tap { brk: *brk, ex: *ex, star: *star },
            Kind::Hold { dur, brk, ex } => KindView::Hold { dur: *dur, brk: *brk, ex: *ex },
            Kind::Slide { star, brk, ex, lead, groups } => KindView::Slide {
                star: *star,
                brk: *brk,
                ex: *ex,
                lead: *lead,
                groups: groups_view(groups@),
            },
            Kind::TouchHold { dur, firework } => KindView::TouchHold {
                dur: *dur,
                firework: *firework,
            },
        }
    }
}

#[derive(Clone, Debug)]
pub struct NoteEvent {
    /// Hit time as a tick: the number of tempo steps before the note.
    pub tick: usize,
    pub pos: Position,
    pub kind: Kind,
    pub firework: bool,
}

#[verifier::ext_equal]
pub struct EventView {
    pub tick: usize,
    pub pos: Position,
    pub kind: KindView,
    pub firework: bool,
}

impl View for NoteEvent {
    type V = EventView;

    open spec fn view(&self) -> EventView {
        EventView { tick: self.tick, pos: self.pos, kind: self.kind@, firework: self.firework }
    }
}

pub open spec fn events_view(v: Seq<NoteEvent>) -> Seq<EventView> {
    v.map_values(|e: NoteEvent| e@)
}

/// One comma step of the chart: `240 / (bpm * divisor)` seconds.
#[derive(Clone, Copy, Debug, PartialEq, Eq, Structural)]
pub struct Tempo {
    pub bpm: Bpm,
    pub divisor: u32,
}

/// A resolved chart: the tempo of each step that advanced time, and the
/// notes in time order.
#[derive(Clone, Debug)]
pub struct Chart {
    pub steps: Vec<Tempo>,
    pub events: Vec<NoteEvent>,
}

/// Difficulty slot metadata.
#[derive(Clone, Debug)]
pub struct DifficultyInfo {
    /// 1..=6
    pub index: u8,
    pub name: &'static str,
    /// e.g. "13.7"
    pub level: String,
    pub charter: String,
    /// has an &inote_N block
    pub present: bool,
}

/// Short names of the difficulty slots 1..=6 (slot 0: "").
pub open spec fn difficulty_name_spec(i: u8) -> Seq<char> {
    if i == 1 {
        seq!['E', 'Z']
    } else if i == 2 {
        seq!['S', 'T', 'D']
    } else if i == 3 {
        seq!['H', 'R', 'D']
    } else if i == 4 {
        seq!['M', 'A', 'S', 'T']
    } else if i == 5 {
        seq!['R', 'E', 'I', 'M']
    } else if i == 6 {
        seq!['U', 'P', 'R']
    } else {
        seq![]
    }
}

pub fn difficulty_name(i: u8) -> (r: &'static str)
    requires
        i <= 6,
    ensures
        r@ == difficulty_name_spec(i),
{
    if i == 1 {
        proof { reveal_strlit("EZ"); }
        "EZ"
    } else if i == 2 {
        proof { reveal_strlit("STD"); }
        "STD"
    } else if i == 3 {
        proof { reveal_strlit("HRD"); }
        "HRD"
    } else if i == 4 {
        proof { reveal_strlit("MAST"); }
        "MAST"
    } else if i == 5 {
        proof { reveal_strlit("REIM"); }
        "REIM"
    } else if i == 6 {
        proof { reveal_strlit("UPR"); }
        "UPR"
    } else {
        proof { reveal_strlit(""); }
        ""
    }
}

} // verus!
