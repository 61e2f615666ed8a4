//! Background art: which file to open, the style switch, the dim level and
//! when a new backdrop layer is due, the grayscale ramp, and how canvas cells map onto source
//! pixels. (Decoding images and video, and averaging pixels, happen outside
//! this library.)

use vstd::prelude::*;
use crate::text::chars_of;

verus! {

/// How pixels become cells.
#[derive(Clone, Copy, Debug, PartialEq, Eq, Structural)]
pub enum BgStyle {
    /// Grayscale char ramp (` .,:;-=+*#%@`) in dark-gray 256-color foregrounds.
    CharRamp,
    /// Space chars with dimmed truecolor painted into cell backgrounds
    /// (assumes a 24-bit-color terminal).
    TruecolorBg,
}

fn is_word(v: &Vec<char>, w: &Vec<char>) -> (r: bool)
    ensures
        r == (v@ == w@),
{
    if v.len() != w.len() {
        return false;
    }
    let mut i: usize = 0;
    while i < v.len()
        invariant
            v.len() == w.len(),
            i <= v.len(),
            forall|k: int| 0 <= k < i ==> v@[k] == w@[k],
        decreases v.len() - i,
    {
        if v[i] != w[i] {
            return false;
        }
        i = i + 1;
    }
    assert(v@ =~= w@);
    true
}

impl BgStyle {
    /// Parse a `--bg-style` value: `ramp` or `cells`; anything else is
    /// unknown.
    pub fn parse(s: &str) -> (r: Option<BgStyle>)
        ensures
            r == (if s@ == seq!['r', 'a', 'm', 'p'] {
                Some(BgStyle::CharRamp)
            } else if s@ == seq!['c', 'e', 'l', 'l', 's'] {
                Some(BgStyle::TruecolorBg)
            } else {
                None
            }),
    {
        let v = chars_of(s);
        let ramp = vec!['r', 'a', 'm', 'p'];
        let cells = vec!['c', 'e', 'l', 'l', 's'];
        assert(ramp@ =~= seq!['r', 'a', 'm', 'p']);
        assert(cells@ =~= seq!['c', 'e', 'l', 'l', 's']);
        if is_word(&v, &ramp) {
            Some(BgStyle::CharRamp)
        } else if is_word(&v, &cells) {
            Some(BgStyle::TruecolorBg)
        } else {
            None
        }
    }
}

/// Number of ramp levels (grays 232..=243).
pub const GRAY_LEVELS: usize = 12;

/// Brightest ramp index usable at a given `--bg` level (1..=10): level 5
/// caps at index 5 (code 237), level 10 reaches the full ramp (code 243);
/// never below 1.
pub open spec fn max_index_spec(level: u8) -> int {
    let m = (11 * level as int) / 10;
    if m < 1 { 1 } else { m }
}

pub fn max_index(level: u8) -> (r: usize)
    ensures
        r == max_index_spec(level),
        1 <= r <= 280,
{
    let m = 11 * (level as usize) / 10;
    if m < 1 {
        1
    } else {
        m
    }
}

/// The ramp character for index `i`, darkest (blank) to brightest.
pub open spec fn ramp_char_spec(i: int) -> char {
    if i <= 0 { ' ' } else if i == 1 { '.' } else if i == 2 { ',' } else if i == 3 { ':' }
    else if i == 4 { ';' } else if i == 5 { '-' } else if i == 6 { '=' } else if i == 7 { '+' }
    else if i == 8 { '*' } else if i == 9 { '#' } else if i == 10 { '%' } else { '@' }
}

pub fn ramp_char(i: usize) -> (r: char)
    requires
        i < GRAY_LEVELS,
    ensures
        r == ramp_char_spec(i as int),
{
    if i == 0 { ' ' } else if i == 1 { '.' } else if i == 2 { ',' } else if i == 3 { ':' }
    else if i == 4 { ';' } else if i == 5 { '-' } else if i == 6 { '=' } else if i == 7 { '+' }
    else if i == 8 { '*' } else if i == 9 { '#' } else if i == 10 { '%' } else { '@' }
}

/// Quantize a channel to 5 bits (so neighbouring cells share escape codes):
/// the multiple of 8 below it, plus 4.
pub fn quantize5(v: u8) -> (r: u8)
    ensures
        r == (v / 8) * 8 + 4,
{
    let r = (v & 0xF8) | 0x04;
    assert((v & 0xF8) | 0x04 == (v / 8) * 8 + 4) by (bit_vector);
    r
}

/// The source pixels `[lo, hi)` that cell `i` of `cells` covers along an
/// axis of `src` pixels: an even share, at least one pixel, inside the
/// source.
pub open spec fn cell_span_spec(i: int, src: int, cells: int) -> (int, int) {
    let lo = i * src / cells;
    let a = (i + 1) * src / cells;
    let b = if a > lo + 1 { a } else { lo + 1 };
    (lo, if b < src { b } else { src })
}

pub fn cell_span(i: usize, src: usize, cells: usize) -> (r: (usize, usize))
    requires
        i < cells,
    ensures
        (r.0 as int, r.1 as int) == cell_span_spec(i as int, src as int, cells as int),
        r.0 <= src,
{
    let iu = i as u128;
    let su = src as u128;
    let cu = cells as u128;
    assert(iu * su <= 0xffff_ffff_ffff_ffff * 0xffff_ffff_ffff_ffff) by (nonlinear_arith)
        requires
            iu <= 0xffff_ffff_ffff_ffff,
            su <= 0xffff_ffff_ffff_ffff,
    ;
    assert((iu + 1) * su <= 0x1_0000_0000_0000_0000 * 0xffff_ffff_ffff_ffff) by (nonlinear_arith)
        requires
            iu + 1 <= 0x1_0000_0000_0000_0000,
            su <= 0xffff_ffff_ffff_ffff,
    ;
    assert((iu as int) * (su as int) / (cu as int) <= su as int) by (nonlinear_arith)
        requires
            iu < cu,
            cu > 0,
    ;
    let lo = iu * su / cu;
    let a = (iu + 1) * su / cu;
    let b = if a > lo + 1 {
        a
    } else {
        lo + 1
    };
    let hi = if b < su {
        b
    } else {
        su
    };
    (lo as usize, hi as usize)
}

/// Law: when the source is at least as long as the canvas, the cells split
/// it into consecutive, non-empty spans that start at 0 and end at `src`.
pub proof fn lemma_cell_spans_partition(i: int, src: int, cells: int)
    requires
        0 < cells <= src,
        0 <= i < cells,
    ensures
        cell_span_spec(i, src, cells).0 < cell_span_spec(i, src, cells).1,
        i + 1 < cells ==> cell_span_spec(i, src, cells).1 == cell_span_spec(i + 1, src, cells).0,
        i == 0 ==> cell_span_spec(i, src, cells).0 == 0,
        i + 1 == cells ==> cell_span_spec(i, src, cells).1 == src,
{
    assert((i + 1) * src / cells >= i * src / cells + 1) by (nonlinear_arith)
        requires
            0 < cells <= src,
            0 <= i,
    ;
    assert((i + 1) * src / cells <= src) by (nonlinear_arith)
        requires
            0 < cells,
            i + 1 <= cells,
            0 <= src,
    ;
    if i + 1 == cells {
        assert((i + 1) * src / cells == src) by (nonlinear_arith)
            requires
                i + 1 == cells,
                cells > 0,
        ;
    }
    assert(0 * src / cells == 0) by (nonlinear_arith)
        requires
            cells > 0,
    ;
}

/// A backdrop file to open: an index into the videos `bg.mp4`, `bg.webm`,
/// `bg.mov`, `bg.avi`, or into the images `bg.png`, `bg.jpg`, `bg.jpeg`.
#[derive(Clone, Copy, Debug, PartialEq, Eq, Structural)]
pub enum Candidate {
    Video(u8),
    Image(u8),
}

/// The first index at or after `k` that holds `true`.
pub open spec fn first_true_from(s: Seq<bool>, k: int) -> Option<int>
    decreases s.len() - k,
{
    if k < 0 || k >= s.len() {
        None
    } else if s[k] {
        Some(k)
    } else {
        first_true_from(s, k + 1)
    }
}

/// The first index that holds `true`.
pub open spec fn first_true(s: Seq<bool>) -> Option<int> {
    first_true_from(s, 0)
}

/// The file detection opens: none at level 0; otherwise the first existing
/// video; otherwise the first existing image. Only this one file is tried.
pub open spec fn detect_spec(level: u8, videos: Seq<bool>, images: Seq<bool>) -> Option<Candidate> {
    if level == 0 {
        None
    } else {
        match first_true(videos) {
            Some(i) => Some(Candidate::Video(i as u8)),
            None => match first_true(images) {
                Some(j) => Some(Candidate::Image(j as u8)),
                None => None,
            },
        }
    }
}

fn first_index(s: &[bool]) -> (r: Option<u8>)
    requires
        s.len() <= 255,
    ensures
        r matches Some(i) ==> first_true(s@) == Some(i as int),
        r is None ==> first_true(s@) is None,
{
    let mut k: usize = 0;
    while k < s.len()
        invariant
            k <= s.len() <= 255,
            first_true(s@) == first_true_from(s@, k as int),
        decreases s.len() - k,
    {
        if s[k] {
            return Some(k as u8);
        }
        k = k + 1;
    }
    None
}

/// Which backdrop file to open, given which of the video and image
/// candidates exist (in the order of `Candidate`).
pub fn detect_candidate(level: u8, videos: [bool; 4], images: [bool; 3]) -> (r: Option<Candidate>)
    ensures
        r == detect_spec(level, videos@, images@),
        level == 0 ==> r is None,
{
    if level == 0 {
        return None;
    }
    match first_index(videos.as_slice()) {
        Some(i) => Some(Candidate::Video(i)),
        None => match first_index(images.as_slice()) {
            Some(j) => Some(Candidate::Image(j)),
            None => None,
        },
    }
}

/// Law: an existing video always wins over every image, and an image is
/// chosen only when no video exists.
pub proof fn lemma_video_first(level: u8, videos: Seq<bool>, images: Seq<bool>, i: int)
    requires
        level > 0,
        videos.len() <= 255,
        0 <= i < videos.len(),
        videos[i],
    ensures
        detect_spec(level, videos, images) matches Some(Candidate::Video(k)) && k <= i && videos[k as int],
{
    lemma_first_true_bounds(videos, 0);
    lemma_first_true_some(videos, 0, i);
    let j = first_true(videos)->0;
    assert((j as u8) as int == j);
}

proof fn lemma_first_true_bounds(s: Seq<bool>, k: int)
    requires
        0 <= k,
    ensures
        first_true_from(s, k) matches Some(j) ==> k <= j < s.len() && s[j],
    decreases s.len() - k,
{
    if k < s.len() && !s[k] {
        lemma_first_true_bounds(s, k + 1);
    }
}

proof fn lemma_first_true_some(s: Seq<bool>, k: int, i: int)
    requires
        0 <= k <= i < s.len(),
        s[i],
    ensures
        first_true_from(s, k) matches Some(j) && j <= i,
    decreases i - k,
{
    if !s[k] {
        lemma_first_true_some(s, k + 1, i);
    }
}

/// When a backdrop layer is due: the dim level, whether it changed since
/// the last layer, the canvas size of the last layer, and whether there is
/// a source at all.
#[derive(Clone, Copy, Debug, PartialEq, Eq)]
pub struct Bg {
    pub level: u8,
    pub dirty: bool,
    pub last_dims: Option<(u16, u16)>,
    pub has_source: bool,
}

impl Bg {
    pub open spec fn level_spec(&self) -> u8 {
        self.level
    }

    pub open spec fn dirty_spec(&self) -> bool {
        self.dirty
    }

    pub open spec fn last_dims_spec(&self) -> Option<(u16, u16)> {
        self.last_dims
    }

    pub open spec fn has_source_spec(&self) -> bool {
        self.has_source
    }

    /// The dim level never exceeds 10.
    pub open spec fn wf(&self) -> bool {
        self.level <= 10
    }

    /// A backdrop at `level` (capped at 10), with or without a source.
    pub fn new(level: u8, has_source: bool) -> (r: Bg)
        ensures
            r.wf(),
            r.level_spec() == (if level < 10 { level } else { 10 }),
            !r.dirty_spec(),
            r.last_dims_spec() is None,
            r.has_source_spec() == has_source,
    {
        Bg { level: if level < 10 { level } else { 10 }, dirty: false, last_dims: None, has_source }
    }

    /// Change the dim level (capped at 10); a change makes a new layer due.
    pub fn set_level(&mut self, level: u8)
        requires
            old(self).wf(),
        ensures
            final(self).wf(),
            final(self).level_spec() == (if level < 10 { level } else { 10 }),
            final(self).dirty_spec() == (old(self).dirty_spec() || final(self).level_spec() != old(self).level_spec()),
            final(self).last_dims_spec() == old(self).last_dims_spec(),
            final(self).has_source_spec() == old(self).has_source_spec(),
    {
        let level = if level < 10 {
            level
        } else {
            10
        };
        if level != self.level {
            self.level = level;
            self.dirty = true;
        }
    }

    /// The next level of the `b` key: 0 → 1 → … → 10 → 0.
    pub fn cycle_level(&mut self)
        requires
            old(self).wf(),
        ensures
            final(self).wf(),
            final(self).level_spec() == (old(self).level_spec() + 1) % 11,
            final(self).dirty_spec() == (old(self).dirty_spec() || final(self).level_spec() != old(self).level_spec()),
            final(self).last_dims_spec() == old(self).last_dims_spec(),
            final(self).has_source_spec() == old(self).has_source_spec(),
    {
        let next = (self.level + 1) % 11;
        self.set_level(next);
    }

    pub fn level(&self) -> (r: u8)
        ensures
            r == self.level_spec(),
    {
        self.level
    }

    /// A backdrop shows: the level is above 0 and there is a source.
    pub fn enabled(&self) -> (r: bool)
        ensures
            r == (self.level_spec() > 0 && self.has_source_spec()),
    {
        self.level > 0 && self.has_source
    }

    /// The source failed: no backdrop from now on.
    pub fn drop_source(&mut self)
        ensures
            final(self).level_spec() == old(self).level_spec(),
            final(self).dirty_spec() == old(self).dirty_spec(),
            final(self).last_dims_spec() == old(self).last_dims_spec(),
            !final(self).has_source_spec(),
    {
        self.has_source = false;
    }

    /// Whether a layer for a `w` x `h` canvas is due now: there is a backdrop
    /// (level above 0, a source) and the level changed, the canvas size
    /// changed, or (`new_frame`) a video frame arrived. When one is due, the
    /// change is cleared and the size remembered.
    pub fn layer(&mut self, w: u16, h: u16, new_frame: bool) -> (r: bool)
        requires
            old(self).wf(),
        ensures
            final(self).wf(),
            r == layer_due_spec(*old(self), w, h, new_frame),
            *final(self) == after_layer_check(*old(self), w, h, new_frame),
    {
        if self.level == 0 || !self.has_source {
            return false;
        }
        let dims_changed = match self.last_dims {
            Some((lw, lh)) => lw != w || lh != h,
            None => true,
        };
        if !self.dirty && !dims_changed && !new_frame {
            return false;
        }
        self.dirty = false;
        self.last_dims = Some((w, h));
        true
    }
}

pub open spec fn layer_due_spec(s: Bg, w: u16, h: u16, new_frame: bool) -> bool {
    s.level_spec() > 0 && s.has_source_spec() && (s.dirty_spec() || s.last_dims_spec() != Some((w, h))
        || new_frame)
}

/// The state after asking for a layer: when one was due, the change is
/// cleared and the canvas size remembered; otherwise nothing changes.
pub open spec fn after_layer_check(s: Bg, w: u16, h: u16, new_frame: bool) -> Bg {
    if layer_due_spec(s, w, h, new_frame) {
        Bg { level: s.level, dirty: false, last_dims: Some((w, h)), has_source: s.has_source }
    } else {
        s
    }
}

/// Law: right after a layer for a canvas, asking again for the same canvas
/// with no new video frame yields nothing.
pub proof fn lemma_layer_not_repeated(s: Bg, w: u16, h: u16, new_frame: bool)
    requires
        layer_due_spec(s, w, h, new_frame),
    ensures
        !layer_due_spec(after_layer_check(s, w, h, new_frame), w, h, false),
{
}

/// Law: a level change always makes a layer due (for a backdrop that
/// shows), whatever the canvas.
pub proof fn lemma_level_change_redraws(s: Bg, w: u16, h: u16)
    requires
        s.dirty_spec(),
        s.level_spec() > 0,
        s.has_source_spec(),
    ensures
        layer_due_spec(s, w, h, false),
{
}

/// Law: a new canvas size always makes a layer due (for a backdrop that
/// shows), so a resized canvas gets its backdrop again.
pub proof fn lemma_resize_redraws(s: Bg, w: u16, h: u16)
    requires
        s.last_dims_spec() != Some((w, h)),
        s.level_spec() > 0,
        s.has_source_spec(),
    ensures
        layer_due_spec(s, w, h, false),
{
}

/// Law: at every dim level 0..=10 the brightest usable index lies on the
/// ramp, and a higher level never darkens it.
pub proof fn lemma_max_index_in_ramp(level: u8, other: u8)
    requires
        level <= 10,
        level <= other <= 10,
    ensures
        1 <= max_index_spec(level) < GRAY_LEVELS,
        max_index_spec(level) <= max_index_spec(other),
{
    assert(11 * (level as int) <= 11 * (other as int));
    assert((11 * (level as int)) / 10 <= (11 * (other as int)) / 10) by (nonlinear_arith)
        requires
            11 * (level as int) <= 11 * (other as int),
            0 <= 11 * (level as int),
    ;
}

} // verus!
