//! The character canvas: cell colors and their terminal escape codes, how
//! notes pick glyph and color, writing cells, and turning the canvas into
//! the text of one frame.

use vstd::prelude::*;
use crate::chart::{SlideShape, StarKind};
use crate::text::{chars_of, string_of};

verus! {

/// A 24-bit background color.
#[derive(Clone, Copy, Debug, PartialEq, Eq, Structural)]
pub struct Rgb {
    pub r: u8,
    pub g: u8,
    pub b: u8,
}

#[derive(Clone, Copy, Debug, PartialEq, Eq, Structural)]
pub enum Color {
    /// The terminal's own foreground.
    Default,
    /// gray (ring / labels)
    Dim,
    /// default tap notes
    Pink,
    /// star notes + slide lines + touch notes
    Blue,
    /// faded slide path (blue, not bright)
    DimBlue,
    /// break notes (256-color bright orange)
    Orange,
    /// EX notes
    Magenta,
    /// simultaneous (two or more at the same time) + firework
    Yellow,
    /// a touch at its hit moment
    White,
    /// touch-holds: index into the 24-step hue wheel
    Rainbow(u8),
    /// background ramp: index 0..=11 into the grays 232..=243
    Gray(u8),
}

#[derive(Clone, Copy, Debug, PartialEq, Eq, Structural)]
pub struct Cell {
    pub ch: char,
    pub color: Color,
    pub bg: Option<Rgb>,
}

impl Cell {
    pub fn blank() -> (r: Cell)
        ensures
            r == (Cell { ch: ' ', color: Color::Default, bg: None }),
    {
        Cell { ch: ' ', color: Color::Default, bg: None }
    }
}

/// The 256-color codes of the rainbow wheel, red → orange → yellow → green
/// → cyan → blue → magenta → red.
pub open spec fn rainbow_code(i: int) -> nat {
    let k = i % 24;
    if k == 0 { 196 } else if k == 1 { 202 } else if k == 2 { 208 } else if k == 3 { 214 }
    else if k == 4 { 220 } else if k == 5 { 226 } else if k == 6 { 190 } else if k == 7 { 154 }
    else if k == 8 { 118 } else if k == 9 { 46 } else if k == 10 { 48 } else if k == 11 { 50 }
    else if k == 12 { 51 } else if k == 13 { 45 } else if k == 14 { 39 } else if k == 15 { 33 }
    else if k == 16 { 27 } else if k == 17 { 21 } else if k == 18 { 57 } else if k == 19 { 93 }
    else if k == 20 { 129 } else if k == 21 { 165 } else if k == 22 { 201 } else { 198 }
}

/// Decimal digits of `n`.
pub open spec fn dec(n: nat) -> Seq<char>
    decreases n,
{
    if n < 10 {
        seq![(('0' as nat) + n) as char]
    } else {
        dec(n / 10).push((('0' as nat) + n % 10) as char)
    }
}

/// `ESC [ params m`.
pub open spec fn sgr(params: Seq<char>) -> Seq<char> {
    seq!['\x1b', '['] + params + seq!['m']
}

/// A 256-color foreground: `ESC [ 38;5;n m`.
pub open spec fn fg256(n: nat) -> Seq<char> {
    sgr(seq!['3', '8', ';', '5', ';'] + dec(n))
}

/// The escape that selects a foreground color.
pub open spec fn color_code(c: Color) -> Seq<char> {
    match c {
        Color::Default => sgr(seq!['3', '9']),
        Color::Dim => sgr(seq!['9', '0']),
        Color::Pink => fg256(213),
        Color::Blue => sgr(seq!['9', '4']),
        Color::DimBlue => sgr(seq!['3', '4']),
        Color::Orange => fg256(208),
        Color::Magenta => sgr(seq!['9', '5']),
        Color::Yellow => sgr(seq!['9', '3']),
        Color::White => sgr(seq!['9', '7']),
        Color::Rainbow(i) => fg256(rainbow_code(i as int)),
        Color::Gray(i) => fg256(232 + if i < 11 { i as nat } else { 11 }),
    }
}

/// The escape that selects a background: 24-bit `ESC [ 48;2;r;g;b m`, or
/// the terminal's own background `ESC [ 49 m`.
pub open spec fn bg_code(b: Option<Rgb>) -> Seq<char> {
    match b {
        Some(c) => sgr(
            seq!['4', '8', ';', '2', ';'] + dec(c.r as nat) + seq![';'] + dec(c.g as nat) + seq![';'] + dec(c.b as nat),
        ),
        None => sgr(seq!['4', '9']),
    }
}

fn push_all(out: &mut Vec<char>, s: &[char])
    ensures
        final(out)@ == old(out)@ + s@,
{
    let mut i: usize = 0;
    while i < s.len()
        invariant
            i <= s.len(),
            out@ == old(out)@ + s@.take(i as int),
        decreases s.len() - i,
    {
        let ghost before = out@;
        out.push(s[i]);
        assert(s@.take(i + 1) =~= s@.take(i as int).push(s@[i as int]));
        assert(out@ =~= old(out)@ + s@.take(i + 1));
        i = i + 1;
    }
    assert(s@.take(s.len() as int) =~= s@);
}

/// Append the decimal digits of `n`.
pub fn push_dec(out: &mut Vec<char>, n: u32)
    ensures
        final(out)@ == old(out)@ + dec(n as nat),
    decreases n,
{
    if n < 10 {
        let c = if n == 0 { '0' } else if n == 1 { '1' } else if n == 2 { '2' } else if n == 3 { '3' } else if n == 4 { '4' } else if n == 5 { '5' } else if n == 6 { '6' } else if n == 7 { '7' } else if n == 8 { '8' } else { '9' };
        out.push(c);
        assert(final(out)@ =~= old(out)@ + dec(n as nat));
    } else {
        push_dec(out, n / 10);
        let d = n % 10;
        let c = if d == 0 { '0' } else if d == 1 { '1' } else if d == 2 { '2' } else if d == 3 { '3' } else if d == 4 { '4' } else if d == 5 { '5' } else if d == 6 { '6' } else if d == 7 { '7' } else if d == 8 { '8' } else { '9' };
        out.push(c);
        assert(dec(n as nat) == dec((n / 10) as nat).push((('0' as nat) + n as nat % 10) as char));
        assert(final(out)@ =~= old(out)@ + dec(n as nat));
    }
}

fn push_sgr_start(out: &mut Vec<char>)
    ensures
        final(out)@ == old(out)@ + seq!['\x1b', '['],
{
    out.push('\x1b');
    out.push('[');
    assert(final(out)@ =~= old(out)@ + seq!['\x1b', '[']);
}

fn push_fg256(out: &mut Vec<char>, n: u32)
    ensures
        final(out)@ == old(out)@ + fg256(n as nat),
{
    let ghost o = out@;
    push_sgr_start(out);
    push_all(out, &['3', '8', ';', '5', ';']);
    push_dec(out, n);
    out.push('m');
    assert(final(out)@ =~= o + fg256(n as nat));
}

fn push_sgr2(out: &mut Vec<char>, a: char, b: char)
    ensures
        final(out)@ == old(out)@ + sgr(seq![a, b]),
{
    let ghost o = out@;
    push_sgr_start(out);
    out.push(a);
    out.push(b);
    out.push('m');
    assert(final(out)@ =~= o + sgr(seq![a, b]));
}

pub fn rainbow(i: u8) -> (r: u32)
    ensures
        r == rainbow_code(i as int),
{
    let k = i % 24;
    if k == 0 { 196 } else if k == 1 { 202 } else if k == 2 { 208 } else if k == 3 { 214 }
    else if k == 4 { 220 } else if k == 5 { 226 } else if k == 6 { 190 } else if k == 7 { 154 }
    else if k == 8 { 118 } else if k == 9 { 46 } else if k == 10 { 48 } else if k == 11 { 50 }
    else if k == 12 { 51 } else if k == 13 { 45 } else if k == 14 { 39 } else if k == 15 { 33 }
    else if k == 16 { 27 } else if k == 17 { 21 } else if k == 18 { 57 } else if k == 19 { 93 }
    else if k == 20 { 129 } else if k == 21 { 165 } else if k == 22 { 201 } else { 198 }
}

impl Color {
    /// Append the escape that selects this foreground color.
    pub fn push_ansi(self, out: &mut Vec<char>)
        ensures
            final(out)@ == old(out)@ + color_code(self),
    {
        match self {
            Color::Default => push_sgr2(out, '3', '9'),
            Color::Dim => push_sgr2(out, '9', '0'),
            Color::Pink => push_fg256(out, 213),
            Color::Blue => push_sgr2(out, '9', '4'),
            Color::DimBlue => push_sgr2(out, '3', '4'),
            Color::Orange => push_fg256(out, 208),
            Color::Magenta => push_sgr2(out, '9', '5'),
            Color::Yellow => push_sgr2(out, '9', '3'),
            Color::White => push_sgr2(out, '9', '7'),
            Color::Rainbow(i) => push_fg256(out, rainbow(i)),
            Color::Gray(i) => push_fg256(out, 232 + if i < 11 { i as u32 } else { 11 }),
        }
    }

    /// The escape that selects this foreground color.
    pub fn ansi(self) -> (r: String)
        ensures
            r@ == color_code(self),
    {
        let mut v: Vec<char> = Vec::new();
        self.push_ansi(&mut v);
        assert(v@ =~= color_code(self));
        crate::text::string_of(v.as_slice())
    }
}

/// Append the escape that selects a background.
pub fn push_bg(out: &mut Vec<char>, b: Option<Rgb>)
    ensures
        final(out)@ == old(out)@ + bg_code(b),
{
    match b {
        Some(c) => {
            let ghost o = out@;
            push_sgr_start(out);
            push_all(out, &['4', '8', ';', '2', ';']);
            push_dec(out, c.r as u32);
            out.push(';');
            push_dec(out, c.g as u32);
            out.push(';');
            push_dec(out, c.b as u32);
            out.push('m');
            assert(final(out)@ =~= o + bg_code(b));
        },
        None => push_sgr2(out, '4', '9'),
    }
}

// ---------------------------------------------------------------------------
// How a note looks.

/// Glyph for a note body (color is chosen separately): stars are `★`,
/// spinning stars `✦`, everything else a `●` disc.
pub open spec fn note_glyph_spec(star: StarKind) -> char {
    match star {
        StarKind::Plain => '●',
        StarKind::Star => '★',
        StarKind::Spin => '✦',
    }
}

pub fn note_glyph(brk: bool, ex: bool, star: StarKind) -> (r: char)
    ensures
        r == note_glyph_spec(star),
{
    match star {
        StarKind::Plain => '●',
        StarKind::Star => '★',
        StarKind::Spin => '✦',
    }
}

/// A note's color, by priority: break → orange; simultaneous → yellow;
/// star or touch → blue; EX → magenta; otherwise pink.
pub open spec fn note_color_spec(brk: bool, ex: bool, star: StarKind, sim: bool, is_touch: bool) -> Color {
    if brk {
        Color::Orange
    } else if sim {
        Color::Yellow
    } else if is_touch || star != StarKind::Plain {
        Color::Blue
    } else if ex {
        Color::Magenta
    } else {
        Color::Pink
    }
}

pub fn note_color(brk: bool, ex: bool, star: StarKind, sim: bool, is_touch: bool) -> (r: Color)
    ensures
        r == note_color_spec(brk, ex, star, sim, is_touch),
{
    if brk {
        Color::Orange
    } else if sim {
        Color::Yellow
    } else if is_touch || star != StarKind::Plain {
        Color::Blue
    } else if ex {
        Color::Magenta
    } else {
        Color::Pink
    }
}

/// Law: below break and simultaneity, every star (plain or spinning) and
/// every touch is blue whatever its EX flag, and EX shows as magenta only on
/// a plain ring note; a break is orange and a simultaneous non-break yellow
/// whatever the rest.
pub proof fn lemma_note_color_rules(brk: bool, ex: bool, star: StarKind, sim: bool, is_touch: bool)
    ensures
        brk ==> note_color_spec(brk, ex, star, sim, is_touch) == Color::Orange,
        !brk && sim ==> note_color_spec(brk, ex, star, sim, is_touch) == Color::Yellow,
        !brk && !sim && (star == StarKind::Star || star == StarKind::Spin || is_touch) ==> note_color_spec(brk, ex, star, sim, is_touch) == Color::Blue,
        !brk && !sim && star == StarKind::Plain && !is_touch ==> note_color_spec(brk, ex, star, sim, is_touch) == (if ex { Color::Magenta } else { Color::Pink }),
        note_color_spec(brk, ex, StarKind::Star, sim, is_touch) == note_color_spec(brk, ex, StarKind::Spin, sim, is_touch),
{
}

/// The enlarged glyph drawn at the hit moment.
pub fn flash_glyph(g: char) -> (r: char)
    ensures
        r == (if g == '●' { '◉' } else if g == '★' || g == '✦' { '✦' } else { g }),
{
    if g == '●' {
        '◉'
    } else if g == '★' || g == '✦' {
        '✦'
    } else {
        g
    }
}

/// The faded color of a trail: blue fades to dim blue, everything else to
/// gray.
pub fn dim(c: Color) -> (r: Color)
    ensures
        r == (if c == Color::Blue { Color::DimBlue } else { Color::Dim }),
{
    match c {
        Color::Blue => Color::DimBlue,
        _ => Color::Dim,
    }
}

/// A note is drawn as simultaneous when a neighbour in the (time-ordered)
/// list has the same hit time. Each time is given as a key that is equal
/// exactly when the times are: for the non-negative times of a chart, the
/// bit pattern of the time in seconds.
pub open spec fn simultaneous_at(keys: Seq<u32>, i: int) -> bool {
    (i > 0 && keys[i - 1] == keys[i]) || (i + 1 < keys.len() && keys[i + 1] == keys[i])
}

/// Per-note flag: shares its hit time with another note (an EACH).
pub fn simultaneous_flags(keys: &Vec<u32>) -> (r: Vec<bool>)
    ensures
        r.len() == keys.len(),
        forall|i: int| 0 <= i < r.len() ==> r@[i] == simultaneous_at(keys@, i),
{
    let mut r: Vec<bool> = Vec::new();
    let n = keys.len();
    let mut i: usize = 0;
    while i < n
        invariant
            n == keys.len(),
            i <= n,
            r.len() == i,
            forall|k: int| 0 <= k < i ==> r@[k] == simultaneous_at(keys@, k),
        decreases n - i,
    {
        let t = keys[i];
        let f = (i > 0 && keys[i - 1] == t) || (i + 1 < n && keys[i + 1] == t);
        r.push(f);
        i = i + 1;
    }
    r
}

/// Law: in a time-ordered list, a note is flagged simultaneous exactly when
/// some other note has the same hit time.
pub proof fn lemma_simultaneous_means_shared_time(keys: Seq<u32>, i: int)
    requires
        0 <= i < keys.len(),
        forall|a: int, b: int| 0 <= a <= b < keys.len() ==> #[trigger] keys[a] <= #[trigger] keys[b],
    ensures
        simultaneous_at(keys, i) <==> exists|j: int| 0 <= j < keys.len() && j != i && keys[j] == keys[i],
{
    if exists|j: int| 0 <= j < keys.len() && j != i && keys[j] == keys[i] {
        let j = choose|j: int| 0 <= j < keys.len() && j != i && keys[j] == keys[i];
        if j < i {
            assert(keys[j] <= keys[i - 1] <= keys[i]);
        } else {
            assert(keys[i] <= keys[i + 1] <= keys[j]);
        }
    }
    if simultaneous_at(keys, i) {
        if i > 0 && keys[i - 1] == keys[i] {
            assert(0 <= i - 1 < keys.len() && i - 1 != i && keys[i - 1] == keys[i]);
        } else {
            assert(0 <= i + 1 < keys.len() && i + 1 != i && keys[i + 1] == keys[i]);
        }
    }
}

// ---------------------------------------------------------------------------
// Ring geometry in button steps.

/// Map any integer onto the buttons 1..=8 cyclically (0 → 8, 9 → 1).
pub open spec fn wrap8(x: int) -> int {
    ((x - 1) % 8) + 1
}

pub fn wrap1_8(x: i32) -> (r: u8)
    ensures
        r as int == wrap8(x as int),
        1 <= r <= 8,
{
    let m = ((x as i64) - 1) % 8;
    let m = if m < 0 {
        m + 8
    } else {
        m
    };
    (m + 1) as u8
}

/// The three sensors a fan slide (`w`) to `to` lands on: `to-1`, `to`,
/// `to+1` around the ring.
pub fn fan_targets(to: u8) -> (r: (u8, u8, u8))
    ensures
        r.0 as int == wrap8(to - 1),
        r.1 as int == wrap8(to as int),
        r.2 as int == wrap8(to + 1),
{
    (wrap1_8(to as i32 - 1), wrap1_8(to as i32), wrap1_8(to as i32 + 1))
}

/// Buttons 1, 2, 7, 8 sit on the upper half of the ring.
pub open spec fn upper_half(b: u8) -> bool {
    b == 1 || b == 2 || b == 7 || b == 8
}

/// Steps from `from` to `to` going clockwise (0..=7).
pub open spec fn cw_steps(from: u8, to: u8) -> int {
    ((to as int - from as int) % 8 + 8) % 8
}

/// Steps from `from` to `to` going counter-clockwise (0..=7).
pub open spec fn ccw_steps(from: u8, to: u8) -> int {
    ((from as int - to as int) % 8 + 8) % 8
}

/// The signed length, in 45° button steps (positive = clockwise), of the
/// ring arc a slide leg sweeps, for the shapes that follow an arc:
/// `>` is clockwise from the upper half and counter-clockwise from the lower
/// half, `<` the reverse; `^` takes the shorter way (clockwise on a tie);
/// `p`/`pp` loop counter-clockwise and `q`/`qq` clockwise.
pub open spec fn arc_steps_spec(shape: SlideShape, from: u8, to: u8) -> Option<int> {
    let cw = cw_steps(from, to);
    let ccw = ccw_steps(from, to);
    match shape {
        SlideShape::ArcRight => Some(if upper_half(from) { cw } else { -ccw }),
        SlideShape::ArcLeft => Some(if upper_half(from) { -ccw } else { cw }),
        SlideShape::AutoCircle => Some(if cw <= 4 { cw } else { -ccw }),
        SlideShape::P | SlideShape::PP => Some(-ccw),
        SlideShape::Q | SlideShape::QQ => Some(cw),
        _ => None,
    }
}

pub fn arc_steps(shape: SlideShape, from: u8, to: u8) -> (r: Option<i8>)
    ensures
        r matches Some(v) ==> arc_steps_spec(shape, from, to) == Some(v as int),
        r is None ==> arc_steps_spec(shape, from, to) is None,
{
    let cw: i8 = (((to as i16 - from as i16) % 8 + 8) % 8) as i8;
    let ccw: i8 = (((from as i16 - to as i16) % 8 + 8) % 8) as i8;
    let upper = from == 1 || from == 2 || from == 7 || from == 8;
    match shape {
        SlideShape::ArcRight => Some(if upper { cw } else { -ccw }),
        SlideShape::ArcLeft => Some(if upper { -ccw } else { cw }),
        SlideShape::AutoCircle => Some(if cw <= 4 { cw } else { -ccw }),
        SlideShape::P | SlideShape::PP => Some(-ccw),
        SlideShape::Q | SlideShape::QQ => Some(cw),
        _ => None,
    }
}

// ---------------------------------------------------------------------------
// The canvas.

/// Writing glyph `ch` in `color` at column `c`, row `r` of a `width` x
/// `height` canvas: cells outside the canvas are left alone, and the cell's
/// background is kept.
pub open spec fn put_spec(cells: Seq<Cell>, width: int, height: int, c: int, r: int, ch: char, color: Color) -> Seq<Cell> {
    let idx = r * width + c;
    if c < 0 || c >= width || r < 0 || r >= height || idx >= cells.len() {
        cells
    } else {
        cells.update(idx, Cell { ch: ch, color: color, bg: cells[idx].bg })
    }
}

pub fn put(cells: &mut Vec<Cell>, width: i32, height: i32, c: i32, r: i32, ch: char, color: Color)
    ensures
        final(cells)@ == put_spec(old(cells)@, width as int, height as int, c as int, r as int, ch, color),
{
    if c < 0 || c >= width || r < 0 || r >= height {
        return;
    }
    let ru = r as u64;
    let wu = width as u64;
    assert(ru * wu <= 0x4000_0000_0000_0000) by (nonlinear_arith)
        requires
            ru < 0x8000_0000,
            wu < 0x8000_0000,
    ;
    let idx: u64 = ru * wu + (c as u64);
    assert(idx == r * width + c);
    if idx < cells.len() as u64 {
        let i = idx as usize;
        let bg = cells[i].bg;
        cells.set(i, Cell { ch, color, bg });
    }
}

/// Law: `put` changes no cell but the one at `(c, r)`.
pub proof fn lemma_put_local(cells: Seq<Cell>, width: int, height: int, c: int, r: int, ch: char, color: Color, k: int)
    requires
        0 <= k < cells.len(),
        k != r * width + c,
    ensures
        put_spec(cells, width, height, c, r, ch, color).len() == cells.len(),
        put_spec(cells, width, height, c, r, ch, color)[k] == cells[k],
{
}

/// A backdrop with the glyphs of `top` laid over it: where `top` holds a
/// glyph other than a space, that glyph and its color, on the backdrop's
/// own background; elsewhere the backdrop cell.
pub open spec fn overlay_spec(base: Seq<Cell>, top: Seq<Cell>) -> Seq<Cell> {
    Seq::new(
        base.len(),
        |k: int|
            if k < top.len() && top[k].ch != ' ' {
                Cell { ch: top[k].ch, color: top[k].color, bg: base[k].bg }
            } else {
                base[k]
            },
    )
}

/// Lay the glyphs of `top` over the backdrop `base`.
pub fn overlay(base: &mut Vec<Cell>, top: &Vec<Cell>)
    ensures
        final(base)@ == overlay_spec(old(base)@, top@),
{
    let n = base.len();
    let mut k: usize = 0;
    while k < n
        invariant
            n == base.len() == old(base)@.len(),
            k <= n,
            forall|x: int| 0 <= x < k ==> base@[x] == overlay_spec(old(base)@, top@)[x],
            forall|x: int| k <= x < n ==> base@[x] == old(base)@[x],
        decreases n - k,
    {
        if k < top.len() && top[k].ch != ' ' {
            let bg = base[k].bg;
            base.set(k, Cell { ch: top[k].ch, color: top[k].color, bg });
        }
        k = k + 1;
    }
    assert(base@ =~= overlay_spec(old(base)@, top@));
}

/// The text of one cell after a cell whose colors were `fg` / `bg`: the
/// escapes for what changed, then the glyph.
pub open spec fn cell_text(c: Cell, fg: Color, bg: Option<Rgb>) -> Seq<char> {
    (if c.color != fg { color_code(c.color) } else { seq![] }) + (if c.bg != bg { bg_code(c.bg) } else { seq![] }) + seq![c.ch]
}

/// The text of a row of cells, starting from colors `fg` / `bg`.
pub open spec fn row_text(cells: Seq<Cell>, fg: Color, bg: Option<Rgb>) -> Seq<char>
    decreases cells.len(),
{
    if cells.len() == 0 {
        seq![]
    } else {
        cell_text(cells[0], fg, bg) + row_text(cells.drop_first(), cells[0].color, cells[0].bg)
    }
}

/// After each row: default background, clear to the end of the line, a
/// carriage return and line feed, and a reset.
pub open spec fn row_end() -> Seq<char> {
    sgr(seq!['4', '9']) + seq!['\x1b', '[', 'K', '\r', '\n'] + sgr(seq!['0'])
}

/// The text of the first `h` rows of a `w`-wide canvas.
pub open spec fn rows_text(cells: Seq<Cell>, w: int, h: int) -> Seq<char>
    decreases h,
{
    if h <= 0 {
        seq![]
    } else {
        rows_text(cells, w, h - 1) + row_text(cells.subrange(w * (h - 1), w * h), Color::Default, None) + row_end()
    }
}

/// A frame's canvas: cursor home, every row, a final reset.
pub open spec fn canvas_text(cells: Seq<Cell>, w: int, h: int) -> Seq<char> {
    seq!['\x1b', '[', 'H'] + rows_text(cells, w, h) + sgr(seq!['0'])
}

pub open spec fn row_suffix_text(row: Seq<Cell>, k: int) -> Seq<char> {
    if k == 0 {
        row_text(row, Color::Default, None)
    } else {
        row_text(row.skip(k), row[k - 1].color, row[k - 1].bg)
    }
}

fn push_row(out: &mut Vec<char>, cells: &Vec<Cell>, start: usize, end: usize)
    requires
        start <= end <= cells.len(),
    ensures
        final(out)@ == old(out)@ + row_text(cells@.subrange(start as int, end as int), Color::Default, None),
{
    let ghost row = cells@.subrange(start as int, end as int);
    let mut fg = Color::Default;
    let mut bg: Option<Rgb> = None;
    let mut k = start;
    assert(row.skip(0) =~= row);
    while k < end
        invariant
            start <= k <= end <= cells.len(),
            row == cells@.subrange(start as int, end as int),
            k == start ==> fg == Color::Default && bg is None,
            k > start ==> fg == row[k - start - 1].color && bg == row[k - start - 1].bg,
            out@ + row_text(row.skip(k - start), fg, bg) == old(out)@ + row_text(row, Color::Default, None),
        decreases end - k,
    {
        let c = cells[k];
        let ghost rest = row.skip(k - start);
        assert(rest[0] == c);
        assert(rest.drop_first() =~= row.skip(k + 1 - start));
        let ghost before = out@;
        if c.color != fg {
            c.color.push_ansi(out);
            fg = c.color;
        }
        let same_bg = match (c.bg, bg) {
            (Some(x), Some(y)) => x.r == y.r && x.g == y.g && x.b == y.b,
            (None, None) => true,
            _ => false,
        };
        if !same_bg {
            push_bg(out, c.bg);
            bg = c.bg;
        }
        out.push(c.ch);
        assert(out@ =~= before + cell_text(c, if k == start { Color::Default } else { row[k - start - 1].color }, if k == start { None } else { row[k - start - 1].bg }));
        k = k + 1;
    }
    assert(row.skip(end - start) =~= Seq::<Cell>::empty());
    assert(out@ + seq![] =~= out@);
}

/// The text of a `width` x `height` canvas (row after row).
pub fn canvas(cells: &Vec<Cell>, width: usize, height: usize) -> (r: String)
    requires
        cells.len() == width * height,
    ensures
        r@ == canvas_text(cells@, width as int, height as int),
{
    let mut out: Vec<char> = Vec::new();
    out.push('\x1b');
    out.push('[');
    out.push('H');
    assert(out@ =~= seq!['\x1b', '[', 'H'] + rows_text(cells@, width as int, 0));
    let mut row: usize = 0;
    while row < height
        invariant
            row <= height,
            cells.len() == width * height,
            out@ == seq!['\x1b', '[', 'H'] + rows_text(cells@, width as int, row as int),
        decreases height - row,
    {
        assert(width * (row + 1) <= width * height) by (nonlinear_arith)
            requires
                row + 1 <= height,
        ;
        assert(width * row + width == width * (row + 1)) by (nonlinear_arith);
        let start = width * row;
        let end = start + width;
        let ghost before = out@;
        push_row(&mut out, cells, start, end);
        push_sgr2(&mut out, '4', '9');
        push_all(&mut out, &['\x1b', '[', 'K', '\r', '\n', '\x1b', '[', '0', 'm']);
        assert(end == width * (row + 1));
        assert(rows_text(cells@, width as int, row + 1) == rows_text(cells@, width as int, row as int) + row_text(cells@.subrange(start as int, end as int), Color::Default, None) + row_end());
        assert(out@ =~= seq!['\x1b', '[', 'H'] + rows_text(cells@, width as int, row + 1));
        row = row + 1;
    }
    push_all(&mut out, &['\x1b', '[', '0', 'm']);
    assert(out@ =~= canvas_text(cells@, width as int, height as int));
    string_of(out.as_slice())
}

/// `s` cut to at most `max_chars` characters, so that a line never wraps.
pub fn truncate(s: &str, max_chars: usize) -> (r: String)
    ensures
        r@ == (if s@.len() <= max_chars { s@ } else { s@.take(max_chars as int) }),
        r@.len() <= max_chars,
        r@ == s@.take(r@.len() as int),
{
    let v = chars_of(s);
    if v.len() <= max_chars {
        return string_of(v.as_slice());
    }
    let mut out: Vec<char> = Vec::new();
    let mut i: usize = 0;
    while i < max_chars
        invariant
            i <= max_chars < v.len(),
            out@ =~= v@.take(i as int),
        decreases max_chars - i,
    {
        out.push(v[i]);
        i = i + 1;
    }
    string_of(out.as_slice())
}

} // verus!
